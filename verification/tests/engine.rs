use std::sync::Arc;

use oc_earley::command::render_text_report;
use oc_earley::engine::{prepare, prepare_from, BackendPolicy, CompiledSchema, PreparedBackend};
use oc_earley::error::{CompileError, CompileStage, Error, RuntimeError, RuntimeResource};
use oc_earley::guide::{BackendKind, GuideRuntime};
use oc_earley::json::{JsonMember, JsonNumber, JsonValue};
use oc_earley::lowering::lower;
use oc_earley::normalize::normalize_schema;
use oc_earley::recognizer::Advance;
use oc_earley::reduction::reduce;
use oc_earley::report::TierReport;
use oc_earley::schema::{CompileLimits, CompileOptions, NormalizedSchema, RuntimeLimits};
use oc_earley::vocabulary::Vocabulary;

const DEEP_ACYCLIC_REF: &str = r##"{
  "$defs":{
    "a":{"$ref":"#/$defs/b"},
    "b":{"$ref":"#/$defs/c"},
    "c":{"$ref":"#/$defs/d"},
    "d":{"$ref":"#/$defs/e"},
    "e":{"const":"done"}
  },
  "$ref":"#/$defs/a"
}"##;

const RECURSIVE_OPTIONAL_PROPERTY: &str = r##"{
  "$defs":{"node":{
    "type":"object",
    "properties":{"value":{"type":"string"},"next":{"$ref":"#/$defs/node"}},
    "required":["value"],
    "additionalProperties":false
  }},
  "$ref":"#/$defs/node"
}"##;

const RECURSIVE_REQUIRED_PROPERTY: &str = r##"{
  "$defs":{
    "left":{"anyOf":[{"type":"null"},{
      "type":"object","properties":{"right":{"$ref":"#/$defs/right"}},
      "required":["right"],"additionalProperties":false
    }]},
    "right":{
      "type":"object","properties":{"left":{"$ref":"#/$defs/left"}},
      "required":["left"],"additionalProperties":false
    }
  },
  "$ref":"#/$defs/left"
}"##;

const RECURSIVE_ARRAY: &str = r##"{
  "$defs":{"node":{"anyOf":[
    {"const":null},
    {"type":"array","prefixItems":[{"$ref":"#/$defs/node"}],"items":false}
  ]}},
  "$ref":"#/$defs/node"
}"##;

const AMBIGUOUS_ANYOF: &str = r##"{
  "$defs":{"node":{"anyOf":[
    {"const":null},
    {"type":"array","prefixItems":[{"$ref":"#/$defs/node"}],"items":false},
    {"type":"array","prefixItems":[{"$ref":"#/$defs/node"}],"items":false}
  ]}},
  "$ref":"#/$defs/node"
}"##;

const ALLOF_INTERSECTION: &str = r#"{"allOf":[{"type":"string"},{"const":"x"}]}"#;

const PREFIX_ITEMS: &str = r#"{
  "type":"array","prefixItems":[{"const":1}],"items":{"const":2},"minItems":1,"maxItems":3
}"#;

fn json_value(value: &serde_json::Value) -> JsonValue {
    match value {
        serde_json::Value::Null => JsonValue::Null,
        serde_json::Value::Bool(value) => JsonValue::Bool(*value),
        serde_json::Value::Number(number) => JsonValue::Number(JsonNumber {
            text: number.to_string(),
            unsigned: number.as_u64(),
            signed: number.as_i64(),
        }),
        serde_json::Value::String(text) => JsonValue::String(text.clone()),
        serde_json::Value::Array(items) => JsonValue::Array(items.iter().map(json_value).collect()),
        serde_json::Value::Object(members) => JsonValue::object(
            members
                .iter()
                .map(|(key, value)| JsonMember { key: key.clone(), value: json_value(value) })
                .collect(),
        )
        .unwrap(),
    }
}

fn parse(text: &str) -> JsonValue {
    json_value(&serde_json::from_str(text).unwrap())
}

fn compile(
    schema: &str,
    vocabulary: &Vocabulary,
    options: &CompileOptions,
) -> Result<CompiledSchema, Error> {
    CompiledSchema::compile(&parse(schema), vocabulary, options)
}

fn compile_with_policy(
    schema: &str,
    vocabulary: &Vocabulary,
    options: &CompileOptions,
    policy: BackendPolicy,
) -> Result<CompiledSchema, Error> {
    CompiledSchema::compile_with_policy(&parse(schema), vocabulary, options, policy)
}

fn analyze(schema: &str, options: &CompileOptions) -> Result<TierReport, CompileError> {
    CompiledSchema::analyze(&parse(schema), options)
}

fn vocabulary(tokens: &[(&str, u32)], eos: u32) -> Vocabulary {
    let mut vocabulary = Vocabulary::new(eos);
    for (bytes, token) in tokens {
        vocabulary.try_insert(bytes.as_bytes(), *token).unwrap();
    }
    vocabulary
}

fn accepts(compiled: &CompiledSchema, bytes: &[u8]) -> bool {
    let mut recognizer = compiled.recognizer(RuntimeLimits::default(), 1).unwrap();
    !matches!(
        recognizer.try_advance_bytes(bytes).unwrap(),
        Advance::Rejected
    ) && recognizer.is_accepting()
}

#[test]
fn deep_acyclic_references_compile_to_the_whole_dfa() {
    let schema = DEEP_ACYCLIC_REF;
    let vocabulary = vocabulary(&[(r#""done""#, 0), (r#""other""#, 1)], 2);
    let compiled =
        compile(schema, &vocabulary, &CompileOptions::default()).unwrap();

    assert_eq!(compiled.report.reference_edges, 5);
    assert_eq!(compiled.report.selected_backend, BackendKind::WholeDfa);
    let index = compiled.index().unwrap();
    let final_state = index.next_state(&index.initial_state(), &0).unwrap();
    assert!(index.is_final_state(&final_state));
    assert_eq!(index.next_state(&index.initial_state(), &1), None);
}

#[test]
fn recursive_schema_selects_a_structural_backend() {
    let schema = RECURSIVE_OPTIONAL_PROPERTY;
    let compiled = compile(
        schema,
        &vocabulary(&[("null", 0)], 1),
        &CompileOptions::default(),
    )
    .unwrap();

    assert!(matches!(
        compiled.report.selected_backend,
        BackendKind::Lalr | BackendKind::Earley
    ));
    assert!(compiled.normalized.nodes.iter().any(|node| {
        node.provenance.pointer.0.ends_with("/properties/next")
            && matches!(node.kind, NormalizedSchema::Ref(_))
    }));
    assert!(!compiled.report.diagnostics.is_empty());
    assert!(matches!(
        compiled.index(),
        Err(CompileError::StructuralBackendRequired { .. })
    ));
}

#[test]
fn all_of_compiles_as_intersection() {
    let schema = ALLOF_INTERSECTION;
    let compiled = compile(
        schema,
        &vocabulary(&[(r#""x""#, 0), (r#""y""#, 1)], 2),
        &CompileOptions::default(),
    )
    .unwrap();
    let index = compiled.index().unwrap();

    let accepted = index.next_state(&index.initial_state(), &0).unwrap();
    assert!(index.is_final_state(&accepted));
    assert_eq!(index.next_state(&index.initial_state(), &1), None);
}

#[test]
fn prefix_items_compile_to_the_exact_language() {
    let schema = PREFIX_ITEMS;
    let compiled = compile(
        schema,
        &vocabulary(
            &[
                ("[1]", 0),
                ("[1,2]", 1),
                ("[1,2,2]", 2),
                ("[]", 3),
                ("[2]", 4),
                ("[1,3]", 5),
                ("[1,2,2,2]", 6),
            ],
            7,
        ),
        &CompileOptions::default(),
    )
    .unwrap();
    let index = compiled.index().unwrap();
    let allowed = index.allowed_tokens(&index.initial_state()).unwrap();

    assert!(allowed.contains(&0));
    assert!(allowed.contains(&1));
    assert!(allowed.contains(&2));
    assert!(!allowed.iter().any(|token| (3..=6).contains(token)));
    for token in 0..=2 {
        let state = index.next_state(&index.initial_state(), &token).unwrap();
        assert!(index.is_final_state(&state));
    }
}

#[test]
fn false_schema_compiles_to_an_empty_index() {
    let compiled = compile(
        "false",
        &vocabulary(&[("null", 0)], 1),
        &CompileOptions::default(),
    )
    .unwrap();

    assert_eq!(compiled.report.selected_backend, BackendKind::WholeDfa);
    assert!(compiled
        .index()
        .unwrap()
        .allowed_tokens(&compiled.index().unwrap().initial_state())
        .is_none());
}

#[test]
fn open_object_language_is_never_weakened() {
    let error = analyze(
        r#"{"type":"object","properties":{"x":{"const":1}}}"#,
        &CompileOptions::default(),
    )
    .unwrap_err();

    assert!(matches!(error, CompileError::UnsupportedCombination { .. }));
    assert!(error.message().contains("canonical key-order memory"));
}

#[test]
fn whole_dfa_guides_share_the_compiled_index() {
    let vocabulary = vocabulary(&[(r#""done""#, 0)], 1);
    let compiled = compile(
        r#"{"const":"done"}"#,
        &vocabulary,
        &CompileOptions::default(),
    )
    .unwrap();
    let first = compiled.guide(1, RuntimeLimits::default(), 1).unwrap();
    let second = compiled.guide(1, RuntimeLimits::default(), 1).unwrap();

    match (&first.runtime, &second.runtime) {
        (
            GuideRuntime::Dfa {
                index: first_index, ..
            },
            GuideRuntime::Dfa {
                index: second_index,
                ..
            },
        ) => assert!(Arc::ptr_eq(first_index, second_index)),
        _ => panic!("expected whole-DFA guides"),
    }
}

#[test]
fn recursive_object_recognizes_depth_one_hundred() {
    let schema = RECURSIVE_OPTIONAL_PROPERTY;
    let compiled = compile(
        schema,
        &vocabulary(&[("unused", 0)], 1),
        &CompileOptions::default(),
    )
    .unwrap();
    let mut value = String::from(r#"{"value":"x"}"#);
    for _ in 1..100 {
        value = format!(r#"{{"next":{value},"value":"x"}}"#);
    }
    assert!(matches!(
        compiled.report.selected_backend,
        BackendKind::Lalr | BackendKind::Earley
    ));
    assert!(accepts(&compiled, value.as_bytes()));
    assert!(!accepts(&compiled, br#"{"next":{"value":"x"}}"#));

    let mut truncated = compiled.recognizer(RuntimeLimits::default(), 1).unwrap();
    assert_eq!(
        truncated
            .try_advance_bytes(&value.as_bytes()[..value.len() - 1])
            .unwrap(),
        Advance::Live
    );
    assert!(truncated.is_live());
    assert!(!truncated.is_accepting());

    let mut recognizer = compiled.recognizer(RuntimeLimits::default(), 1).unwrap();
    assert_eq!(
        recognizer.try_advance_bytes(br#"{"value":"x"}"#).unwrap(),
        Advance::Accepting
    );
    assert_eq!(
        recognizer.try_advance_bytes(b"}").unwrap(),
        Advance::Rejected
    );
    assert!(recognizer.is_accepting());
}

#[test]
fn recursive_array_recognizes_depth_one_hundred() {
    let schema = r##"{
      "$defs":{"node":{"anyOf":[{"type":"null"},{"type":"array","prefixItems":[{"$ref":"#/$defs/node"}],"items":false}]}},
      "$ref":"#/$defs/node"
    }"##;
    let compiled = compile(
        schema,
        &vocabulary(&[("unused", 0)], 1),
        &CompileOptions::default(),
    )
    .unwrap();
    let value = format!("{}null{}", "[".repeat(100), "]".repeat(100));
    assert!(accepts(&compiled, value.as_bytes()));
    assert!(!accepts(
        &compiled,
        format!("{}null{}", "[".repeat(100), "]".repeat(99)).as_bytes()
    ));
}

#[test]
fn forced_backends_expose_conflicts_and_agree() {
    let schema = r#"{"anyOf":[{"const":"x"},{"const":"x"}]}"#;
    let vocabulary = vocabulary(&[(r#""x""#, 0)], 1);
    let error = compile_with_policy(
        schema,
        &vocabulary,
        &CompileOptions::default(),
        BackendPolicy::ForceLalr,
    )
    .unwrap_err();
    assert!(matches!(
        error,
        Error::Compile(CompileError::BackendUnavailable {
            backend: "lalr",
            ..
        })
    ));

    let dfa = compile_with_policy(
        schema,
        &vocabulary,
        &CompileOptions::default(),
        BackendPolicy::ForceDfa,
    )
    .unwrap();
    let earley = compile_with_policy(
        schema,
        &vocabulary,
        &CompileOptions::default(),
        BackendPolicy::ForceEarley,
    )
    .unwrap();
    assert!(accepts(&dfa, br#""x""#));
    assert!(accepts(&earley, br#""x""#));
    assert!(!accepts(&dfa, br#""y""#));
    assert!(!accepts(&earley, br#""y""#));
}

#[test]
fn byte_chunks_and_checkpoint_replay_are_equivalent() {
    let compiled = compile(
        r#"{"const":"é"}"#,
        &vocabulary(&[(r#""é""#, 0)], 1),
        &CompileOptions::default(),
    )
    .unwrap();
    let bytes = "\"é\"".as_bytes();
    let mut whole = compiled.recognizer(RuntimeLimits::default(), 1).unwrap();
    assert_eq!(whole.try_advance_bytes(bytes).unwrap(), Advance::Accepting);
    for split in 0..=bytes.len() {
        let mut chunked = compiled.recognizer(RuntimeLimits::default(), 1).unwrap();
        chunked.try_advance_bytes(&bytes[..split]).unwrap();
        let checkpoint = chunked.checkpoint();
        chunked.try_advance_bytes(&bytes[split..]).unwrap();
        assert!(chunked.is_accepting());
        chunked.restore(&checkpoint).unwrap();
        chunked.try_advance_bytes(&bytes[split..]).unwrap();
        assert!(chunked.is_accepting());
    }
}

#[test]
fn rejected_and_limited_advances_are_transactional() {
    let compiled = compile(
        r#"{"const":"ok"}"#,
        &vocabulary(&[(r#""ok""#, 0)], 1),
        &CompileOptions::default(),
    )
    .unwrap();
    let mut recognizer = compiled.recognizer(RuntimeLimits::default(), 1).unwrap();
    let before = recognizer.checkpoint();
    assert_eq!(
        recognizer.try_advance_bytes(b"bad").unwrap(),
        Advance::Rejected
    );
    assert_eq!(recognizer.checkpoint(), before);

    let limits = RuntimeLimits {
        max_input_bytes: 1,
        ..RuntimeLimits::default()
    };
    let mut limited = compiled.recognizer(limits, 1).unwrap();
    let before = limited.checkpoint();
    assert!(matches!(
        limited.try_advance_bytes(b"\"o"),
        Err(RuntimeError::ResourceLimitExceeded { .. })
    ));
    assert_eq!(limited.checkpoint(), before);
}

#[test]
fn parser_construction_budget_falls_back_without_weakening() {
    let schema = RECURSIVE_ARRAY;
    let options = CompileOptions {
        limits: CompileLimits {
            max_lr_states: 1,
            ..CompileLimits::default()
        },
    };
    let vocabulary = vocabulary(&[("unused", 0)], 1);
    let compiled = compile(schema, &vocabulary, &options).unwrap();
    assert_eq!(compiled.report.selected_backend, BackendKind::Earley);
    assert!(accepts(&compiled, b"[[null]]"));
    assert!(matches!(
        compile_with_policy(
            schema,
            &vocabulary,
            &options,
            BackendPolicy::ForceLalr,
        ),
        Err(Error::Compile(CompileError::ResourceLimitExceeded {
            stage: CompileStage::LrConstruction,
            ..
        }))
    ));
}

#[test]
fn ambiguous_structural_grammar_reports_provenance_and_uses_earley() {
    let schema = AMBIGUOUS_ANYOF;
    let compiled = compile(
        schema,
        &vocabulary(&[("unused", 0)], 1),
        &CompileOptions::default(),
    )
    .unwrap();
    assert_eq!(compiled.report.selected_backend, BackendKind::Earley);
    assert!(compiled.report.conflicts >= 1);
    assert!(compiled
        .report
        .conflict_summaries
        .iter()
        .all(|conflict| !conflict.provenance.is_empty()));
    assert!(accepts(&compiled, b"[[null]]"));
}

#[test]
fn lexical_ambiguity_prevents_lalr_selection() {
    let schema = r##"{
      "$defs":{"node":{"anyOf":[
        {"const":null},
        {"type":"array","prefixItems":[
          {"$ref":"#/$defs/node"},{"type":"integer"}
        ],"items":false}
      ]}},
      "$ref":"#/$defs/node"
    }"##;
    let compiled = compile(
        schema,
        &vocabulary(&[("unused", 0)], 1),
        &CompileOptions::default(),
    )
    .unwrap();

    assert_eq!(compiled.report.selected_backend, BackendKind::Earley);
    assert_eq!(compiled.report.conflicts, 0);
    assert!(accepts(&compiled, b"[null,12]"));
    assert!(!accepts(&compiled, b"[null,]"));
}

#[test]
fn earley_runtime_limit_is_typed_during_initial_saturation() {
    let schema = RECURSIVE_ARRAY;
    let compiled = compile_with_policy(
        schema,
        &vocabulary(&[("unused", 0)], 1),
        &CompileOptions::default(),
        BackendPolicy::ForceEarley,
    )
    .unwrap();
    let limits = RuntimeLimits {
        max_items_per_column: 1,
        ..RuntimeLimits::default()
    };
    assert!(matches!(
        compiled.recognizer(limits, 1),
        Err(RuntimeError::ResourceLimitExceeded {
            resource: RuntimeResource::ItemsPerColumn,
            ..
        })
    ));
}

#[test]
fn checkpoints_are_bound_to_one_recognizer() {
    let compiled = compile(
        r#"{"const":"x"}"#,
        &vocabulary(&[(r#""x""#, 0)], 1),
        &CompileOptions::default(),
    )
    .unwrap();
    let first = compiled.recognizer(RuntimeLimits::default(), 1).unwrap();
    let checkpoint = first.checkpoint();
    let mut second = compiled.recognizer(RuntimeLimits::default(), 2).unwrap();
    assert!(matches!(
        second.restore(&checkpoint),
        Err(RuntimeError::InvalidCheckpoint { .. })
    ));

    for (schema, policy) in [
        (
            RECURSIVE_ARRAY,
            BackendPolicy::ForceLalr,
        ),
        (
            AMBIGUOUS_ANYOF,
            BackendPolicy::ForceEarley,
        ),
    ] {
        let compiled = compile_with_policy(
            schema,
            &vocabulary(&[("unused", 0)], 1),
            &CompileOptions::default(),
            policy,
        )
        .unwrap();
        let first = compiled.recognizer(RuntimeLimits::default(), 1).unwrap();
        let checkpoint = first.checkpoint();
        let mut second = compiled.recognizer(RuntimeLimits::default(), 2).unwrap();
        assert!(matches!(
            second.restore(&checkpoint),
            Err(RuntimeError::InvalidCheckpoint { .. })
        ));
    }
}

#[test]
fn earley_checkpoint_replay_restores_stats_and_state() {
    let compiled = compile_with_policy(
        AMBIGUOUS_ANYOF,
        &vocabulary(&[("unused", 0)], 1),
        &CompileOptions::default(),
        BackendPolicy::ForceEarley,
    )
    .unwrap();
    let mut recognizer = compiled.recognizer(RuntimeLimits::default(), 1).unwrap();
    assert_eq!(recognizer.try_advance_bytes(b"[[").unwrap(), Advance::Live);
    let checkpoint = recognizer.checkpoint();
    assert_eq!(
        recognizer.try_advance_bytes(b"null]]").unwrap(),
        Advance::Accepting
    );
    let finished = recognizer.checkpoint();
    recognizer.restore(&checkpoint).unwrap();
    assert_eq!(
        recognizer.try_advance_bytes(b"null]]").unwrap(),
        Advance::Accepting
    );
    assert_eq!(recognizer.checkpoint(), finished);
}

#[test]
fn dfa_lalr_and_earley_agree_on_every_prefix() {
    let schema = r#"{"const":"x"}"#;
    let vocabulary = vocabulary(&[(r#""x""#, 0)], 1);
    let compiled = [
        BackendPolicy::ForceDfa,
        BackendPolicy::ForceLalr,
        BackendPolicy::ForceEarley,
    ]
    .map(|policy| {
        compile_with_policy(
            schema,
            &vocabulary,
            &CompileOptions::default(),
            policy,
        )
        .unwrap()
    });
    for input in [
        br#""x""#.as_slice(),
        br#""y""#.as_slice(),
        b"\"x".as_slice(),
    ] {
        let mut traces = Vec::new();
        for compiled in &compiled {
            let mut recognizer = compiled.recognizer(RuntimeLimits::default(), 1).unwrap();
            let mut trace = vec![(recognizer.is_live(), recognizer.is_accepting())];
            for byte in input {
                let advance = recognizer.try_advance_bytes(&[*byte]).unwrap();
                trace.push((recognizer.is_live(), recognizer.is_accepting()));
                if advance == Advance::Rejected {
                    break;
                }
            }
            traces.push(trace);
        }
        assert_eq!(traces[0], traces[1]);
        assert_eq!(traces[0], traces[2]);
    }
}

#[test]
fn structural_whole_buffer_and_chunk_boundaries_agree() {
    let schema = RECURSIVE_OPTIONAL_PROPERTY;
    let compiled = compile_with_policy(
        schema,
        &vocabulary(&[("unused", 0)], 1),
        &CompileOptions::default(),
        BackendPolicy::ForceEarley,
    )
    .unwrap();
    let input = r#"{"next":{"value":"x"},"value":"é"}"#.as_bytes();
    let mut whole = compiled.recognizer(RuntimeLimits::default(), 1).unwrap();
    assert_eq!(whole.try_advance_bytes(input).unwrap(), Advance::Accepting);
    for split in 0..=input.len() {
        let mut chunked = compiled.recognizer(RuntimeLimits::default(), 1).unwrap();
        let first = chunked.try_advance_bytes(&input[..split]).unwrap();
        assert_ne!(first, Advance::Rejected);
        let second = chunked.try_advance_bytes(&input[split..]).unwrap();
        assert_eq!(second, Advance::Accepting, "split {split}");
        assert_eq!(chunked.is_live(), whole.is_live());
        assert_eq!(chunked.is_accepting(), whole.is_accepting());
    }
}

#[test]
fn structural_guide_mask_matches_brute_force_with_sparse_aliases() {
    let schema = AMBIGUOUS_ANYOF;
    let mut vocabulary = vocabulary(
        &[("[", 0), ("[[", 1), ("null", 4), ("[[null]]", 5), ("x", 6)],
        100,
    );
    vocabulary.try_insert(b"null", 19).unwrap();
    let compiled = compile_with_policy(
        schema,
        &vocabulary,
        &CompileOptions::default(),
        BackendPolicy::ForceEarley,
    )
    .unwrap();
    let mut guide = compiled.guide(8, RuntimeLimits::default(), 1).unwrap();
    let parser_before = guide.parser_stats();
    let mut mask = vec![u32::MAX; guide.mask_words()];
    guide.fill_mask(&mut mask).unwrap();
    assert_eq!(guide.vocab_size(), 101);
    assert_eq!(guide.mask_words(), 4);
    assert_eq!(guide.parser_stats(), parser_before);
    for _ in 0..100 {
        let mut repeated = vec![u32::MAX; guide.mask_words()];
        guide.fill_mask(&mut repeated).unwrap();
        assert_eq!(repeated, mask);
    }
    assert_eq!(guide.parser_stats(), parser_before);
    assert_eq!(guide.mask_stats().cache_misses, 1);
    assert_eq!(guide.mask_stats().cache_hits, 100);
    assert_eq!(guide.mask_stats().cache_bytes, 16);

    for token_id in [0, 1, 4, 5, 6, 19, 100] {
        let expected = if token_id == 100 {
            false
        } else {
            let bytes = compiled
                .vocabulary
                .as_ref()
                .unwrap()
                .shared_bytes(token_id)
                .unwrap_or_else(|| Arc::from([]));
            let mut recognizer = compiled.recognizer(RuntimeLimits::default(), 1).unwrap();
            recognizer.try_advance_bytes(&bytes).unwrap() != Advance::Rejected
                && recognizer.is_live()
        };
        let actual = mask[token_id as usize / 32] & (1 << (token_id % 32)) != 0;
        assert_eq!(actual, expected, "token {token_id}");
    }
    assert_eq!(mask[0] & (1 << 4) != 0, mask[0] & (1 << 19) != 0);
}

#[test]
fn structural_guide_commit_eos_rollback_and_reset_are_exact() {
    let schema = AMBIGUOUS_ANYOF;
    let compiled = compile_with_policy(
        schema,
        &vocabulary(&[("[[null]]", 5), ("x", 6)], 100),
        &CompileOptions::default(),
        BackendPolicy::ForceEarley,
    )
    .unwrap();
    let mut guide = compiled.guide(8, RuntimeLimits::default(), 1).unwrap();
    let initial_fingerprint = guide.state_fingerprint();
    assert!(matches!(
        guide.advance(6),
        Err(RuntimeError::TokenNotAllowed { token_id: 6 })
    ));
    assert_eq!(guide.get_allowed_rollback(), 0);
    assert_eq!(guide.state_fingerprint(), initial_fingerprint);

    guide.advance(5).unwrap();
    assert_eq!(guide.mask_stats().cache_bytes, 0);
    assert!(guide.is_accepting());
    assert!(!guide.is_finished());
    assert_eq!(guide.get_tokens().unwrap(), vec![100]);
    guide.advance(100).unwrap();
    assert!(guide.is_finished());
    assert!(!guide.is_accepting());
    assert!(guide.get_tokens().unwrap().is_empty());

    guide.rollback(1).unwrap();
    assert!(!guide.is_finished());
    assert!(guide.is_accepting());
    guide.rollback(1).unwrap();
    assert_eq!(guide.state_fingerprint(), initial_fingerprint);
    assert_eq!(guide.position(), 0);

    guide.advance(5).unwrap();
    guide.reset().unwrap();
    assert_eq!(guide.get_allowed_rollback(), 0);
    assert_eq!(guide.position(), 0);
    assert_eq!(guide.state_fingerprint(), initial_fingerprint);
}

#[test]
fn zero_rollback_limit_never_retains_history() {
    let compiled = compile(
        r#"{"const":"x"}"#,
        &vocabulary(&[(r#""x""#, 0)], 1),
        &CompileOptions::default(),
    )
    .unwrap();
    let mut guide = compiled.guide(0, RuntimeLimits::default(), 1).unwrap();
    guide.advance(0).unwrap();
    assert_eq!(guide.get_allowed_rollback(), 0);
    assert!(matches!(
        guide.rollback(1),
        Err(RuntimeError::RollbackUnavailable {
            requested: 1,
            available: 0
        })
    ));
}

#[test]
fn mask_limit_error_restores_structural_parser_state() {
    let compiled = compile_with_policy(
        AMBIGUOUS_ANYOF,
        &vocabulary(&[("null", 0)], 1),
        &CompileOptions::default(),
        BackendPolicy::ForceEarley,
    )
    .unwrap();
    let limits = RuntimeLimits {
        max_mask_trie_edges: 0,
        ..RuntimeLimits::default()
    };
    let mut guide = compiled.guide(8, limits, 1).unwrap();
    let before = guide.parser_stats();
    let fingerprint = guide.state_fingerprint();
    let mut mask = vec![0; guide.mask_words()];
    assert!(matches!(
        guide.fill_mask(&mut mask),
        Err(RuntimeError::ResourceLimitExceeded {
            resource: RuntimeResource::MaskTraversal,
            ..
        })
    ));
    assert_eq!(guide.parser_stats(), before);
    assert_eq!(guide.state_fingerprint(), fingerprint);
}

#[test]
fn reports_are_byte_identical() {
    let first = analyze(RECURSIVE_REQUIRED_PROPERTY, &CompileOptions::default()).unwrap();
    let second = analyze(RECURSIVE_REQUIRED_PROPERTY, &CompileOptions::default()).unwrap();
    assert_eq!(first, second);
    assert_eq!(format!("{first:?}"), format!("{second:?}"));
}

#[test]
fn text_report_is_deterministic() {
    let report = analyze(DEEP_ACYCLIC_REF, &CompileOptions::default()).unwrap();
    assert_eq!(render_text_report(&report), render_text_report(&report));
    assert!(render_text_report(&report).contains("backend: whole-dfa\n"));
}

#[test]
fn a_text_report_names_components_and_remarks() {
    let report = analyze(RECURSIVE_OPTIONAL_PROPERTY, &CompileOptions::default()).unwrap();
    let text = render_text_report(&report);
    assert!(text.starts_with(
        "dialect: https://json-schema.org/draft/2020-12/schema\nprofile: K1\n\
         canonical-policy: oc-earley-json-compact-v1\nbackend: "
    ));
    assert!(text.contains("\nreference-edges: 2\n"));
    assert!(text.contains("\nnfa-states: not-applicable\n"));
    assert!(text.contains("\nscc 0: members="));
    assert!(text.contains(" certificate=none failure="));
    assert!(text.contains("\ndiagnostic "));
    assert!(text.ends_with('\n'));
}

#[test]
fn unbounded_arrays_have_commas_and_enough_items() {
    let vocabulary = vocabulary(&[("[1", 0), (",1", 1), ("]", 2)], 3);
    for policy in [BackendPolicy::ForceDfa, BackendPolicy::ForceEarley] {
        let compiled = compile_with_policy(
            r#"{"type":"array","items":{"const":1},"minItems":2}"#,
            &vocabulary,
            &CompileOptions::default(),
            policy,
        )
        .unwrap();
        for valid in ["[1,1]", "[1,1,1]", "[1,1,1,1]"] {
            assert!(accepts(&compiled, valid.as_bytes()), "{valid}");
        }
        for invalid in ["[]", "[1]", "[11]", "[1,]", "[1,1,]", "[1,11]"] {
            assert!(!accepts(&compiled, invalid.as_bytes()), "{invalid}");
        }
    }
}

#[test]
fn unbounded_arrays_may_be_empty() {
    let compiled = compile(
        r#"{"type":"array","items":{"const":1}}"#,
        &vocabulary(&[("[1", 0), (",1", 1), ("]", 2), ("[", 3)], 4),
        &CompileOptions::default(),
    )
    .unwrap();
    for valid in ["[]", "[1]", "[1,1]", "[1,1,1]"] {
        assert!(accepts(&compiled, valid.as_bytes()), "{valid}");
    }
    for invalid in ["[,1]", "[11]", "[1,]"] {
        assert!(!accepts(&compiled, invalid.as_bytes()), "{invalid}");
    }
}

#[test]
fn objects_keep_the_order_of_names() {
    let compiled = compile(
        r#"{"type":"object","properties":{"b":{"const":1},"a":{"type":"boolean"}},
            "required":["b"],"additionalProperties":false}"#,
        &vocabulary(&[("{", 0), ("\"a\":true,", 1), ("\"b\":1}", 2)], 3),
        &CompileOptions::default(),
    )
    .unwrap();
    for valid in [r#"{"a":true,"b":1}"#, r#"{"a":false,"b":1}"#, r#"{"b":1}"#] {
        assert!(accepts(&compiled, valid.as_bytes()), "{valid}");
    }
    for invalid in [r#"{"b":1,"a":true}"#, r#"{"a":true}"#, "{}", r#"{"b":1,}"#] {
        assert!(!accepts(&compiled, invalid.as_bytes()), "{invalid}");
    }
}

#[test]
fn whole_dfa_guides_mask_roll_back_and_reset() {
    let compiled = compile(
        r#"{"enum":["ab","ac"]}"#,
        &vocabulary(&[("\"a", 0), ("b\"", 1), ("c\"", 33), ("x", 40)], 64),
        &CompileOptions::default(),
    )
    .unwrap();
    let mut guide = compiled.guide(2, RuntimeLimits::default(), 1).unwrap();
    assert_eq!(guide.backend(), BackendKind::WholeDfa);
    assert_eq!(guide.get_tokens().unwrap(), vec![0]);
    guide.advance(0).unwrap();
    let mut mask = vec![u32::MAX; guide.mask_words()];
    guide.fill_mask(&mut mask).unwrap();
    assert_eq!(mask, vec![1 << 1, 1 << 1, 0]);
    assert!(guide.accepts_tokens(&[33]));
    assert!(!guide.accepts_tokens(&[33, 64]));
    assert!(!guide.accepts_tokens(&[33, 1]));
    assert!(matches!(guide.advance(40), Err(RuntimeError::TokenNotAllowed { token_id: 40 })));
    assert!(matches!(guide.advance(65), Err(RuntimeError::TokenNotAllowed { token_id: 65 })));
    assert!(matches!(guide.advance(64), Err(RuntimeError::EosNotAccepting)));
    guide.advance(1).unwrap();
    assert_eq!(guide.committed_token_ids(), [0, 1]);
    guide.advance(64).unwrap();
    assert!(guide.is_finished());
    assert!(matches!(guide.advance(64), Err(RuntimeError::GuideFinished)));
    guide.rollback(2).unwrap();
    assert_eq!(guide.committed_token_ids(), [0]);
    assert!(matches!(
        guide.rollback(1),
        Err(RuntimeError::RollbackUnavailable { requested: 1, available: 0 })
    ));
    guide.reset().unwrap();
    assert_eq!(guide.position(), 0);
    assert_eq!(guide.get_tokens().unwrap(), vec![0]);
}

#[test]
fn parser_guides_know_their_tokens() {
    let compiled = compile_with_policy(
        RECURSIVE_ARRAY,
        &vocabulary(&[("[", 0), ("null]", 1), ("]", 2)], 3),
        &CompileOptions::default(),
        BackendPolicy::ForceLalr,
    )
    .unwrap();
    let mut guide = compiled.guide(4, RuntimeLimits::default(), 1).unwrap();
    assert_eq!(guide.backend(), BackendKind::Lalr);
    assert!(matches!(guide.advance(9), Err(RuntimeError::UnknownTokenId { token_id: 9 })));
    assert!(matches!(guide.dfa_state(), Err(RuntimeError::StateIdUnavailable)));
    guide.advance(0).unwrap();
    guide.advance(0).unwrap();
    guide.advance(1).unwrap();
    assert_eq!(guide.committed_bytes(), b"[[null]");
    assert_eq!(guide.get_tokens().unwrap(), vec![2]);
    assert!(guide.accepts_tokens(&[2]));
    guide.advance(2).unwrap();
    assert!(guide.is_accepting());
    guide.advance(3).unwrap();
    assert!(guide.is_finished());
}

#[test]
fn rollback_is_limited() {
    let compiled = compile(
        r#"{"const":"x"}"#,
        &vocabulary(&[(r#""x""#, 0)], 1),
        &CompileOptions::default(),
    )
    .unwrap();
    let limits = RuntimeLimits { max_checkpoint_history: 2, ..RuntimeLimits::default() };
    assert!(matches!(
        compiled.guide(3, limits, 1),
        Err(RuntimeError::ResourceLimitExceeded {
            resource: RuntimeResource::CheckpointHistory,
            observed: 3,
            limit: 2,
        })
    ));
    assert!(compiled.guide(2, limits, 1).is_ok());
}

#[test]
fn constants_are_taken_literally() {
    let vocabulary = vocabulary(&[(r#""a.b*""#, 0), (r#""axb""#, 1), (r#""a.bb""#, 2)], 3);
    for policy in [BackendPolicy::ForceDfa, BackendPolicy::ForceLalr, BackendPolicy::ForceEarley] {
        let compiled = compile_with_policy(
            r#"{"const":"a.b*"}"#,
            &vocabulary,
            &CompileOptions::default(),
            policy,
        )
        .unwrap();
        assert!(accepts(&compiled, br#""a.b*""#));
        assert!(!accepts(&compiled, br#""axb""#));
        assert!(!accepts(&compiled, br#""a.bb""#));
    }
}

#[test]
fn reports_count_the_automaton() {
    let report = analyze(r#"{"enum":["ab","ac"]}"#, &CompileOptions::default()).unwrap();
    assert!(report.nfa_states.unwrap() > 4);
    assert!(report.nfa_transitions.unwrap() >= 4);
    assert!(report.dfa_states.unwrap() >= 5);
    assert!(report.dfa_bytes.unwrap() > 0);
    let mut options = CompileOptions::default();
    options.limits.max_nfa_states = 1;
    assert!(matches!(
        analyze(r#"{"enum":["ab","ac"]}"#, &options),
        Err(CompileError::ResourceLimitExceeded {
            stage: CompileStage::NfaConstruction,
            limit: 1,
            ..
        })
    ));
}

#[test]
fn scalars_have_their_patterns() {
    let vocabulary = vocabulary(&[("unused", 0)], 1);
    let cases: [(&str, &[&str], &[&str]); 5] = [
        (r#"{"type":"null"}"#, &["null"], &["nul", "nulll", "0"]),
        (r#"{"type":"boolean"}"#, &["true", "false"], &["True", "1"]),
        (r#"{"type":"integer"}"#, &["0", "-1", "120"], &["01", "1.5", "-", "+1"]),
        (r#"{"type":"number"}"#, &["0", "-1.5", "2e+10"], &["01", ".5", "1.", "2e10"]),
        (r#"{"type":"string"}"#, &[r#""""#, r#""a\\""#, r#""é""#], &["a", r#""""""#, r#""a\n""#]),
    ];
    for (schema, valid, invalid) in cases {
        let compiled = compile_with_policy(
            schema,
            &vocabulary,
            &CompileOptions::default(),
            BackendPolicy::ForceEarley,
        )
        .unwrap();
        for text in valid {
            assert!(accepts(&compiled, text.as_bytes()), "{schema} {text}");
        }
        for text in invalid {
            assert!(!accepts(&compiled, text.as_bytes()), "{schema} {text}");
        }
    }
}

#[test]
fn masks_offer_what_advances() {
    for policy in [BackendPolicy::ForceLalr, BackendPolicy::ForceEarley] {
        let vocabulary = vocabulary(
            &[("[", 0), ("[[", 1), ("null", 2), ("nul", 3), ("]]", 4), ("[]", 5), ("nulx", 6), ("]", 7)],
            8,
        );
        let options = CompileOptions::default();
        let compiled = compile_with_policy(RECURSIVE_ARRAY, &vocabulary, &options, policy).unwrap();
        let mut guide = compiled.guide(8, RuntimeLimits::default(), 1).unwrap();
        guide.advance(0).unwrap();
        let mut mask = vec![0; guide.mask_words()];
        guide.fill_mask(&mut mask).unwrap();
        assert_eq!(mask, vec![0b1010_1111]);
        for token in 0..9 {
            let mut trial = compiled.guide(8, RuntimeLimits::default(), 1).unwrap();
            trial.advance(0).unwrap();
            assert_eq!(trial.advance(token).is_ok(), mask[0] & (1 << token) != 0, "{token}");
        }
    }
}

#[test]
fn masks_stop_just_behind_the_edge_budget() {
    let compiled = compile_with_policy(
        AMBIGUOUS_ANYOF,
        &vocabulary(&[("null", 0)], 1),
        &CompileOptions::default(),
        BackendPolicy::ForceEarley,
    )
    .unwrap();
    let mut mask = vec![0; 1];
    let exact = RuntimeLimits { max_mask_trie_edges: 4, ..RuntimeLimits::default() };
    compiled.guide(8, exact, 1).unwrap().fill_mask(&mut mask).unwrap();
    assert_eq!(mask, vec![1]);
    let tight = RuntimeLimits { max_mask_trie_edges: 3, ..RuntimeLimits::default() };
    match compiled.guide(8, tight, 1).unwrap().fill_mask(&mut mask) {
        Err(RuntimeError::ResourceLimitExceeded { resource, observed, limit }) => {
            assert_eq!(resource, RuntimeResource::MaskTraversal);
            assert_eq!((observed, limit), (4, 3));
        }
        other => panic!("{other:?}"),
    }
}

#[test]
fn going_back_restores_what_is_offered() {
    let compiled = compile(
        RECURSIVE_ARRAY,
        &vocabulary(&[("[", 0), ("null", 1), ("]", 2)], 3),
        &CompileOptions::default(),
    )
    .unwrap();
    let mut guide = compiled.guide(8, RuntimeLimits::default(), 1).unwrap();
    guide.advance(0).unwrap();
    let mut before = vec![0; guide.mask_words()];
    guide.fill_mask(&mut before).unwrap();
    guide.advance(0).unwrap();
    guide.advance(1).unwrap();
    guide.rollback(2).unwrap();
    let mut after = vec![0; guide.mask_words()];
    guide.fill_mask(&mut after).unwrap();
    assert_eq!(after, before);
}

#[test]
fn checkpoints_outlive_runs_that_go_back() {
    for policy in [BackendPolicy::ForceLalr, BackendPolicy::ForceEarley] {
        let vocabulary = vocabulary(&[("[", 0)], 1);
        let options = CompileOptions::default();
        let compiled = compile_with_policy(RECURSIVE_ARRAY, &vocabulary, &options, policy).unwrap();
        let mut recognizer = compiled.recognizer(RuntimeLimits::default(), 1).unwrap();
        recognizer.try_advance_bytes(b"[").unwrap();
        let first = recognizer.checkpoint();
        let stats = recognizer.stats();
        recognizer.try_advance_bytes(b"[").unwrap();
        let second = recognizer.checkpoint();
        recognizer.try_advance_bytes(b"null").unwrap();
        recognizer.restore(&second).unwrap();
        recognizer.try_advance_bytes(b"[null").unwrap();
        recognizer.restore(&first).unwrap();
        assert_eq!(recognizer.stats(), stats);
        recognizer.try_advance_bytes(b"null]").unwrap();
        assert!(recognizer.is_accepting());
    }
}

#[test]
fn a_grammar_that_was_reduced_is_prepared() {
    let options = CompileOptions::default();
    let arena = normalize_schema(&parse(RECURSIVE_ARRAY), &options).unwrap();
    let mut grammar = lower(&arena, &options.limits).unwrap();
    reduce(&mut grammar).unwrap();
    let prepared = prepare_from(arena, grammar, &options.limits, BackendPolicy::Auto).unwrap();
    let whole = prepare(&parse(RECURSIVE_ARRAY), &options, BackendPolicy::Auto).unwrap();
    assert_eq!(prepared.report, whole.report);
    assert!(matches!(prepared.backend, PreparedBackend::Lalr(_)));
}
