use oc_earley::certificate::{certify_regular, CertificateFailureReason, RegularCertificateKind};
use oc_earley::error::{CompileError, CompileStage};
use oc_earley::grammar::{
    Grammar, Nonterminal, Production, RegularTerminal, RegularTerminalKind,
};
use oc_earley::json::{JsonMember, JsonNumber, JsonValue};
use oc_earley::lowering::lower;
use oc_earley::normalize::normalize_schema;
use oc_earley::reduction::reduce;
use oc_earley::residual::CompiledTerminal;
use oc_earley::residual_build::build_residual;
use oc_earley::scc::{analyze_sccs, dependency_graph};
use oc_earley::schema::{CompileOptions, Provenance, ResourceId, SchemaPointer};
use oc_earley::symbol::Symbol;

const DEEP_ACYCLIC_REF: &str = r##"{
  "$defs":{
    "a":{"$ref":"#/$defs/b"},
    "b":{"$ref":"#/$defs/c"},
    "c":{"$ref":"#/$defs/d"},
    "d":{"$ref":"#/$defs/e"},
    "e":{"const":"done"}
  },
  "$ref":"#/$defs/a"
}"##;

const RECURSIVE_OPTIONAL_PROPERTY: &str = r##"{
  "$defs":{"node":{
    "type":"object",
    "properties":{"value":{"type":"string"},"next":{"$ref":"#/$defs/node"}},
    "required":["value"],
    "additionalProperties":false
  }},
  "$ref":"#/$defs/node"
}"##;

const RECURSIVE_REQUIRED_PROPERTY: &str = r##"{
  "$defs":{
    "left":{"anyOf":[{"type":"null"},{
      "type":"object","properties":{"right":{"$ref":"#/$defs/right"}},
      "required":["right"],"additionalProperties":false
    }]},
    "right":{
      "type":"object","properties":{"left":{"$ref":"#/$defs/left"}},
      "required":["left"],"additionalProperties":false
    }
  },
  "$ref":"#/$defs/left"
}"##;

const PREFIX_ITEMS: &str = r#"{
  "type":"array","prefixItems":[{"const":1}],"items":{"const":2},"minItems":1,"maxItems":3
}"#;

fn json_value(value: &serde_json::Value) -> JsonValue {
    match value {
        serde_json::Value::Null => JsonValue::Null,
        serde_json::Value::Bool(value) => JsonValue::Bool(*value),
        serde_json::Value::Number(number) => JsonValue::Number(JsonNumber {
            text: number.to_string(),
            unsigned: number.as_u64(),
            signed: number.as_i64(),
        }),
        serde_json::Value::String(text) => JsonValue::String(text.clone()),
        serde_json::Value::Array(items) => JsonValue::Array(items.iter().map(json_value).collect()),
        serde_json::Value::Object(members) => JsonValue::object(
            members
                .iter()
                .map(|(key, value)| JsonMember { key: key.clone(), value: json_value(value) })
                .collect(),
        )
        .unwrap(),
    }
}

fn parse(text: &str) -> JsonValue {
    json_value(&serde_json::from_str(text).unwrap())
}

fn grammar(schema: &str) -> Grammar {
    let options = CompileOptions::default();
    let arena = normalize_schema(&parse(schema), &options).unwrap();
    lower(&arena, &options.limits).unwrap()
}

#[test]
fn deep_reference_chain_lowers_to_unit_productions() {
    let schema = DEEP_ACYCLIC_REF;
    let grammar = grammar(schema);
    assert_eq!(grammar.productions.len(), 6);
    assert!(grammar.productions.iter().all(|production| production
        .provenance
        .pointer
        .0
        .starts_with("/$defs")
        || production.provenance.pointer.0.is_empty()));
}

#[test]
fn recursive_property_remains_inside_delimiters() {
    let schema = RECURSIVE_OPTIONAL_PROPERTY;
    let grammar = grammar(schema);
    let node = grammar
        .nonterminals
        .iter()
        .find(|nonterminal| nonterminal.provenance.pointer.0 == "/$defs/node")
        .unwrap();
    assert!(grammar.productions_for(node.id).iter().any(|position| {
        let production = &grammar.productions[*position];
        production.rhs.len() == 3
            && matches!(production.rhs[0], Symbol::Terminal(_))
            && matches!(production.rhs[2], Symbol::Terminal(_))
    }));
    assert!(grammar
        .nonterminals
        .iter()
        .any(|nonterminal| nonterminal.name.contains("members")));
}

#[test]
fn prefix_items_uses_linear_position_states() {
    let schema = PREFIX_ITEMS;
    let grammar = grammar(schema);
    let positions = grammar
        .nonterminals
        .iter()
        .filter(|nonterminal| nonterminal.name.contains("array_0_position"))
        .count();
    assert_eq!(positions, 4);
}

#[test]
fn closed_optional_object_does_not_enumerate_subsets() {
    let grammar = grammar(
        r#"{"type":"object","properties":{"a":{"const":1},"b":{"const":2},"c":{"const":3}},"additionalProperties":false}"#,
    );
    let member_nonterminals = grammar
        .nonterminals
        .iter()
        .filter(|nonterminal| nonterminal.name.contains("members"))
        .count();
    assert_eq!(member_nonterminals, 8);
}

#[test]
fn every_production_has_provenance() {
    let grammar = grammar(r#"{"type":"array","items":{"const":1},"maxItems":2}"#);
    assert!(grammar.productions.iter().all(|production| !production
        .provenance
        .pointer
        .0
        .contains("//")));
}

#[test]
fn lowering_budget_is_typed() {
    let mut options = CompileOptions::default();
    options.limits.max_symbols = 1;
    let arena = normalize_schema(&parse(r#"{"const":1}"#), &options).unwrap();
    assert!(matches!(
        lower(&arena, &options.limits),
        Err(CompileError::ResourceLimitExceeded {
            stage: CompileStage::Lowering,
            ..
        })
    ));
}

#[test]
fn reduction_removes_unreachable_and_unproductive_symbols() {
    let mut grammar = grammar(r#"{"const":1,"$defs":{"unused":{"const":2}}}"#);
    let before = grammar.nonterminals.len();
    let stats = reduce(&mut grammar).unwrap();
    assert!(grammar.nonterminals.len() < before);
    assert!(stats.removed_nonterminals > 0);
    assert_eq!(grammar.productions.len(), 1);
}

#[test]
fn reduction_preserves_empty_language_start() {
    let mut grammar = grammar("false");
    reduce(&mut grammar).unwrap();
    assert_eq!(grammar.start, 0);
    assert_eq!(grammar.nonterminals.len(), 1);
    assert!(grammar.productions.is_empty());
}

#[test]
fn reduction_preserves_epsilon_language() {
    let provenance = Provenance {
        resource: ResourceId(0),
        pointer: SchemaPointer(String::new()),
        keyword: None,
    };
    let mut grammar = Grammar {
        start: 0,
        nonterminals: vec![Nonterminal {
            id: 0,
            name: "start".to_owned(),
            provenance: provenance.clone(),
        }],
        terminals: Vec::new(),
        productions: vec![Production {
            id: 0,
            lhs: 0,
            rhs: Vec::new(),
            provenance,
        }],
    };
    reduce(&mut grammar).unwrap();
    assert_eq!(grammar.productions.len(), 1);
    assert!(grammar.productions[0].rhs.is_empty());
}

#[test]
fn tarjan_is_deterministic_for_mutual_recursion() {
    let schema = RECURSIVE_REQUIRED_PROPERTY;
    let mut grammar = grammar(schema);
    reduce(&mut grammar).unwrap();
    let first = analyze_sccs(&grammar).unwrap();
    let second = analyze_sccs(&grammar).unwrap();
    assert_eq!(first, second);
    assert!(first.components.iter().any(|component| component.recursive));
    assert!(first
        .components
        .iter()
        .all(|component| component.members.windows(2).all(|pair| pair[0] < pair[1])));
}

#[test]
fn acyclic_chain_has_no_recursive_component() {
    let schema = DEEP_ACYCLIC_REF;
    let mut grammar = grammar(schema);
    reduce(&mut grammar).unwrap();
    let analysis = analyze_sccs(&grammar).unwrap();
    assert!(analysis
        .components
        .iter()
        .all(|component| !component.recursive));
}

#[test]
fn deep_chain_has_acyclic_certificate() {
    let schema = DEEP_ACYCLIC_REF;
    let mut grammar = grammar(schema);
    reduce(&mut grammar).unwrap();
    let analysis = certify_regular(&grammar).unwrap();
    assert!(analysis
        .certificates
        .iter()
        .all(|certificate| certificate.kind == Some(RegularCertificateKind::Acyclic)));
    assert_eq!(
        analysis.whole_language.unwrap().pattern().unwrap(),
        r#""done""#
    );
}

#[test]
fn bounded_prefix_items_certificate_is_exact() {
    let schema = PREFIX_ITEMS;
    let mut grammar = grammar(schema);
    reduce(&mut grammar).unwrap();
    let expression = certify_regular(&grammar).unwrap().whole_language.unwrap();
    let regex =
        regex::Regex::new(&format!(r"\A(?:{})\z", expression.pattern().unwrap())).unwrap();
    for valid in ["[1]", "[1,2]", "[1,2,2]"] {
        assert!(regex.is_match(valid), "must accept {valid}");
    }
    for invalid in ["[]", "[2]", "[1,3]", "[1,2,2,2]"] {
        assert!(!regex.is_match(invalid), "must reject {invalid}");
    }
}

#[test]
fn recursive_json_object_is_not_mislabeled_regular() {
    let schema = RECURSIVE_OPTIONAL_PROPERTY;
    let mut grammar = grammar(schema);
    reduce(&mut grammar).unwrap();
    let analysis = certify_regular(&grammar).unwrap();
    assert!(analysis.whole_language.is_none());
    assert!(analysis.certificates.iter().any(|certificate| {
        matches!(
            certificate.failure_reason,
            Some(
                CertificateFailureReason::MultipleRecursiveOccurrences
                    | CertificateFailureReason::RecursiveSymbolInInterior
            )
        )
    }));
}

fn manual_linear_grammar(left: bool) -> Grammar {
    let provenance = Provenance {
        resource: ResourceId(0),
        pointer: SchemaPointer(String::new()),
        keyword: None,
    };
    let terminal = RegularTerminal {
        id: 0,
        kind: RegularTerminalKind::Literal(b"a".to_vec()),
        provenance: provenance.clone(),
    };
    let recursive_rhs = if left {
        vec![Symbol::Nonterminal(0), Symbol::Terminal(0)]
    } else {
        vec![Symbol::Terminal(0), Symbol::Nonterminal(0)]
    };
    Grammar {
        start: 0,
        nonterminals: vec![Nonterminal {
            id: 0,
            name: "start".to_owned(),
            provenance: provenance.clone(),
        }],
        terminals: vec![terminal],
        productions: vec![
            Production {
                id: 0,
                lhs: 0,
                rhs: recursive_rhs,
                provenance: provenance.clone(),
            },
            Production {
                id: 1,
                lhs: 0,
                rhs: vec![Symbol::Terminal(0)],
                provenance,
            },
        ],
    }
}

#[test]
fn certifies_right_linear_component() {
    let grammar = manual_linear_grammar(false);
    let analysis = certify_regular(&grammar).unwrap();
    assert_eq!(
        analysis.certificates[0].kind,
        Some(RegularCertificateKind::RightLinear)
    );
    let regex = regex::Regex::new(&format!(
        r"\A(?:{})\z",
        analysis.whole_language.unwrap().pattern().unwrap()
    ))
    .unwrap();
    assert!(regex.is_match("aaaa"));
    assert!(!regex.is_match(""));
}

#[test]
fn certifies_left_linear_component() {
    let grammar = manual_linear_grammar(true);
    let analysis = certify_regular(&grammar).unwrap();
    assert_eq!(
        analysis.certificates[0].kind,
        Some(RegularCertificateKind::LeftLinear)
    );
    let regex = regex::Regex::new(&format!(
        r"\A(?:{})\z",
        analysis.whole_language.unwrap().pattern().unwrap()
    ))
    .unwrap();
    assert!(regex.is_match("aaaa"));
    assert!(!regex.is_match(""));
}

#[test]
fn equal_terminals_are_shared() {
    let options = CompileOptions::default();
    let mut grammar = grammar(
        r##"{
          "$defs":{"node":{"anyOf":[
            {"const":null},
            {"type":"array","prefixItems":[{"$ref":"#/$defs/node"}],"items":false},
            {"type":"array","prefixItems":[{"$ref":"#/$defs/node"},{"$ref":"#/$defs/node"}],"items":false,"minItems":2}
          ]}},
          "$ref":"#/$defs/node"
        }"##,
    );
    reduce(&mut grammar).unwrap();
    let analysis = certify_regular(&grammar).unwrap();
    let residual = build_residual(&grammar, &analysis, &options.limits).unwrap();
    let literal = |bytes: &[u8]| {
        residual
            .terminals
            .iter()
            .filter(|terminal| {
                matches!(terminal, CompiledTerminal::Literal(found) if found.as_ref() == bytes)
            })
            .count()
    };
    assert_eq!(literal(b"["), 1);
    assert_eq!(literal(b"]"), 1);
    assert_eq!(literal(b","), 1);
    assert_eq!(residual.terminals.len(), residual.terminal_provenance.len());
}

#[test]
fn unbounded_positions_cover_what_differs() {
    for (schema, count) in [
        (r#"{"type":"array","items":{"const":1}}"#, 2),
        (r#"{"type":"array","items":{"const":1},"minItems":3}"#, 4),
        (r#"{"type":"array","prefixItems":[{"const":1},{"const":2}],"items":{"const":3}}"#, 3),
    ] {
        let positions = grammar(schema)
            .nonterminals
            .iter()
            .filter(|nonterminal| nonterminal.name.contains("array_0_position"))
            .count();
        assert_eq!(positions, count, "{schema}");
    }
}

#[test]
fn literals_of_one_place_share_a_terminal() {
    let grammar = grammar(r#"{"type":"array","items":{"type":"null"},"minItems":3,"maxItems":4}"#);
    let commas: Vec<u32> = grammar
        .terminals
        .iter()
        .filter(|terminal| {
            matches!(&terminal.kind, RegularTerminalKind::Literal(bytes) if bytes == b",")
        })
        .map(|terminal| terminal.id)
        .collect();
    assert_eq!(commas.len(), 1);
    let uses = grammar
        .productions
        .iter()
        .filter(|production| production.rhs.contains(&Symbol::Terminal(commas[0])))
        .count();
    assert!(uses > 1);
}

#[test]
fn lowering_says_how_many_symbols_were_wanted() {
    let mut options = CompileOptions::default();
    options.limits.max_symbols = 1;
    let arena = normalize_schema(&parse(r#"{"const":1}"#), &options).unwrap();
    match lower(&arena, &options.limits) {
        Err(CompileError::ResourceLimitExceeded { stage: CompileStage::Lowering, observed, limit }) => {
            assert_eq!((observed, limit), (2, 1));
        }
        other => panic!("{other:?}"),
    }
}

#[test]
fn what_reduction_keeps_stays_in_order_with_its_provenance() {
    let at = |pointer: &str| Provenance {
        resource: ResourceId(0),
        pointer: SchemaPointer(pointer.to_owned()),
        keyword: None,
    };
    let mut grammar = Grammar {
        start: 0,
        nonterminals: (0..4)
            .map(|id| Nonterminal { id, name: format!("n{id}"), provenance: at("/n") })
            .collect(),
        terminals: vec![
            RegularTerminal { id: 0, kind: RegularTerminalKind::Literal(b"a".to_vec()), provenance: at("/x") },
            RegularTerminal { id: 1, kind: RegularTerminalKind::Literal(b"b".to_vec()), provenance: at("/y") },
        ],
        productions: vec![
            Production { id: 0, lhs: 0, rhs: vec![Symbol::Nonterminal(1)], provenance: at("/0") },
            Production { id: 1, lhs: 0, rhs: vec![Symbol::Nonterminal(3)], provenance: at("/1") },
            Production { id: 2, lhs: 1, rhs: vec![Symbol::Nonterminal(1)], provenance: at("/2") },
            Production { id: 3, lhs: 2, rhs: vec![Symbol::Terminal(0)], provenance: at("/3") },
            Production { id: 4, lhs: 3, rhs: vec![Symbol::Terminal(1)], provenance: at("/4") },
        ],
    };
    let stats = reduce(&mut grammar).unwrap();
    assert_eq!(stats.removed_nonterminals, 2);
    assert_eq!(grammar.nonterminals.len(), 2);
    assert_eq!(grammar.nonterminals[1].name, "n3");
    let kept: Vec<_> = grammar
        .productions
        .iter()
        .map(|production| (production.id, production.lhs, production.provenance.pointer.0.as_str()))
        .collect();
    assert_eq!(kept, vec![(0, 0, "/1"), (1, 1, "/4")]);
    assert_eq!(grammar.productions[0].rhs, vec![Symbol::Nonterminal(1)]);
    assert_eq!(grammar.productions[1].rhs, vec![Symbol::Terminal(0)]);
    assert_eq!(grammar.terminals.len(), 1);
    assert_eq!(grammar.terminals[0].provenance.pointer.0, "/y");
}

#[test]
fn literals_escape_just_what_means_something_in_a_pattern() {
    let terminal = RegularTerminal {
        id: 0,
        kind: RegularTerminalKind::Literal(r"a\.+*?()|[]{}^$#&-~ /é".as_bytes().to_vec()),
        provenance: Provenance {
            resource: ResourceId(0),
            pointer: SchemaPointer(String::new()),
            keyword: None,
        },
    };
    assert_eq!(
        terminal.forward_pattern(),
        r"a\\\.\+\*\?\(\)\|\[\]\{\}\^\$\#\&\-\~ /é"
    );
}

#[test]
fn dependencies_go_by_positions() {
    let at = || Provenance {
        resource: ResourceId(0),
        pointer: SchemaPointer(String::new()),
        keyword: None,
    };
    let grammar = Grammar {
        start: 7,
        nonterminals: (0..2)
            .map(|id| Nonterminal { id: id + 5, name: format!("n{id}"), provenance: at() })
            .collect(),
        terminals: Vec::new(),
        productions: vec![Production {
            id: 9,
            lhs: 0,
            rhs: vec![Symbol::Terminal(4), Symbol::Nonterminal(1), Symbol::Nonterminal(0)],
            provenance: at(),
        }],
    };
    assert_eq!(dependency_graph(&grammar), vec![vec![0, 1], vec![]]);
}
