use oc_earley::error::{CompileError, CompileStage};
use oc_earley::json::{canonical_value, JsonMember, JsonNumber, JsonValue};
use oc_earley::normalize::{check_schema_size, duplicate_key, normalize_schema};
use oc_earley::pointer::{decode_pointer_segment, escape_pointer_segment, pointer_join};
use oc_earley::schema::{
    CanonicalValue, CompileOptions, NormalizedSchema, SchemaArena, SchemaPointer,
};

const DEEP_ACYCLIC_REF: &str = r##"{
  "$defs":{
    "a":{"$ref":"#/$defs/b"},
    "b":{"$ref":"#/$defs/c"},
    "c":{"$ref":"#/$defs/d"},
    "d":{"$ref":"#/$defs/e"},
    "e":{"const":"done"}
  },
  "$ref":"#/$defs/a"
}"##;

const RECURSIVE_OPTIONAL_PROPERTY: &str = r##"{
  "$defs":{"node":{
    "type":"object",
    "properties":{"value":{"type":"string"},"next":{"$ref":"#/$defs/node"}},
    "required":["value"],
    "additionalProperties":false
  }},
  "$ref":"#/$defs/node"
}"##;

const ALLOF_INTERSECTION: &str = r#"{"allOf":[{"type":"string"},{"const":"x"}]}"#;

const ONEOF_OVERLAP: &str = r#"{"oneOf":[{"type":"string"},{"const":"x"}]}"#;

fn json_value(value: &serde_json::Value) -> JsonValue {
    match value {
        serde_json::Value::Null => JsonValue::Null,
        serde_json::Value::Bool(value) => JsonValue::Bool(*value),
        serde_json::Value::Number(number) => JsonValue::Number(JsonNumber {
            text: number.to_string(),
            unsigned: number.as_u64(),
            signed: number.as_i64(),
        }),
        serde_json::Value::String(text) => JsonValue::String(text.clone()),
        serde_json::Value::Array(items) => JsonValue::Array(items.iter().map(json_value).collect()),
        serde_json::Value::Object(members) => JsonValue::object(
            members
                .iter()
                .map(|(key, value)| JsonMember { key: key.clone(), value: json_value(value) })
                .collect(),
        )
        .unwrap(),
    }
}

fn parse(text: &str) -> JsonValue {
    json_value(&serde_json::from_str(text).unwrap())
}

fn normalize(schema: &str) -> Result<SchemaArena, CompileError> {
    normalize_schema(&parse(schema), &CompileOptions::default())
}

#[test]
fn resolves_deep_acyclic_chain_without_depth_limit() {
    let schema = DEEP_ACYCLIC_REF;
    let arena = normalize(schema).unwrap();
    assert_eq!(arena.reference_edges.len(), 5);
    assert!(matches!(arena.nodes[0].kind, NormalizedSchema::Ref(_)));
}

#[test]
fn preserves_recursive_optional_property() {
    let schema = RECURSIVE_OPTIONAL_PROPERTY;
    let arena = normalize(schema).unwrap();
    assert!(arena.reference_edges.iter().any(|edge| {
        arena.nodes[edge.from.0 as usize].provenance.pointer.0 == "/$defs/node/properties/next"
            && arena.nodes[edge.to.0 as usize].provenance.pointer.0 == "/$defs/node"
    }));
    let node = arena
        .nodes
        .iter()
        .find(|node| node.provenance.pointer.0 == "/$defs/node")
        .unwrap();
    let NormalizedSchema::Object(object) = &node.kind else {
        panic!("node must remain an object");
    };
    assert!(object.properties.iter().any(|property| property.name == "next"));
}

#[test]
fn all_of_is_intersection_not_concatenation() {
    let schema = ALLOF_INTERSECTION;
    let arena = normalize(schema).unwrap();
    assert_eq!(
        arena.nodes[0].kind,
        NormalizedSchema::Const(CanonicalValue {
            json: "\"x\"".to_owned()
        })
    );
}

#[test]
fn overlapping_one_of_is_explicitly_unsupported() {
    let schema = ONEOF_OVERLAP;
    assert!(matches!(
        normalize(schema),
        Err(CompileError::UnsupportedCombination { .. })
    ));
}

#[test]
fn resolves_pointer_escapes() {
    let arena =
        normalize(r##"{"$defs":{"a/b":{"const":1},"a~b":{"const":2}},"$ref":"#/$defs/a~1b"}"##)
            .unwrap();
    assert_eq!(arena.reference_edges.len(), 1);
    let arena = normalize(r##"{"$defs":{"a~b":{"const":2}},"$ref":"#/$defs/a~0b"}"##).unwrap();
    assert_eq!(arena.reference_edges.len(), 1);
}

#[test]
fn tiny_node_budget_returns_typed_error() {
    let mut options = CompileOptions::default();
    options.limits.max_schema_nodes = 1;
    let result = normalize_schema(
        &parse(r##"{"$defs":{"x":{"const":1}},"$ref":"#/$defs/x"}"##),
        &options,
    );
    assert!(matches!(
        result,
        Err(CompileError::ResourceLimitExceeded {
            stage: CompileStage::SchemaIndex,
            ..
        })
    ));
}

#[test]
fn rejects_duplicate_keys() {
    let text = |value: &str| JsonValue::String(value.to_owned());
    let member = |value: &str| JsonMember { key: "type".to_owned(), value: text(value) };
    let key = JsonValue::object(vec![member("string"), member("number")]).unwrap_err();
    let error = duplicate_key(key);
    assert!(matches!(error, CompileError::DuplicateSchemaKey { .. }));
}

#[test]
fn canonical_objects_sort_keys() {
    let value = parse(r#"{"z":1,"a":[true,null]}"#);
    assert_eq!(
        canonical_value(&value).unwrap().json,
        r#"{"a":[true,null],"z":1}"#
    );
}

#[test]
fn canonical_strings_are_escaped() {
    let value = parse(r#"["a\"b","\u0001é"]"#);
    assert_eq!(canonical_value(&value).unwrap().json, "[\"a\\\"b\",\"\\u0001é\"]");
}

#[test]
fn escaped_segments_are_read_back() {
    for segment in ["", "a", "a/b", "~", "~1", "a~0/~"] {
        let escaped = escape_pointer_segment(segment);
        assert!(!escaped.contains('/'));
        assert_eq!(decode_pointer_segment(&escaped), Ok(segment.to_owned()));
    }
    assert_eq!(escape_pointer_segment("a~/b"), "a~0~1b");
    assert!(decode_pointer_segment("a~2").is_err());
    assert!(decode_pointer_segment("~").is_err());
    assert_eq!(pointer_join(&SchemaPointer("/a".to_owned()), "b/c").0, "/a/b~1c");
}

#[test]
fn fragments_are_percent_decoded() {
    let arena = normalize(r##"{"$defs":{"a b":{"const":1}},"$ref":"#/$defs/a%20b"}"##).unwrap();
    assert_eq!(arena.reference_edges.len(), 1);
    let arena = normalize(r##"{"$defs":{"é":{"const":1}},"$ref":"#/$defs/%C3%a9"}"##).unwrap();
    assert_eq!(arena.reference_edges.len(), 1);
    for wrong in ["%", "%2", "%zz", "%ff"] {
        assert!(
            matches!(
                normalize(&format!(r##"{{"$ref":"#/{wrong}"}}"##)),
                Err(CompileError::InvalidJsonPointer { .. })
            ),
            "{wrong}"
        );
    }
}

#[test]
fn schemas_are_limited_in_size() {
    let mut options = CompileOptions::default();
    options.limits.max_schema_bytes = 10;
    assert!(check_schema_size(10, &options).is_ok());
    assert!(matches!(
        check_schema_size(11, &options),
        Err(CompileError::ResourceLimitExceeded {
            stage: CompileStage::Parse,
            observed: 11,
            limit: 10,
        })
    ));
}

#[test]
fn wrong_schemas_are_refused_by_name() {
    assert!(matches!(normalize("7"), Err(CompileError::InvalidKeywordValue { .. })));
    assert!(matches!(
        normalize(r#"{"$schema":"http://json-schema.org/draft-07/schema#"}"#),
        Err(CompileError::UnsupportedDialect { found })
            if found == "http://json-schema.org/draft-07/schema#"
    ));
    assert!(matches!(
        normalize(r#"{"type":"array","uniqueItems":true}"#),
        Err(CompileError::UnsupportedKeyword { keyword, .. }) if keyword == "uniqueItems"
    ));
    assert!(matches!(
        normalize(r#"{"$ref":"https://example.com/x"}"#),
        Err(CompileError::RemoteReferenceUnsupported { .. })
    ));
    assert!(matches!(
        normalize(r##"{"$ref":"#/$defs/missing"}"##),
        Err(CompileError::ReferenceNotFound { .. })
    ));
    assert!(matches!(
        normalize(r##"{"$ref":"#/a~2"}"##),
        Err(CompileError::InvalidJsonPointer { .. })
    ));
    assert!(matches!(
        normalize(r#"{"type":"text"}"#),
        Err(CompileError::InvalidKeywordValue { keyword, .. }) if keyword == "type"
    ));
}

#[test]
fn types_and_constants_have_normal_forms() {
    assert_eq!(normalize("false").unwrap().nodes[0].kind, NormalizedSchema::Never);
    assert_eq!(normalize("true").unwrap().nodes[0].kind, NormalizedSchema::Any);
    assert_eq!(normalize(r#"{"type":"null"}"#).unwrap().nodes[0].kind, NormalizedSchema::Null);
    assert_eq!(
        normalize(r#"{"type":"integer"}"#).unwrap().nodes[0].kind,
        NormalizedSchema::Integer
    );
    assert_eq!(
        normalize(r#"{"const":{"b":1,"a":2}}"#).unwrap().nodes[0].kind,
        NormalizedSchema::Const(CanonicalValue { json: r#"{"a":2,"b":1}"#.to_owned() })
    );
    assert!(matches!(
        &normalize(r#"{"type":"array","items":{"type":"null"},"minItems":1}"#).unwrap().nodes[0].kind,
        NormalizedSchema::Array(array) if array.min_items == 1 && array.max_items.is_none()
    ));
}

#[test]
fn whole_numbers_are_numbers() {
    let one = NormalizedSchema::Const(CanonicalValue { json: "1".to_owned() });
    for schema in [
        r#"{"allOf":[{"type":"integer"},{"type":"number"},{"const":1}]}"#,
        r#"{"allOf":[{"type":"number"},{"const":1},{"type":"integer"}]}"#,
    ] {
        assert_eq!(normalize(schema).unwrap().nodes[0].kind, one);
    }
    for schema in [
        r#"{"allOf":[{"type":"integer"},{"type":"number"},{"const":1.5}]}"#,
        r#"{"allOf":[{"type":"string"},{"type":"number"},{"const":1}]}"#,
    ] {
        assert_eq!(normalize(schema).unwrap().nodes[0].kind, NormalizedSchema::Never);
    }
}

#[test]
fn lengths_beside_other_assertions_are_refused() {
    let cases = [
        r#"{"const":"abc","minLength":5}"#,
        r#"{"enum":["abc"],"maxLength":1}"#,
        r#"{"anyOf":[{"const":"a"}],"minLength":2}"#,
        r#"{"allOf":[{"type":"string"},{"const":"x"}],"maxLength":0}"#,
        r##"{"$defs":{"a":{"const":"a"}},"$ref":"#/$defs/a","minLength":2}"##,
    ];
    for schema in cases {
        assert!(
            matches!(normalize(schema), Err(CompileError::UnsupportedCombination { .. })),
            "{schema}"
        );
    }
}

#[test]
fn every_escape_of_strings_has_its_form() {
    let value = JsonValue::String("\u{8}\u{c}\n\r\t\"\\/\u{1f}\u{7f}é".to_owned());
    assert_eq!(
        canonical_value(&value).unwrap().json,
        "\"\\b\\f\\n\\r\\t\\\"\\\\/\\u001f\u{7f}é\""
    );
}

#[test]
fn properties_come_in_the_order_of_their_names() {
    let arena = normalize(
        r#"{"type":"object","properties":{"b":{"const":1},"a":{"const":2}},
            "required":["b","a"],"additionalProperties":false}"#,
    )
    .unwrap();
    match &arena.nodes[0].kind {
        NormalizedSchema::Object(object) => {
            let names: Vec<_> =
                object.properties.iter().map(|property| property.name.as_str()).collect();
            assert_eq!(names, vec!["a", "b"]);
            assert_eq!(object.required, vec!["a".to_owned(), "b".to_owned()]);
        }
        other => panic!("{other:?}"),
    }
}
