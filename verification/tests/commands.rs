use oc_earley::command::{
    error_exit_code, parse_command, usage, Command, OutputFormat, EXIT_INTERNAL, EXIT_RESOURCE,
    EXIT_SCHEMA, EXIT_STRUCTURAL,
};
use oc_earley::error::{CompileError, CompileStage, Error, RuntimeError, RuntimeResource};
use oc_earley::schema::{DiagnosticLocation, ResourceId, SchemaPointer};

fn arguments(list: &[&str]) -> Vec<String> {
    list.iter().map(|argument| (*argument).to_owned()).collect()
}

#[test]
fn parses_supported_commands_strictly() {
    assert_eq!(
        parse_command(&[
            "tier-report".to_owned(),
            "schema.json".to_owned(),
            "--format".to_owned(),
            "json".to_owned(),
        ]),
        Ok(Command::TierReport {
            schema: "schema.json".to_owned(),
            format: OutputFormat::Json,
        })
    );
    assert!(parse_command(&["compile".to_owned()]).is_err());
    assert!(parse_command(&[
        "tier-report".to_owned(),
        "schema.json".to_owned(),
        "--unknown".to_owned(),
    ])
    .is_err());
}

#[test]
fn compiler_errors_have_stable_exit_classes() {
    assert_eq!(
        error_exit_code(&CompileError::ResourceLimitExceeded {
            stage: CompileStage::DfaDeterminization,
            observed: 2,
            limit: 1,
        }),
        EXIT_RESOURCE
    );
    assert_eq!(
        error_exit_code(&CompileError::InternalInvariant { message: "test" }),
        EXIT_INTERNAL
    );
    assert_eq!(
        error_exit_code(&CompileError::InvalidJson {
            message: "test".to_owned(),
        }),
        EXIT_SCHEMA
    );
}

#[test]
fn structural_errors_have_an_exit_class_of_their_own() {
    assert_eq!(
        error_exit_code(&CompileError::StructuralBackendRequired { location: location(None) }),
        EXIT_STRUCTURAL
    );
    assert_eq!((EXIT_INTERNAL, EXIT_SCHEMA, EXIT_RESOURCE, EXIT_STRUCTURAL), (1, 2, 3, 4));
}

#[test]
fn refused_arguments_are_named() {
    let cases: [(&[&str], &str); 8] = [
        (&[], "missing command"),
        (&["help", "x"], "help does not accept arguments"),
        (&["run"], "unknown command `run`"),
        (&["compile"], "`compile` requires a schema path"),
        (&["tier-report", "--format"], "`tier-report` requires a schema path"),
        (&["compile", "a", "--format"], "`--format` requires `text` or `json`"),
        (&["compile", "a", "--format", "xml"], "unsupported report format `xml`"),
        (&["compile", "a", "--format", "text", "b"], "unexpected argument `b`"),
    ];
    for (list, message) in cases {
        assert_eq!(parse_command(&arguments(list)), Err(message.to_owned()));
    }
}

#[test]
fn the_last_format_counts() {
    assert_eq!(
        parse_command(&arguments(&["compile", "a", "--format", "json", "--format", "text"])),
        Ok(Command::Compile { schema: "a".to_owned(), format: OutputFormat::Text })
    );
    for name in ["help", "--help", "-h"] {
        assert_eq!(parse_command(&arguments(&[name])), Ok(Command::Help));
    }
    assert!(usage().starts_with("Usage:\n"));
}

fn location(keyword: Option<&str>) -> DiagnosticLocation {
    DiagnosticLocation {
        resource: ResourceId(0),
        pointer: SchemaPointer("/a".to_owned()),
        keyword: keyword.map(str::to_owned),
    }
}

#[test]
fn locations_are_fragments_with_keywords() {
    assert_eq!(SchemaPointer(String::new()).text(), "#");
    assert_eq!(location(None).text(), "#/a");
    assert_eq!(location(Some("enum")).text(), "#/a keyword `enum`");
}

#[test]
fn compile_errors_have_texts() {
    let at = || location(Some("type"));
    let cases = [
        (CompileError::InvalidJson { message: "m".to_owned() }, "invalid JSON: m"),
        (
            CompileError::DuplicateSchemaKey { location: at(), key: "k".to_owned() },
            "duplicate schema key `k` at #/a keyword `type`",
        ),
        (CompileError::UnsupportedDialect { found: "d".to_owned() }, "unsupported dialect `d`"),
        (
            CompileError::InvalidKeywordValue {
                location: at(),
                keyword: "k".to_owned(),
                reason: "r".to_owned(),
            },
            "invalid value for `k` at #/a keyword `type`: r",
        ),
        (
            CompileError::UnsupportedKeyword { location: at(), keyword: "k".to_owned() },
            "unsupported keyword `k` at #/a keyword `type`",
        ),
        (
            CompileError::UnsupportedCombination { location: at(), reason: "r".to_owned() },
            "unsupported keyword combination at #/a keyword `type`: r",
        ),
        (
            CompileError::RemoteReferenceUnsupported { location: at(), reference: "r".to_owned() },
            "remote reference is unsupported at #/a keyword `type`: r",
        ),
        (
            CompileError::ReferenceNotFound { location: at(), reference: "r".to_owned() },
            "reference target not found at #/a keyword `type`: r",
        ),
        (
            CompileError::InvalidJsonPointer {
                location: at(),
                pointer: "p".to_owned(),
                reason: "r".to_owned(),
            },
            "invalid JSON Pointer `p` at #/a keyword `type`: r",
        ),
        (
            CompileError::ResourceLimitExceeded {
                stage: CompileStage::LalrMerge,
                observed: 120,
                limit: 7,
            },
            "resource limit exceeded during LalrMerge: 120 > 7",
        ),
        (
            CompileError::StructuralBackendRequired { location: at() },
            "a structural backend is required at #/a keyword `type`",
        ),
        (
            CompileError::BackendUnavailable {
                backend: "lalr",
                location: at(),
                reason: "r".to_owned(),
            },
            "backend `lalr` is unavailable at #/a keyword `type`: r",
        ),
        (
            CompileError::IncompatibleCompiledFormat { found: 2, expected: 1 },
            "compiled format version 2 is unsupported; expected 1",
        ),
        (
            CompileError::AutomatonBuild {
                pointer: SchemaPointer("/p".to_owned()),
                message: "m".to_owned(),
            },
            "regular automaton construction failed at #/p: m",
        ),
        (CompileError::InternalInvariant { message: "m" }, "internal invariant failed: m"),
    ];
    for (error, text) in cases {
        assert_eq!(error.message(), text);
    }
}

#[test]
fn runtime_errors_have_texts() {
    let cases = [
        (
            RuntimeError::RejectedByte { position: 12, byte: 0x0a },
            "byte 0x0a is rejected at position 12",
        ),
        (
            RuntimeError::ResourceLimitExceeded {
                resource: RuntimeResource::ParseStack,
                observed: 3,
                limit: 2,
            },
            "runtime limit exceeded for ParseStack: 3 > 2",
        ),
        (
            RuntimeError::InvalidCheckpoint { expected_generation: 1, found_generation: u64::MAX },
            "checkpoint generation 18446744073709551615 does not match 1",
        ),
        (RuntimeError::InternalInvariant { message: "m" }, "runtime invariant failed: m"),
    ];
    for (error, text) in cases {
        assert_eq!(error.message(), text);
    }
}

#[test]
fn library_errors_have_texts() {
    let error = Error::IncompatibleVocabulary {
        regex: "a\"".to_owned(),
        error_state: 24,
        missing_tokens: vec!["\n".to_owned(), "\\xf0".to_owned()],
    };
    assert_eq!(
        error.message(),
        "The vocabulary provided is incompatible with the regex 'a\"'. Found no transitions from \
         state 24, missing tokens corresponding to at least one of the following characters: \
         [\"\\n\", \"\\\\xf0\"]. This may be due to an encoding issue in your vocabulary."
    );
    assert!(!error.is_recursion_limit());
    let limited = Error::RefRecursionLimitReached(10);
    assert!(limited.is_recursion_limit());
    assert_eq!(limited.message(), "Ref recusion limit reached: 10");
    assert_eq!(
        Error::AmbiguousTokenId { token_id: 5 }.message(),
        "token ID 5 maps to byte strings that reach different DFA states"
    );
    assert_eq!(
        Error::Compile(CompileError::InternalInvariant { message: "m" }).message(),
        "internal invariant failed: m"
    );
}
