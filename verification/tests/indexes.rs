use oc_earley::automaton::{CompiledByteDfa, DEAD_DFA_STATE};
use oc_earley::error::{CompileError, CompileStage, Error};
use oc_earley::index::Index;
use oc_earley::regular::RegularExpression;
use oc_earley::schema::{CompileLimits, SchemaPointer};
use oc_earley::tabulate::tabulate;
use oc_earley::trie::{DerivedVocabulary, TrieEdge};
use oc_earley::vocabulary::Vocabulary;
use regex_automata::dfa::dense::{Builder, Config};
use regex_automata::dfa::StartKind;
use regex_automata::MatchKind;
use rustc_hash::{FxHashMap, FxHashSet};

fn compiled_dfa(pattern: &str) -> CompiledByteDfa {
    CompiledByteDfa::compile(
        &RegularExpression::Atom {
            forward: pattern.to_owned(),
            reverse: None,
        },
        &CompileLimits::default(),
        &SchemaPointer(String::new()),
    )
    .unwrap()
}

#[test]
fn index_from_regex() {
    let regex = "0|[1-9][0-9]*";
    let eos_token_id = 4;
    let mut vocabulary = Vocabulary::new(eos_token_id);
    for (token, token_id) in [("blah", 0), ("1a", 1), ("2", 2), ("0", 3)] {
        vocabulary
            .try_insert(token.as_ref(), token_id as u32)
            .expect("Insert failed");
    }
    let index = Index::new(regex, &vocabulary).expect("Index failed");
    let initial_state = index.initial_state();
    assert_eq!(initial_state, 40);
    assert_eq!(index.final_states(), &FxHashSet::from_iter([24, 48, 56]));
    assert!(!index.is_final_state(&initial_state));

    let expected = FxHashMap::from_iter([
        (24, FxHashMap::from_iter([(3, 24), (4, 24), (2, 24)])),
        (48, FxHashMap::from_iter([(4, 48)])),
        (40, FxHashMap::from_iter([(3, 48), (2, 56)])),
        (56, FxHashMap::from_iter([(3, 24), (4, 56), (2, 24)])),
    ]);
    assert_eq!(index.transitions(), &expected);

    let allowed_tokens = index
        .allowed_tokens(&initial_state)
        .expect("No allowed tokens");
    let token_id = allowed_tokens.first().expect("No first tokens");

    let state = 48;
    assert_eq!(index.next_state(&initial_state, token_id), Some(state));
    assert!(index.is_final_state(&state));

    assert_eq!(index.next_state(&state, &eos_token_id), None);
    assert_eq!(index.next_state(&state, token_id), None);
}

#[test]
fn index_from_regex_initital_in_allowed() {
    let regex = "`\\n(\\.\\n)?`\\n";
    let mut vocabulary = Vocabulary::new(104);
    for (token, token_id) in [("\n", 103), (".", 102), ("`", 101)] {
        vocabulary
            .try_insert(token.as_ref(), token_id as u32)
            .expect("Insert failed");
    }

    let index = Index::new(regex, &vocabulary).expect("Index failed");
    let allowed = index
        .allowed_tokens(&index.initial_state())
        .expect("No allowed tokens");
    assert!(allowed.contains(&101));
}

#[test]
fn index_from_regex_multibyte() {
    let regex = "😇| [😈-😍][😇-😎]*";
    let mut vocabulary = Vocabulary::new(8);
    for (token, token_id) in [(" 😍", 5), ("blah", 0), ("😇", 2), ("😈a", 1), ("😍", 3)]
    {
        vocabulary
            .try_insert(token.as_ref(), token_id as u32)
            .expect("Insert failed");
    }
    for (token, token_id) in [
        (vec![32, 240, 159, 152, 136], 7),
        (vec![32, 240, 159, 152, 141], 6),
        (vec![240, 159, 152, 141], 4),
    ] {
        vocabulary
            .try_insert(token.as_ref(), token_id as u32)
            .expect("Insert failed");
    }

    let index = Index::new(regex, &vocabulary).expect("Index failed");
    assert_eq!(index.final_states(), &FxHashSet::from_iter([208, 128]));

    let expected = FxHashMap::from_iter([
        (
            208,
            FxHashMap::from_iter([(3, 208), (8, 208), (4, 208), (2, 208)]),
        ),
        (
            80,
            FxHashMap::from_iter([(2, 128), (7, 208), (5, 208), (6, 208)]),
        ),
        (128, FxHashMap::from_iter([(8, 128)])),
    ]);
    assert_eq!(index.transitions(), &expected);
}

#[test]
fn index_incompatible_vocabulary_error() {
    let regex = "0 1";
    let mut vocabulary = Vocabulary::new(3);
    for (token, token_id) in [("0", 0), ("0 ", 1), ("1", 2)] {
        vocabulary
            .try_insert(token.as_ref(), token_id as u32)
            .expect("Insert failed");
    }

    let result = Index::new(regex, &vocabulary);
    assert!(result.is_err());

    if let Err(Error::IncompatibleVocabulary {
        regex: _,
        missing_tokens,
        ..
    }) = result
    {
        assert!(missing_tokens.contains(&" ".to_string()));
    } else {
        panic!("Expected IncompatibleVocabulary error");
    }
}

#[test]
fn index_incompatible_vocabulary_error_non_ascii() {
    let regex = "😈😍";
    let mut vocabulary = Vocabulary::new(3);
    for (token, token_id) in [("😈", 0), (" ", 1), ("b", 2)] {
        vocabulary
            .try_insert(token.as_ref(), token_id as u32)
            .expect("Insert failed");
    }

    let result = Index::new(regex, &vocabulary);
    assert!(result.is_err());

    if let Err(Error::IncompatibleVocabulary {
        regex: _,
        missing_tokens,
        ..
    }) = result
    {
        assert!(missing_tokens.contains(&"\\xf0".to_string()));
    } else {
        panic!("Expected IncompatibleVocabulary error");
    }
}

#[test]
fn index_from_regex_completeness() {
    let regex = "(ac|[^a])+";
    let eos_token_id = 3;
    let mut vocabulary = Vocabulary::new(eos_token_id);
    for (token, token_id) in [("a", 0), ("b", 1), ("c", 2)] {
        vocabulary
            .try_insert(token.as_ref(), token_id as u32)
            .expect("Insert failed");
    }

    let index = Index::new(regex, &vocabulary).expect("Index failed");
    let mut state = index.initial_state();

    // "acac" should be accepted
    for token_id in [0, 2, 0, 2] {
        state = index.next_state(&state, &token_id).expect("Transit failed");
    }
    assert!(index.is_final_state(&state));
}

#[test]
fn certified_projection_supports_sparse_ids_and_byte_aliases() {
    let dfa = compiled_dfa(&regex::escape(r#""done""#));
    let mut vocabulary = Vocabulary::new(100);
    vocabulary.try_insert(r#""done""#.as_bytes(), 42).unwrap();
    vocabulary.try_insert(r#""done""#.as_bytes(), 96).unwrap();
    vocabulary.try_insert(r#"""#.as_bytes(), 1).unwrap();
    vocabulary.try_insert("done".as_bytes(), 2).unwrap();

    let index = Index::from_certified_dfa(&dfa, &vocabulary).unwrap();
    assert_eq!(index.initial_state(), 0);
    assert_eq!(index.vocab_size(), 101);
    let allowed = index.allowed_tokens(&0).unwrap();
    assert!(allowed.contains(&1));
    assert!(allowed.contains(&42));
    assert!(allowed.contains(&96));

    let final_state = index.next_state(&0, &42).unwrap();
    assert!(index.is_final_state(&final_state));
    assert!(index.allowed_tokens(&final_state).unwrap().contains(&100));
    assert_eq!(index.next_state(&final_state, &100), None);
}

#[test]
fn legacy_projection_sizes_sparse_token_ids() {
    let mut vocabulary = Vocabulary::new(100);
    vocabulary.try_insert("x".as_bytes(), 96).unwrap();
    let index = Index::new("x", &vocabulary).unwrap();
    assert_eq!(index.vocab_size(), 101);
    assert!(index
        .allowed_tokens(&index.initial_state())
        .unwrap()
        .contains(&96));
}

#[test]
fn certified_projection_prunes_dead_token_prefixes() {
    let dfa = compiled_dfa("ab");
    let mut vocabulary = Vocabulary::new(3);
    vocabulary.try_insert("ax".as_bytes(), 0).unwrap();
    vocabulary.try_insert("a".as_bytes(), 1).unwrap();
    vocabulary.try_insert("b".as_bytes(), 2).unwrap();

    let index = Index::from_certified_dfa(&dfa, &vocabulary).unwrap();
    let allowed = index.allowed_tokens(&0).unwrap();
    assert!(!allowed.contains(&0));
    assert!(allowed.contains(&1));
    let after_a = index.next_state(&0, &1).unwrap();
    assert_eq!(index.allowed_tokens(&after_a).unwrap(), vec![2]);
}

#[test]
fn certified_projection_rejects_ambiguous_token_ids() {
    let dfa = compiled_dfa("a|bc");
    let mut vocabulary = Vocabulary::new(2);
    vocabulary.try_insert("a".as_bytes(), 0).unwrap();
    vocabulary.try_insert("b".as_bytes(), 0).unwrap();
    vocabulary.try_insert("c".as_bytes(), 1).unwrap();

    assert!(matches!(
        Index::from_certified_dfa(&dfa, &vocabulary),
        Err(Error::AmbiguousTokenId { token_id: 0 })
    ));
}

#[test]
fn empty_language_projects_to_an_empty_mask() {
    let dfa = CompiledByteDfa::compile(
        &RegularExpression::Empty,
        &CompileLimits::default(),
        &SchemaPointer(String::new()),
    )
    .unwrap();
    let mut vocabulary = Vocabulary::new(10);
    vocabulary.try_insert("anything".as_bytes(), 9).unwrap();

    let index = Index::from_certified_dfa(&dfa, &vocabulary).unwrap();
    assert_eq!(index.initial_state(), 0);
    assert_eq!(index.vocab_size(), 11);
    assert!(index.final_states().is_empty());
    assert!(index.allowed_tokens(&0).is_none());
    assert_eq!(dfa.next_state(0, b'x'), DEAD_DFA_STATE);
}

#[test]
fn deterministic_trie_preserves_aliases_and_sparse_width() {
    let mut vocabulary = Vocabulary::new(100);
    vocabulary.try_insert("ab".as_bytes(), 5).unwrap();
    vocabulary.try_insert("a".as_bytes(), 0).unwrap();
    vocabulary.try_insert("ab".as_bytes(), 19).unwrap();
    let first = DerivedVocabulary::build(&vocabulary, &CompileLimits::default()).unwrap();
    let second = DerivedVocabulary::build(&vocabulary, &CompileLimits::default()).unwrap();
    assert_eq!(first, second);
    assert_eq!(first.vocab_size, 101);
    assert_eq!(first.mask_words, 4);
    assert_eq!(first.shared_bytes(5).as_deref(), Some(b"ab".as_slice()));
    assert_eq!(first.trie.terminal_ids, vec![0, 5, 19]);
}

#[test]
fn conflicting_ids_and_empty_tokens_fail() {
    let mut conflict = Vocabulary::new(2);
    conflict.try_insert("a".as_bytes(), 1).unwrap();
    conflict.try_insert("b".as_bytes(), 1).unwrap();
    assert!(matches!(
        DerivedVocabulary::build(&conflict, &CompileLimits::default()),
        Err(Error::AmbiguousTokenId { token_id: 1 })
    ));

    let mut empty = Vocabulary::new(1);
    empty.try_insert(&[], 0).unwrap();
    assert!(matches!(
        DerivedVocabulary::build(&empty, &CompileLimits::default()),
        Err(Error::EmptyTokenDisallowed)
    ));
}

#[test]
fn sparse_ids_respect_the_slot_limit_before_allocation() {
    let mut vocabulary = Vocabulary::new(u32::MAX);
    vocabulary.try_insert("x".as_bytes(), 0).unwrap();
    assert!(matches!(
        DerivedVocabulary::build(&vocabulary, &CompileLimits::default()),
        Err(Error::Compile(CompileError::ResourceLimitExceeded {
            stage: CompileStage::VocabularyProjection,
            ..
        }))
    ));
}

#[test]
fn the_token_of_the_end_is_not_inserted() {
    let mut vocabulary = Vocabulary::new(3);
    assert!(matches!(vocabulary.try_insert(b"x", 3), Err(Error::EOSTokenDisallowed)));
    assert_eq!(vocabulary.eos_token_id(), 3);
}

#[test]
fn regexes_that_cannot_be_read_are_refused() {
    let mut vocabulary = Vocabulary::new(1);
    vocabulary.try_insert(b"x", 0).unwrap();
    assert!(matches!(Index::new("(", &vocabulary), Err(Error::IndexDfaError { .. })));
}

#[test]
fn token_bytes_are_limited() {
    let mut vocabulary = Vocabulary::new(9);
    vocabulary.try_insert(b"abc", 0).unwrap();
    let limits = CompileLimits { max_token_bytes: 2, ..CompileLimits::default() };
    assert!(matches!(
        DerivedVocabulary::build(&vocabulary, &limits),
        Err(Error::Compile(CompileError::ResourceLimitExceeded {
            stage: CompileStage::VocabularyProjection,
            observed: 3,
            limit: 2,
        }))
    ));
}

#[test]
fn automata_are_exact() {
    let dfa = compiled_dfa("a(b|c)*");
    let run = |bytes: &[u8]| {
        bytes.iter().fold(dfa.start_state(), |state, byte| dfa.next_state(state, *byte))
    };
    for accepted in [b"a".as_slice(), b"ab", b"acbc"] {
        assert!(dfa.is_accepting(run(accepted)));
    }
    for refused in [b"".as_slice(), b"b", b"aa"] {
        assert!(!dfa.is_accepting(run(refused)));
    }
    assert!(!dfa.is_live(run(b"aa")));
    assert!(dfa.is_live(run(b"a")));
    assert!(dfa.can_extend(run(b"a")));
}

fn small_vocabulary() -> Vocabulary {
    let mut vocabulary = Vocabulary::new(9);
    for (token, id) in [("b", 4), ("ac", 2), ("ab", 7), ("ab", 1)] {
        vocabulary.try_insert(token.as_bytes(), id).unwrap();
    }
    vocabulary
}

#[test]
fn trie_nodes_follow_the_order_of_beginnings() {
    let derived = DerivedVocabulary::build(&small_vocabulary(), &CompileLimits::default()).unwrap();
    assert_eq!(derived.trie.nodes.len(), 5);
    assert_eq!(
        derived.trie.edges,
        vec![
            TrieEdge { byte: b'a', child: 1 },
            TrieEdge { byte: b'b', child: 4 },
            TrieEdge { byte: b'b', child: 2 },
            TrieEdge { byte: b'c', child: 3 },
        ]
    );
    assert_eq!(derived.trie.terminal_ids, vec![1, 7, 2, 4]);
    assert_eq!(derived.total_token_bytes, 5);
    assert_eq!(derived.vocab_size, 10);
}

#[test]
fn trie_limits_are_exact() {
    let exact = CompileLimits {
        max_trie_nodes: 5,
        max_trie_edges: 4,
        max_trie_terminal_ids: 4,
        max_token_bytes: 2,
        max_total_token_bytes: 5,
        max_vocabulary_slots: 10,
        ..CompileLimits::default()
    };
    let vocabulary = small_vocabulary();
    assert!(DerivedVocabulary::build(&vocabulary, &exact).is_ok());
    let cases = [
        (CompileLimits { max_trie_nodes: 2, ..exact }, 3, 2),
        (CompileLimits { max_trie_nodes: 4, ..exact }, 5, 4),
        (CompileLimits { max_trie_edges: 3, ..exact }, 4, 3),
        (CompileLimits { max_trie_terminal_ids: 3, ..exact }, 4, 3),
        (CompileLimits { max_token_bytes: 1, ..exact }, 2, 1),
        (CompileLimits { max_total_token_bytes: 4, ..exact }, 5, 4),
        (CompileLimits { max_vocabulary_slots: 9, ..exact }, 10, 9),
    ];
    for (limits, observed, limit) in cases {
        match DerivedVocabulary::build(&vocabulary, &limits) {
            Err(Error::Compile(CompileError::ResourceLimitExceeded {
                stage: CompileStage::VocabularyProjection,
                observed: found,
                limit: bound,
            })) => assert_eq!((found, bound), (observed, limit)),
            other => panic!("{other:?}"),
        }
    }
}

#[test]
fn the_order_of_insertion_does_not_matter() {
    let mut turned = Vocabulary::new(9);
    for (token, id) in [("ab", 1), ("ab", 7), ("ab", 1), ("ac", 2), ("b", 4)] {
        turned.try_insert(token.as_bytes(), id).unwrap();
    }
    let limits = CompileLimits::default();
    let one = DerivedVocabulary::build(&small_vocabulary(), &limits).unwrap();
    let other = DerivedVocabulary::build(&turned, &limits).unwrap();
    assert_eq!(one, other);
}

#[test]
fn dead_ends_name_the_bytes_that_are_missing() {
    let dfa = compiled_dfa("abc");
    let mut vocabulary = Vocabulary::new(3);
    for (token, id) in [("a", 0), ("ab", 1), ("c", 2)] {
        vocabulary.try_insert(token.as_bytes(), id).unwrap();
    }
    match Index::from_certified_dfa(&dfa, &vocabulary) {
        Err(Error::IncompatibleVocabulary { missing_tokens, .. }) => {
            assert_eq!(missing_tokens, vec!["b".to_owned()]);
        }
        other => panic!("{other:?}"),
    }
    vocabulary.try_insert(b"b", 4).unwrap();
    let index = Index::from_certified_dfa(&dfa, &vocabulary).unwrap();
    let mut allowed = index.allowed_tokens(&0).unwrap();
    allowed.sort_unstable();
    assert_eq!(allowed, vec![0, 1]);
    let after = index.next_state(&0, &1).unwrap();
    assert_eq!(index.allowed_tokens(&after).unwrap(), vec![2]);
}

#[test]
fn tables_of_automata_keep_just_within_the_limits() {
    let dfa = Builder::new()
        .configure(Config::new().match_kind(MatchKind::All).start_kind(StartKind::Anchored))
        .build("a(b|c)*")
        .unwrap();
    let pointer = SchemaPointer(String::new());
    let limits = CompileLimits::default();
    let table = tabulate(&dfa, 5, 7, &limits, &pointer).unwrap();
    let states = table.state_count();
    assert!(states > 1);
    assert_eq!((table.nfa_states, table.nfa_transitions), (5, 7));
    assert_eq!(table.memory_bytes(), states * 1027);
    let exact =
        CompileLimits { max_dfa_states: states, max_dfa_bytes: states * 1027, ..limits };
    assert_eq!(tabulate(&dfa, 5, 7, &exact, &pointer).unwrap(), table);
    let cases = [
        (CompileLimits { max_dfa_states: states - 1, ..exact }, states, states - 1),
        (CompileLimits { max_dfa_states: 0, ..exact }, 1, 0),
        (
            CompileLimits { max_dfa_bytes: states * 1027 - 1, ..exact },
            states * 1027,
            states * 1027 - 1,
        ),
    ];
    for (limits, observed, limit) in cases {
        match tabulate(&dfa, 5, 7, &limits, &pointer) {
            Err(CompileError::ResourceLimitExceeded {
                stage: CompileStage::DfaDeterminization,
                observed: found,
                limit: bound,
            }) => assert_eq!((found, bound), (observed, limit)),
            other => panic!("{other:?}"),
        }
    }
}

#[test]
fn automata_without_one_start_have_no_table() {
    let dfa = Builder::new()
        .configure(Config::new().match_kind(MatchKind::All).start_kind(StartKind::Anchored))
        .build(r"^a|(?m:^b)")
        .unwrap();
    let pointer = SchemaPointer("/x".to_owned());
    match tabulate(&dfa, 0, 0, &CompileLimits::default(), &pointer) {
        Err(CompileError::AutomatonBuild { pointer: at, message }) => {
            assert_eq!(at, pointer);
            assert_eq!(message, "the automaton has no anchored start state");
        }
        other => panic!("{other:?}"),
    }
}
