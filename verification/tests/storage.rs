use std::sync::Arc;

use oc_earley::frame::{check_consumed, decode_object, encode_object, ObjectKind};
use oc_earley::index::Index;
use oc_earley::index_guide::{check_buffer, IndexGuide};
use oc_earley::vocabulary::Vocabulary;

#[test]
fn frames_give_back_their_payloads() {
    for (kind, byte) in [
        (ObjectKind::Index, 1),
        (ObjectKind::Guide, 2),
        (ObjectKind::Vocabulary, 3),
        (ObjectKind::CompiledSchema, 4),
    ] {
        let frame = encode_object(b"xyz", kind, "it").unwrap();
        assert_eq!(&frame[..12], b"OCEARLEY\x01\0\0\0");
        assert_eq!(frame[12], byte);
        assert_eq!(decode_object(&frame, kind, "it").unwrap(), b"xyz");
    }
    let empty = encode_object(b"", ObjectKind::Index, "it").unwrap();
    assert_eq!(decode_object(&empty, ObjectKind::Index, "it").unwrap(), b"");
}

#[test]
fn frames_that_are_damaged_are_refused() {
    let frame = encode_object(b"xyz", ObjectKind::Guide, "Guide").unwrap();
    let read = |frame: &[u8], kind| decode_object(frame, kind, "Guide").map(<[u8]>::to_vec);
    assert_eq!(
        read(&frame[..12], ObjectKind::Guide),
        Err("Deserialization of Guide failed: truncated header".to_owned())
    );
    let mut wrong = frame.clone();
    wrong[7] = b'y';
    assert_eq!(
        read(&wrong, ObjectKind::Guide),
        Err("Deserialization of Guide failed: invalid magic bytes".to_owned())
    );
    let mut newer = frame.clone();
    newer[9] = 1;
    assert_eq!(
        read(&newer, ObjectKind::Guide),
        Err("compiled format version 257 is unsupported; expected 1".to_owned())
    );
    assert_eq!(
        read(&frame, ObjectKind::Index),
        Err("Deserialization of Guide failed: wrong object kind".to_owned())
    );
    assert!(check_consumed(3, 3, "Guide").is_ok());
    assert_eq!(
        check_consumed(2, 3, "Guide"),
        Err("Deserialization of Guide failed: trailing data".to_owned())
    );
}

fn walker(max_rollback: usize) -> IndexGuide {
    let mut vocabulary = Vocabulary::new(40);
    vocabulary.try_insert(b"a", 0).unwrap();
    vocabulary.try_insert(b"b", 33).unwrap();
    let index = Index::new("ab*", &vocabulary).unwrap();
    IndexGuide::new(Arc::new(index), max_rollback)
}

#[test]
fn walkers_advance_and_go_back() {
    let mut guide = walker(2);
    let start = guide.get_state();
    assert_eq!(guide.get_tokens().unwrap(), vec![0]);
    assert!(!guide.is_finished());
    assert_eq!(
        guide.advance(33),
        Err(format!(
            "No next state found for the current state: {start} with token ID: 33"
        ))
    );
    guide.advance(0).unwrap();
    assert!(guide.is_finished());
    assert!(guide.accepts_tokens(&[33, 33, 33]));
    assert!(!guide.accepts_tokens(&[33, 0]));
    let after = guide.get_state();
    guide.advance(33).unwrap();
    assert_eq!(guide.get_allowed_rollback(), 2);
    guide.rollback_state(1).unwrap();
    assert_eq!(guide.get_state(), after);
    guide.rollback_state(1).unwrap();
    assert_eq!(guide.get_state(), start);
    assert_eq!(
        guide.rollback_state(1),
        Err(
            "Cannot roll back 1 step(s): only 0 states stored (max_rollback = 2). You must \
             advance through at least 1 state(s) before rolling back 1 step(s)."
                .to_owned()
        )
    );
}

#[test]
fn walkers_forget_the_oldest_states() {
    let mut guide = walker(2);
    for token in [0, 33, 33, 33] {
        guide.advance(token).unwrap();
    }
    assert_eq!(guide.get_allowed_rollback(), 2);
    guide.reset();
    assert_eq!(guide.get_allowed_rollback(), 0);
    assert_eq!(guide.get_tokens().unwrap(), vec![0]);
    let mut forgetful = walker(0);
    forgetful.advance(0).unwrap();
    assert_eq!(forgetful.get_allowed_rollback(), 0);
    assert!(forgetful.rollback_state(0).is_ok());
}

#[test]
fn walkers_write_masks() {
    let mut guide = walker(2);
    assert_eq!(guide.write_mask(2), vec![1, 0]);
    guide.advance(0).unwrap();
    assert_eq!(guide.write_mask(3), vec![0, (1 << 1) | (1 << 8), 0]);
    assert_eq!(guide.write_mask(1), vec![0]);
}

#[test]
fn buffers_are_checked() {
    assert!(check_buffer(64, 2, 4, 41).is_ok());
    assert!(check_buffer(64, 0, 4, 0).is_ok());
    for (address, elements, size, message) in [
        (64, 2, 8, "Invalid element size: got 8 bytes per element, expected 4 bytes (32-bit integer)."),
        (0, 2, 4, "Invalid data pointer: received a null pointer."),
        (66, 2, 4, "Invalid data pointer alignment: pointer address 66 is not a multiple of 4."),
        (64, usize::MAX, 4, "Invalid buffer size: byte length overflowed."),
        (usize::MAX - 3, 2, 4, "Invalid buffer size: address range overflowed."),
        (
            64,
            1,
            4,
            "Invalid buffer size: got 1 elements (4 bytes), expected 2 elements (8 bytes). Ensure \
             that the mask tensor has shape (1, (vocab_size + 31) // 32) and uses 32-bit integers.",
        ),
    ] {
        assert_eq!(check_buffer(address, elements, size, 41), Err(message.to_owned()));
    }
}

#[test]
fn vocabularies_list_and_forget_tokens() {
    let mut vocabulary = Vocabulary::new(9);
    vocabulary.try_insert(b"a", 4).unwrap();
    vocabulary.try_insert(b"b", 5).unwrap();
    vocabulary.try_insert(b"a", 1).unwrap();
    assert_eq!(vocabulary.token_ids(b"a"), vec![4, 1]);
    assert_eq!(vocabulary.token_ids(b"c"), Vec::<u32>::new());
    vocabulary.remove(b"a");
    assert_eq!(vocabulary.token_ids(b"a"), Vec::<u32>::new());
    assert_eq!(vocabulary.token_ids(b"b"), vec![5]);
    assert_eq!(vocabulary.tokens().len(), 1);
}

#[test]
fn what_is_left_of_a_vocabulary_keeps_its_order() {
    let mut vocabulary = Vocabulary::new(9);
    for (token, id) in [("c", 3), ("a", 4), ("b", 5), ("a", 1), ("b", 5), ("c", 2)] {
        vocabulary.try_insert(token.as_bytes(), id).unwrap();
    }
    vocabulary.remove(b"a");
    let left: Vec<_> =
        vocabulary.tokens().iter().map(|entry| (entry.bytes.as_slice(), entry.id)).collect();
    assert_eq!(
        left,
        vec![(b"c".as_slice(), 3), (b"b".as_slice(), 5), (b"b".as_slice(), 5), (b"c".as_slice(), 2)]
    );
}
