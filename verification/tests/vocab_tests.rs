use ailed_soulsteal::vocab::{Vocab, VocabError};

#[test]
fn generated_vocabulary_size() {
    let v = Vocab::generate_from_pgn().expect("generation succeeds");
    assert_eq!(v.vocab_size, 4214);
    assert_eq!(v.special_offset, 6);
}

#[test]
fn generated_vocabulary_order() {
    let v = Vocab::generate_from_pgn().expect("generation succeeds");
    assert_eq!(v.get("a1a2"), Some(6));
    assert_eq!(v.get_action(6), Some("a1a2"));
    assert_eq!(v.get_action(4213), Some("h8h7"));
    assert_eq!(v.get("h8h7"), Some(4213));
    assert_eq!(v.get_action(4214), None);
    assert_eq!(v.get_action(5), None);
}

#[test]
fn generated_vocabulary_promotions() {
    let v = Vocab::generate_from_pgn().expect("generation succeeds");
    let base = v.get("e7e8").expect("move present");
    assert_eq!(v.get("e7e8b"), Some(base + 1));
    assert_eq!(v.get("e7e8n"), Some(base + 2));
    assert_eq!(v.get("e7e8q"), Some(base + 3));
    assert_eq!(v.get("e7e8r"), Some(base + 4));
    assert!(v.get("e7d8q").is_some());
    assert!(v.get("a2a1q").is_some());
    assert!(v.get("e7c8q").is_none());
    assert!(v.get("e6e7q").is_none());
    assert!(v.get("e2e2").is_none());
    assert!(v.get("e2e4").is_some());
}

#[test]
fn get_action_inverts_get() {
    let v = Vocab::generate_from_pgn().expect("generation succeeds");
    for a in ["e2e4", "g1f3", "e1g1", "h7h8r", "b2a1n"] {
        let id = v.get(a).expect("move present");
        assert_eq!(v.get_action(id), Some(a));
    }
}

#[test]
fn from_json_reads_object() {
    let v = Vocab::from_json(r#"{ "e2e4": 6, "d2d4": 7, "g1f3": 12 }"#).expect("valid vocabulary");
    assert_eq!(v.get("e2e4"), Some(6));
    assert_eq!(v.get("g1f3"), Some(12));
    assert_eq!(v.get("c2c4"), None);
    assert_eq!(v.get_action(7), Some("d2d4"));
    assert_eq!(v.get_action(8), None);
    assert_eq!(v.vocab_size, 13);
    assert_eq!(v.special_offset, 6);
}

#[test]
fn from_json_empty_object() {
    let v = Vocab::from_json("{}").expect("valid vocabulary");
    assert_eq!(v.vocab_size, 1);
    assert_eq!(v.get("e2e4"), None);
}

#[test]
fn from_json_rejects_bad_text() {
    assert!(matches!(Vocab::from_json("[1, 2]"), Err(VocabError::Json(_))));
    assert!(matches!(Vocab::from_json(r#"{ "e2e4": -1 }"#), Err(VocabError::Json(_))));
    assert!(matches!(Vocab::from_json(r#"{ "e2e4": 70000 }"#), Err(VocabError::Json(_))));
    assert!(matches!(Vocab::from_json("not json"), Err(VocabError::Json(_))));
}

#[test]
fn from_json_accepts_top_id() {
    let v = Vocab::from_json(r#"{ "e2e4": 65535 }"#).expect("valid vocabulary");
    assert_eq!(v.vocab_size, 65536);
    assert_eq!(v.get("e2e4"), Some(65535));
    assert_eq!(v.get_action(65535), Some("e2e4"));
}

#[test]
fn json_roundtrip() {
    let v = Vocab::from_json(r#"{ "e2e4": 6, "d2d4": 7 }"#).expect("valid vocabulary");
    let text = v.to_json().expect("serializes");
    let w = Vocab::from_json(&text).expect("reads back");
    assert_eq!(w.get("e2e4"), Some(6));
    assert_eq!(w.get("d2d4"), Some(7));
    assert_eq!(w.vocab_size, v.vocab_size);
    assert_eq!(text, "{\n  \"d2d4\": 7,\n  \"e2e4\": 6\n}");
}

#[test]
fn generated_vocabulary_json_roundtrip() {
    let v = Vocab::generate_from_pgn().expect("generation succeeds");
    let text = v.to_json().expect("serializes");
    let w = Vocab::from_json(&text).expect("reads back");
    assert_eq!(w.vocab_size, v.vocab_size);
    for a in ["a1a2", "e2e4", "e7e8q", "h8h7", "b2a1n"] {
        assert_eq!(w.get(a), v.get(a));
    }
    assert_eq!(w.get_action(4213), Some("h8h7"));
}
