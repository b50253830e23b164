use plainnote::ids::{IdError, NoteId};

#[test]
fn note_id_round_trips_through_string() {
    let id = NoteId::new();
    let s = id.to_string();
    let parsed = NoteId::parse(&s).expect("must parse its own output");
    assert_eq!(id, parsed);
}

#[test]
fn parse_rejects_wrong_length() {
    assert!(NoteId::parse("").is_err());
    assert!(NoteId::parse("0").is_err());
    assert!(NoteId::parse(&"0".repeat(25)).is_err());
    assert!(NoteId::parse(&"0".repeat(27)).is_err());
    assert!(NoteId::parse(&"0".repeat(100)).is_err());
}

#[test]
fn parse_rejects_non_crockford_alphabet() {
    let id = NoteId::new();
    let mut s = id.to_string();
    s.replace_range(0..1, "I");
    assert!(NoteId::parse(&s).is_err(), "I must not be a valid Crockford char");
}

#[test]
fn parse_rejects_embedded_nul() {
    let mut s = NoteId::new().to_string();
    s.replace_range(0..1, "\0");
    assert!(NoteId::parse(&s).is_err());
}

#[test]
fn parse_rejects_path_traversal() {
    for hostile in [".................", "../../etc/passwd", "/", "..", "../"] {
        assert!(NoteId::parse(hostile).is_err(), "must reject path-traversal-shaped input: {hostile:?}");
    }
}

#[test]
fn fixed_id_text_round_trips_and_lowercase_is_accepted() {
    let id = NoteId::parse("01HXYZ0000000000000000000A").unwrap();
    assert_eq!(id.to_string(), "01HXYZ0000000000000000000A");
    let lower = NoteId::parse("01hxyz0000000000000000000a").unwrap();
    assert_eq!(lower, id);
    assert_eq!(NoteId { value: 0 }.to_string(), "00000000000000000000000000");
    assert_eq!(NoteId { value: u128::MAX }.to_string(), "7ZZZZZZZZZZZZZZZZZZZZZZZZZ");
    assert_eq!(NoteId::parse("7ZZZZZZZZZZZZZZZZZZZZZZZZZ").unwrap().value, u128::MAX);
}

#[test]
fn id_error_message_names_the_problem() {
    let err = NoteId::parse("nope").unwrap_err();
    let msg = err.to_string();
    assert!(msg.starts_with("invalid ULID: "), "{msg}");
    match err {
        IdError::Invalid(inner) => assert_eq!(msg, format!("invalid ULID: {inner}")),
    }
}

#[test]
fn default_id_is_a_fresh_valid_id() {
    let a = NoteId::default();
    let b = NoteId::default();
    assert_ne!(a, b);
    assert_eq!(NoteId::parse(&a.to_string()).unwrap(), a);
}
