use plainnote::ids::NoteId;
use plainnote::vault::{
    decode_note, find_note_file, list_notes_from_sources, new_note_file, note_rel_path, order_summaries, summary_of,
    Vault, VaultError, VaultOpError,
};

/// Note files held in memory: (relative path, bytes).
struct Files(Vec<(String, Vec<u8>)>);

impl Files {
    fn save_note(&mut self, body: &str, title: Option<String>, now: &str) -> NoteId {
        let id = NoteId::new();
        let (rel, _fm, text) = new_note_file(&id, now, body, title).unwrap();
        self.0.push((rel, text.into_bytes()));
        id
    }

    fn read_note(&self, id: &NoteId) -> Result<plainnote::vault::Note, VaultOpError> {
        let paths: Vec<String> = self.0.iter().map(|f| f.0.clone()).collect();
        match find_note_file(&paths, id) {
            Some(i) => decode_note(&self.0[i].1),
            None => Err(VaultOpError::NotFound(*id)),
        }
    }

    fn sources(&self) -> Vec<Vec<u8>> {
        self.0.iter().map(|f| f.1.clone()).collect()
    }
}

#[test]
fn save_then_read_returns_same_note() {
    let mut v = Files(vec![]);
    let id = v.save_note("hello body", Some("title".to_string()), &chrono::Utc::now().format("%Y-%m-%dT%H:%M:%SZ").to_string());
    let note = v.read_note(&id).unwrap();
    assert_eq!(note.frontmatter.id, id);
    assert_eq!(note.frontmatter.title.as_deref(), Some("title"));
    assert_eq!(note.body, "hello body");
}

#[test]
fn save_persists_into_date_partitioned_path() {
    let id = NoteId::parse("01HXYZ0000000000000000000A").unwrap();
    let (rel, fm, _text) = new_note_file(&id, "2026-05-04T10:23:11Z", "content", None).unwrap();
    assert_eq!(rel, "notes/2026/05/04/01HXYZ0000000000000000000A.md");
    assert_eq!(fm.created, "2026-05-04T10:23:11Z");
    assert_eq!(fm.updated, "2026-05-04T10:23:11Z");
    let vault = Vault { root: "/vault".into() };
    assert_eq!(vault.note_path(&id, "2026-05-04T23:59:59Z").unwrap(), "notes/2026/05/04/01HXYZ0000000000000000000A.md");
}

#[test]
fn read_note_returns_not_found_for_unknown_id() {
    let mut v = Files(vec![]);
    v.save_note("x", None, "2026-05-04T10:23:11Z");
    let unknown = NoteId::new();
    let err = v.read_note(&unknown).unwrap_err();
    assert!(matches!(err, VaultOpError::NotFound(_)));
}

#[test]
fn list_notes_chrono_orders_by_created_descending() {
    let mut v = Files(vec![]);
    let _id1 = v.save_note("first", None, "2026-05-04T10:23:11Z");
    let id2 = v.save_note("second", None, "2026-05-04T10:23:12Z");
    let summaries = list_notes_from_sources(&v.sources(), 10);
    assert_eq!(summaries.len(), 2);
    assert_eq!(summaries[0].id, id2, "newest first");
}

#[test]
fn list_notes_chrono_respects_limit() {
    let mut v = Files(vec![]);
    for i in 0..5 {
        v.save_note("body", None, &format!("2026-05-04T10:23:1{i}Z"));
    }
    let summaries = list_notes_from_sources(&v.sources(), 3);
    assert_eq!(summaries.len(), 3);
}

#[test]
fn list_notes_chrono_includes_first_line_preview() {
    let mut v = Files(vec![]);
    v.save_note("first line\nsecond line", None, "2026-05-04T10:23:11Z");
    let summaries = list_notes_from_sources(&v.sources(), 10);
    assert_eq!(summaries[0].preview, "first line");
}

#[test]
fn note_on_disk_is_human_readable_markdown() {
    let mut v = Files(vec![]);
    v.save_note("a body that humans can read", Some("readable".to_string()), "2026-05-04T10:23:11Z");
    let raw = String::from_utf8(v.0[0].1.clone()).unwrap();
    assert!(raw.starts_with("---\n"));
    assert!(raw.contains("title: readable\n"));
    assert!(raw.contains("a body that humans can read"));
}

#[test]
fn list_skips_files_that_are_not_notes_and_keeps_stable_order_for_ties() {
    let mut v = Files(vec![]);
    let a = v.save_note("a", None, "2026-05-04T10:23:11Z");
    v.0.push(("notes/junk.md".into(), b"no frontmatter".to_vec()));
    v.0.push(("notes/bin.md".into(), vec![0xc3, 0x28]));
    let b = v.save_note("b", None, "2026-05-04T10:23:11Z");
    let summaries = list_notes_from_sources(&v.sources(), 10);
    let ids: Vec<NoteId> = summaries.iter().map(|s| s.id).collect();
    assert_eq!(ids, vec![a, b]);
}

#[test]
fn order_summaries_sorts_newest_first_then_truncates() {
    let mut v = Files(vec![]);
    let old = v.save_note("old", None, "2026-01-01T00:00:00Z");
    let new = v.save_note("new", None, "2026-12-31T00:00:00Z");
    let mid = v.save_note("mid", None, "2026-06-01T00:00:00Z");
    let all: Vec<_> = v
        .0
        .iter()
        .map(|f| {
            let n = decode_note(&f.1).unwrap();
            summary_of(&n.frontmatter, &n.body)
        })
        .collect();
    let ordered = order_summaries(all.clone(), 10);
    let ids: Vec<NoteId> = ordered.iter().map(|s| s.id).collect();
    assert_eq!(ids, vec![new, mid, old]);
    assert_eq!(order_summaries(all, 1).len(), 1);
}

#[test]
fn decode_reports_utf8_and_frontmatter_errors() {
    assert!(matches!(decode_note(&[0xff]), Err(VaultOpError::Utf8(_))));
    assert!(matches!(decode_note(b"plain text"), Err(VaultOpError::Frontmatter(_))));
}

#[test]
fn bad_created_stamp_is_refused_for_paths() {
    let id = NoteId::new();
    assert!(matches!(note_rel_path(&id, "yesterday"), Err(VaultOpError::Frontmatter(_))));
    assert!(new_note_file(&id, "not a time", "b", None).is_err());
}

#[test]
fn vault_error_messages() {
    assert_eq!(VaultError::Io("boom".into()).to_string(), "I/O error: boom");
    assert_eq!(VaultError::MissingParent("/x".into()).to_string(), "vault path does not exist: /x");
    let id = NoteId::parse("01HXYZ0000000000000000000A").unwrap();
    assert_eq!(VaultOpError::NotFound(id).to_string(), "note not found: 01HXYZ0000000000000000000A");
    assert_eq!(VaultOpError::Io(VaultError::Io("e".into())).to_string(), "vault: I/O error: e");
    assert_eq!(VaultOpError::Utf8("bad".into()).to_string(), "UTF-8 error: bad");
}
