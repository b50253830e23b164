use plainnote::ids::NoteId;
use plainnote::index::{decode_hex, hex_text, parse_i64, Index, ReconcileSummary};
use plainnote::reconcile::{compute_manifest_hash, FileMeta, ManifestEntry, ScannedFile, VaultScan};
use plainnote::vault::{decode_note, find_note_file, new_note_file, with_tags};

/// A vault held in memory: relative path, text and modification time of
/// each note file.
struct SimVault {
    files: Vec<(String, String, u128)>,
    clock: u128,
}

impl SimVault {
    fn new() -> Self {
        SimVault { files: vec![], clock: 1_000 }
    }

    fn tick(&mut self) -> u128 {
        self.clock += 1_000_000_007;
        self.clock
    }

    fn save_note(&mut self, body: &str, title: Option<&str>) -> NoteId {
        let id = NoteId::new();
        let n = self.files.len();
        let now = format!("2026-05-04T10:{:02}:{:02}Z", n / 60, n % 60);
        let (rel, _fm, text) = new_note_file(&id, &now, body, title.map(|t| t.to_string())).unwrap();
        let t = self.tick();
        self.files.push((rel, text, t));
        id
    }

    fn rewrite(&mut self, pos: usize, text: String) {
        let t = self.tick();
        self.files[pos].1 = text;
        self.files[pos].2 = t;
    }

    fn set_tags(&mut self, id: &NoteId, tags: Vec<String>) {
        let paths: Vec<String> = self.files.iter().map(|f| f.0.clone()).collect();
        let pos = find_note_file(&paths, id).expect("note exists");
        let note = decode_note(self.files[pos].1.as_bytes()).unwrap();
        let text = with_tags(note, tags).unwrap();
        self.rewrite(pos, text);
    }

    fn scan(&self) -> VaultScan {
        let mut scan = VaultScan { entries: vec![], files: vec![] };
        for (rel, text, mtime) in &self.files {
            let bytes = text.as_bytes().to_vec();
            scan.entries.push(ManifestEntry { rel: rel.clone(), mtime_nanos: *mtime, size: bytes.len() as u64 });
            let size = bytes.len() as i64;
            scan.files.push(ScannedFile {
                rel: rel.clone(),
                bytes: Some(bytes),
                meta: Some(FileMeta { mtime: (*mtime / 1_000_000_000) as i64, size }),
            });
        }
        scan
    }
}

fn reconcile(idx: &mut Index, vault: &SimVault) -> ReconcileSummary {
    idx.reconcile_with_vault(&vault.scan())
}

#[test]
fn reconcile_inserts_rows_for_each_note_in_fresh_vault() {
    let mut vault = SimVault::new();
    for i in 0..3 {
        vault.save_note(&format!("note {i}"), None);
    }
    let mut idx = Index::new();
    let summary = reconcile(&mut idx, &vault);
    assert_eq!(summary.inserted, 3);
    assert_eq!(summary.updated, 0);
    assert_eq!(summary.deleted, 0);
    assert_eq!(idx.notes.len(), 3);
}

#[test]
fn reconcile_updates_row_when_file_content_changes() {
    let mut vault = SimVault::new();
    let id = vault.save_note("first body", None);
    let mut idx = Index::new();
    reconcile(&mut idx, &vault);
    let mutated = vault.files[0].1.replace("first body", "second body");
    vault.rewrite(0, mutated);
    let summary = reconcile(&mut idx, &vault);
    assert_eq!(summary.inserted, 0);
    assert_eq!(summary.updated, 1);
    assert_eq!(summary.deleted, 0);
    let preview = idx.notes.iter().find(|r| r.id == id).unwrap().body_preview.clone();
    assert_eq!(preview, "second body");
}

#[test]
fn reconcile_deletes_row_when_file_removed() {
    let mut vault = SimVault::new();
    let id = vault.save_note("x", None);
    let mut idx = Index::new();
    reconcile(&mut idx, &vault);
    vault.files.remove(0);
    let summary = reconcile(&mut idx, &vault);
    assert_eq!(summary.deleted, 1);
    assert_eq!(idx.notes.iter().filter(|r| r.id == id).count(), 0);
}

#[test]
fn reconcile_is_idempotent_when_nothing_changes() {
    let mut vault = SimVault::new();
    vault.save_note("body", None);
    vault.save_note("more", None);
    let mut idx = Index::new();
    reconcile(&mut idx, &vault);
    let second = reconcile(&mut idx, &vault);
    assert_eq!(second.inserted, 0);
    assert_eq!(second.updated, 0);
    assert_eq!(second.deleted, 0);
}

fn links_of(idx: &Index, source: &NoteId) -> Vec<(String, String, Option<String>, Option<NoteId>)> {
    let mut rows: Vec<(String, String, Option<String>, Option<NoteId>)> = idx
        .links
        .iter()
        .filter(|l| l.source == *source)
        .map(|l| (l.raw.clone(), l.target_text.clone(), l.alias.clone(), l.target_id))
        .collect();
    rows.sort_by(|a, b| a.0.cmp(&b.0));
    rows
}

#[test]
fn reconcile_inserts_note_link_rows_for_each_wikilink() {
    let mut vault = SimVault::new();
    let _target = vault.save_note("target body", Some("Target"));
    let source = vault.save_note("see [[Target]] and [[Other|short]]", Some("Source"));
    let mut idx = Index::new();
    reconcile(&mut idx, &vault);
    let rows = links_of(&idx, &source);
    assert_eq!(rows.len(), 2, "got {rows:?}");
    assert!(rows.iter().any(|(_, target, _, _)| target == "Target"));
    assert!(rows.iter().any(|(_, target, alias, _)| target == "Other" && alias.as_deref() == Some("short")));
}

#[test]
fn reconcile_resolves_links_to_target_id_when_title_matches() {
    let mut vault = SimVault::new();
    let target_id = vault.save_note("target body", Some("Target"));
    let source_id = vault.save_note("see [[Target]]", Some("Source"));
    let mut idx = Index::new();
    reconcile(&mut idx, &vault);
    let rows = links_of(&idx, &source_id);
    assert_eq!(rows[0].3.map(|t| t.to_string()).as_deref(), Some(target_id.to_string().as_str()));
}

#[test]
fn reconcile_marks_dangling_links_with_null_target_id() {
    let mut vault = SimVault::new();
    let source_id = vault.save_note("see [[NotARealNote]]", None);
    let mut idx = Index::new();
    reconcile(&mut idx, &vault);
    let rows = links_of(&idx, &source_id);
    assert_eq!(rows[0].3, None, "dangling link must store NULL target_id");
}

#[test]
fn reconcile_resolves_links_to_target_id_when_ulid_matches() {
    let mut vault = SimVault::new();
    let target_id = vault.save_note("body", Some("Title"));
    let source_body = format!("see [[{}]]", target_id.to_string());
    let source_id = vault.save_note(&source_body, None);
    let mut idx = Index::new();
    reconcile(&mut idx, &vault);
    let rows = links_of(&idx, &source_id);
    assert_eq!(rows[0].3.map(|t| t.to_string()).as_deref(), Some(target_id.to_string().as_str()));
}

#[test]
fn reconcile_drops_link_rows_when_link_removed_from_body() {
    let mut vault = SimVault::new();
    let _target = vault.save_note("body", Some("Target"));
    let source_id = vault.save_note("see [[Target]]", None);
    let mut idx = Index::new();
    reconcile(&mut idx, &vault);
    assert_eq!(links_of(&idx, &source_id).len(), 1);
    let pos = vault.files.iter().position(|f| f.1.contains("see [[Target]]")).unwrap();
    let text = vault.files[pos].1.replace("see [[Target]]", "no link here");
    vault.rewrite(pos, text);
    reconcile(&mut idx, &vault);
    assert_eq!(links_of(&idx, &source_id).len(), 0);
}

#[test]
fn reconcile_inserts_note_tag_rows_from_frontmatter() {
    let mut vault = SimVault::new();
    let id = vault.save_note("body", None);
    vault.set_tags(&id, vec!["learning/math/calculus".to_string()]);
    let mut idx = Index::new();
    reconcile(&mut idx, &vault);
    let note_tag_rows: Vec<String> =
        idx.note_tags.iter().filter(|r| r.note_id == id).map(|r| r.tag_path.clone()).collect();
    assert_eq!(note_tag_rows, vec!["learning/math/calculus".to_string()]);
    assert_eq!(idx.tags.len(), 3);
}

#[test]
fn reconcile_adds_new_tags_and_removes_dropped_ones() {
    let mut vault = SimVault::new();
    let id = vault.save_note("body", None);
    vault.set_tags(&id, vec!["a".into(), "b".into()]);
    let mut idx = Index::new();
    reconcile(&mut idx, &vault);
    let mut initial: Vec<String> = idx.note_tags.iter().map(|r| r.tag_path.clone()).collect();
    initial.sort();
    assert_eq!(initial, vec!["a".to_string(), "b".to_string()]);
    vault.set_tags(&id, vec!["a".into(), "c".into()]);
    reconcile(&mut idx, &vault);
    let mut after: Vec<String> = idx.note_tags.iter().map(|r| r.tag_path.clone()).collect();
    after.sort();
    assert_eq!(after, vec!["a".to_string(), "c".to_string()]);
}

#[test]
fn manifest_hash_unchanged_after_clean_shutdown() {
    let mut vault = SimVault::new();
    vault.save_note("a", None);
    vault.save_note("b", None);
    let mut idx = Index::new();
    reconcile(&mut idx, &vault);
    let stored = idx.stored_manifest_hash();
    let recomputed = compute_manifest_hash(&vault.scan().entries);
    assert_eq!(stored, Some(recomputed));
}

#[test]
fn manifest_hash_changes_when_a_file_is_added() {
    let mut vault = SimVault::new();
    vault.save_note("a", None);
    let before = compute_manifest_hash(&vault.scan().entries);
    vault.save_note("b", None);
    let after = compute_manifest_hash(&vault.scan().entries);
    assert_ne!(before, after);
}

#[test]
fn reconcile_with_vault_short_circuits_when_manifest_matches() {
    let mut vault = SimVault::new();
    for _ in 0..50 {
        vault.save_note("body", None);
    }
    let mut idx = Index::new();
    let first = reconcile(&mut idx, &vault);
    assert_eq!(first.inserted, 50);
    assert_eq!(idx.notes.len(), 50);
    let second = reconcile(&mut idx, &vault);
    assert_eq!(second.inserted, 0);
    assert_eq!(second.updated, 0);
    assert_eq!(second.deleted, 0);
    assert_eq!(idx.notes.len(), 50);
}

#[test]
fn reconcile_does_not_short_circuit_when_manifest_differs() {
    let mut vault = SimVault::new();
    vault.save_note("a", None);
    let mut idx = Index::new();
    reconcile(&mut idx, &vault);
    let mut buf = vault.files[0].1.clone();
    buf.push_str("\nappended line for the test");
    vault.rewrite(0, buf);
    let summary = reconcile(&mut idx, &vault);
    assert!(
        summary.inserted + summary.updated + summary.deleted > 0,
        "manifest must invalidate when file size changes; summary={summary:?}"
    );
}

#[test]
fn manifest_hash_ignores_walk_order() {
    let mut vault = SimVault::new();
    vault.save_note("a", None);
    vault.save_note("b", None);
    vault.save_note("c", None);
    let mut entries = vault.scan().entries;
    let forward = compute_manifest_hash(&entries);
    entries.reverse();
    assert_eq!(compute_manifest_hash(&entries), forward);
    assert_eq!(forward.len(), 32);
}

#[test]
fn manifest_hash_of_empty_vault_is_sha256_of_nothing() {
    let h = compute_manifest_hash(&vec![]);
    assert_eq!(hex_text(&h), "e3b0c44298fc1c149afbf4c8996fb92427ae41e4649b934ca495991b7852b855");
}

#[test]
fn unreadable_and_non_note_files_are_skipped_but_seen() {
    let mut vault = SimVault::new();
    vault.save_note("keep", None);
    let mut scan = vault.scan();
    scan.files.push(ScannedFile { rel: "notes/junk.md".into(), bytes: Some(b"not a note".to_vec()), meta: Some(FileMeta { mtime: 1, size: 10 }) });
    scan.files.push(ScannedFile { rel: "notes/bad.md".into(), bytes: Some(vec![0xff, 0xfe]), meta: Some(FileMeta { mtime: 1, size: 2 }) });
    scan.files.push(ScannedFile { rel: "notes/gone.md".into(), bytes: None, meta: None });
    let mut idx = Index::new();
    let s = idx.reconcile_with_vault(&scan);
    assert_eq!(s.inserted, 1);
    assert_eq!(idx.notes.len(), 1);
    assert_eq!(idx.files.len(), 1);
}

#[test]
fn hex_round_trips() {
    let bytes = vec![0u8, 1, 0xab, 0xff, 0x10];
    let text = hex_text(&bytes);
    assert_eq!(text, "0001abff10");
    assert_eq!(decode_hex(&text), Some(bytes));
    assert_eq!(decode_hex("0g"), None);
}

#[test]
fn schema_version_reads_the_meta_value() {
    let mut idx = Index::new();
    assert_eq!(idx.schema_version(), 0);
    idx.put_meta("schema_version", "6");
    assert_eq!(idx.schema_version(), 6);
    idx.put_meta("schema_version", "not a number");
    assert_eq!(idx.schema_version(), 0);
    assert_eq!(parse_i64("-42"), Some(-42));
    assert_eq!(parse_i64("+7"), Some(7));
    assert_eq!(parse_i64("9223372036854775807"), Some(i64::MAX));
    assert_eq!(parse_i64("-9223372036854775808"), Some(i64::MIN));
    assert_eq!(parse_i64("9223372036854775808"), None);
    assert_eq!(parse_i64(""), None);
    assert_eq!(parse_i64("-"), None);
    assert_eq!(parse_i64("1 "), None);
}

#[test]
fn meta_upsert_replaces_value() {
    let mut idx = Index::new();
    assert_eq!(idx.get_meta("k"), None);
    idx.put_meta("k", "v1");
    idx.put_meta("k", "v2");
    assert_eq!(idx.get_meta("k").as_deref(), Some("v2"));
    assert_eq!(idx.meta.len(), 1);
}

#[test]
fn reconcile_row_of_a_moved_note_follows_its_new_path() {
    let mut vault = SimVault::new();
    let id = vault.save_note("moving body\nsecond line", Some("Mover"));
    let mut idx = Index::new();
    reconcile(&mut idx, &vault);
    let old_rel = vault.files[0].0.clone();
    let new_rel = format!("archive/{}", old_rel);
    vault.files[0].0 = new_rel.clone();
    vault.tick();
    let summary = reconcile(&mut idx, &vault);
    assert_eq!(summary.inserted, 1);
    assert_eq!(summary.deleted, 1);
    let rows: Vec<_> = idx.notes.iter().filter(|r| r.id == id).collect();
    assert_eq!(rows.len(), 1);
    assert_eq!(rows[0].path, new_rel);
    assert_eq!(rows[0].title.as_deref(), Some("Mover"));
    assert_eq!(rows[0].body_preview, "moving body");
}

#[test]
fn reconcile_keeps_the_last_file_of_a_shared_id() {
    let mut vault = SimVault::new();
    vault.save_note("first copy", Some("One"));
    let text = vault.files[0].1.replace("first copy", "second copy").replace("title: One", "title: Two");
    let t = vault.tick();
    vault.files.push(("notes/copy.md".to_string(), text, t));
    let mut idx = Index::new();
    reconcile(&mut idx, &vault);
    assert_eq!(idx.notes.len(), 1);
    assert_eq!(idx.notes[0].path, "notes/copy.md");
    assert_eq!(idx.notes[0].body_preview, "second copy");
    assert_eq!(idx.notes[0].title.as_deref(), Some("Two"));
}

#[test]
fn new_index_has_every_table_empty() {
    let idx = Index::new();
    assert!(idx.notes.is_empty());
    assert!(idx.files.is_empty());
    assert!(idx.tags.is_empty());
    assert!(idx.note_tags.is_empty());
    assert!(idx.links.is_empty());
    assert!(idx.meta.is_empty());
    assert!(idx.reminders.is_empty());
}

#[test]
fn reconcile_drops_tags_and_links_of_a_removed_file() {
    let mut vault = SimVault::new();
    let keep = vault.save_note("stays", Some("Keep"));
    let gone = vault.save_note("links to [[Keep]]", Some("Gone"));
    vault.set_tags(&gone, vec!["work::urgent".to_string()]);
    let mut idx = Index::new();
    reconcile(&mut idx, &vault);
    assert!(idx.note_tags.iter().any(|r| r.note_id == gone));
    assert!(idx.links.iter().any(|r| r.source == gone));
    let paths: Vec<String> = vault.files.iter().map(|f| f.0.clone()).collect();
    let pos = find_note_file(&paths, &gone).unwrap();
    vault.files.remove(pos);
    let summary = reconcile(&mut idx, &vault);
    assert_eq!(summary.deleted, 1);
    assert!(idx.notes.iter().all(|r| r.id != gone));
    assert!(idx.note_tags.iter().all(|r| r.note_id != gone));
    assert!(idx.links.iter().all(|r| r.source != gone));
    assert!(idx.notes.iter().any(|r| r.id == keep));
    assert!(idx.tags.is_empty(), "orphan tags are purged: {:?}", idx.tags);
}

#[test]
fn manifest_hash_is_thirty_two_bytes() {
    let mut vault = SimVault::new();
    assert_eq!(compute_manifest_hash(&vault.scan().entries).len(), 32);
    vault.save_note("a", None);
    assert_eq!(compute_manifest_hash(&vault.scan().entries).len(), 32);
}

#[test]
fn reconcile_keeps_unchanged_notes_when_another_changes() {
    let mut vault = SimVault::new();
    let a = vault.save_note("alpha", Some("A"));
    let b = vault.save_note("beta", Some("B"));
    vault.set_tags(&a, vec!["keep".to_string()]);
    let mut idx = Index::new();
    reconcile(&mut idx, &vault);
    let before_a: Vec<_> = idx.notes.iter().filter(|r| r.id == a).map(|r| (r.path.clone(), r.body_preview.clone())).collect();
    let paths: Vec<String> = vault.files.iter().map(|f| f.0.clone()).collect();
    let pb = find_note_file(&paths, &b).unwrap();
    let text = vault.files[pb].1.replace("beta", "gamma");
    vault.rewrite(pb, text);
    let summary = reconcile(&mut idx, &vault);
    assert_eq!(summary.updated, 1);
    assert_eq!(idx.notes.len(), 2);
    let after_a: Vec<_> = idx.notes.iter().filter(|r| r.id == a).map(|r| (r.path.clone(), r.body_preview.clone())).collect();
    assert_eq!(before_a, after_a);
    assert!(idx.note_tags.iter().any(|r| r.note_id == a && r.tag_path == "keep"));
    assert_eq!(idx.notes.iter().find(|r| r.id == b).unwrap().body_preview, "gamma");
}
