use std::collections::HashSet;

use plainnote::frontmatter;
use plainnote::ids::NoteId;
use plainnote::index::{Index, LinkRow};
use plainnote::reconcile::{FileMeta, ManifestEntry, ScannedFile, VaultScan};
use plainnote::vault::{find_note_file, new_note_file};

struct SimVault {
    files: Vec<(String, String, u128)>,
    clock: u128,
}

impl SimVault {
    fn new() -> Self {
        SimVault { files: vec![], clock: 0 }
    }

    fn scan(&self) -> VaultScan {
        let mut scan = VaultScan { entries: vec![], files: vec![] };
        for (rel, text, mtime) in &self.files {
            let bytes = text.as_bytes().to_vec();
            scan.entries.push(ManifestEntry { rel: rel.clone(), mtime_nanos: *mtime, size: bytes.len() as u64 });
            let size = bytes.len() as i64;
            scan.files.push(ScannedFile { rel: rel.clone(), bytes: Some(bytes), meta: Some(FileMeta { mtime: 0, size }) });
        }
        scan
    }
}

fn save(vault: &mut SimVault, title: &str, body: &str) -> NoteId {
    let id = NoteId::new();
    let n = vault.files.len();
    let (rel, _fm, text) =
        new_note_file(&id, &format!("2026-05-04T10:23:{:02}Z", n), body, Some(title.to_string())).expect("save");
    vault.clock += 1;
    vault.files.push((rel, text, vault.clock));
    id
}

fn rename(vault: &mut SimVault, id: &NoteId, new_title: &str) {
    let paths: Vec<String> = vault.files.iter().map(|f| f.0.clone()).collect();
    let pos = find_note_file(&paths, id).expect("no file for id");
    let (mut fm, body) = frontmatter::parse(&vault.files[pos].1).expect("parse");
    fm.title = Some(new_title.to_string());
    let serialized = frontmatter::write(&fm, &body).expect("write");
    vault.clock += 1;
    vault.files[pos].1 = serialized;
    vault.files[pos].2 = vault.clock;
}

#[test]
fn backlinks_resolve_through_title_and_id() {
    let mut vault = SimVault::new();
    let a = save(&mut vault, "Calculus", "the math note\n");
    let b_body = "see [[Calculus]] for context\n".to_string();
    let c_body = format!("see [[{}]] also\n", a.to_string());
    let b = save(&mut vault, "References", &b_body);
    let c = save(&mut vault, "Cross-ref", &c_body);
    let mut idx = Index::new();
    idx.reconcile_with_vault(&vault.scan());
    let backlinks = idx.backlinks_of_note(&a);
    let source_ids: HashSet<&str> = backlinks.iter().map(|s| s.as_str()).collect();
    assert!(source_ids.contains(b.to_string().as_str()), "B missing: {source_ids:?}");
    assert!(source_ids.contains(c.to_string().as_str()), "C missing: {source_ids:?}");
}

#[test]
fn ulid_links_survive_rename_title_links_become_dangling() {
    let mut vault = SimVault::new();
    let a = save(&mut vault, "Calculus", "the math note\n");
    let b_body = "see [[Calculus]] please\n".to_string();
    let c_body = format!("see [[{}]] please\n", a.to_string());
    let b = save(&mut vault, "References", &b_body);
    let c = save(&mut vault, "Cross-ref", &c_body);
    let mut idx = Index::new();
    idx.reconcile_with_vault(&vault.scan());
    assert_eq!(idx.backlinks_of_note(&a).len(), 2);
    rename(&mut vault, &a, "Differential Calculus");
    idx.reconcile_with_vault(&vault.scan());
    let backlinks = idx.backlinks_of_note(&a);
    let source_ids: HashSet<&str> = backlinks.iter().map(|s| s.as_str()).collect();
    assert!(source_ids.contains(c.to_string().as_str()), "ULID-form link from C must survive rename: {source_ids:?}");
    assert!(
        !source_ids.contains(b.to_string().as_str()),
        "title-form link from B should now be dangling: {source_ids:?}"
    );
}

#[test]
fn dangling_links_have_null_target_id() {
    let mut vault = SimVault::new();
    let _a = save(&mut vault, "Calculus", "real note\n");
    let b = save(&mut vault, "Refs", "see [[NoSuchNote]]\n");
    let mut idx = Index::new();
    idx.reconcile_with_vault(&vault.scan());
    let rows: Vec<LinkRow> = idx.outbound_links_of_note(&b);
    assert_eq!(rows.len(), 1);
    assert_eq!(rows[0].target_text, "NoSuchNote");
    assert!(rows[0].target_id.is_none(), "dangling link must have NULL target_id");
}
