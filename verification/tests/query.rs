use std::collections::HashSet;

use plainnote::ids::NoteId;
use plainnote::index::Index;
use plainnote::query::{find_notes, search_by_title_prefix, QueryMode};
use plainnote::reconcile::{FileMeta, ManifestEntry, ScannedFile, VaultScan};
use plainnote::tags::add_tag_to_note;
use plainnote::vault::new_note_file;

fn stamp(i: usize) -> String {
    format!("2026-05-04T10:{:02}:{:02}Z", i / 60, i % 60)
}

fn save_note(scan: &mut VaultScan, body: &str, title: Option<&str>) -> NoteId {
    let id = NoteId::new();
    let i = scan.files.len();
    let (rel, _fm, text) = new_note_file(&id, &stamp(i), body, title.map(|s| s.to_string())).unwrap();
    let bytes = text.into_bytes();
    scan.entries.push(ManifestEntry { rel: rel.clone(), mtime_nanos: i as u128, size: bytes.len() as u64 });
    let size = bytes.len() as i64;
    scan.files.push(ScannedFile { rel, bytes: Some(bytes), meta: Some(FileMeta { mtime: i as i64, size }) });
    id
}

struct Fixture {
    idx: Index,
    calc: NoteId,
    algebra: NoteId,
    physics: NoteId,
    ttk: NoteId,
    cross: NoteId,
}

fn fixture() -> Fixture {
    let mut scan = VaultScan { entries: vec![], files: vec![] };
    let n1 = save_note(&mut scan, "body 1", None);
    let n2 = save_note(&mut scan, "body 2", None);
    let n3 = save_note(&mut scan, "body 3", None);
    let n4 = save_note(&mut scan, "body 4", None);
    let n5 = save_note(&mut scan, "body 5", None);
    let _n6 = save_note(&mut scan, "body 6", None);
    let mut idx = Index::new();
    idx.reconcile_with_vault(&scan);
    add_tag_to_note(&mut idx, &n1, "learning/mathematics/calculus").unwrap();
    add_tag_to_note(&mut idx, &n1, "learning/mathematics/calculus/tomasCalculusBook").unwrap();
    add_tag_to_note(&mut idx, &n2, "learning/mathematics/algebra").unwrap();
    add_tag_to_note(&mut idx, &n3, "learning/physics").unwrap();
    add_tag_to_note(&mut idx, &n4, "work/projectTTK").unwrap();
    add_tag_to_note(&mut idx, &n5, "learning/mathematics/calculus").unwrap();
    add_tag_to_note(&mut idx, &n5, "work/projectTTK").unwrap();
    Fixture { idx, calc: n1, algebra: n2, physics: n3, ttk: n4, cross: n5 }
}

fn as_set(v: Vec<NoteId>) -> HashSet<String> {
    v.into_iter().map(|id| id.to_string()).collect()
}

fn set_of(ids: &[NoteId]) -> HashSet<String> {
    ids.iter().map(|id| id.to_string()).collect()
}

#[test]
fn strict_intersection_with_one_tag_returns_exact_matches() {
    let f = fixture();
    let result = find_notes(&f.idx, &["learning/mathematics/calculus".into()], QueryMode::StrictIntersection).unwrap();
    assert_eq!(as_set(result), set_of(&[f.calc, f.cross]));
}

#[test]
fn strict_intersection_with_two_literal_tags_returns_only_cross_tagged() {
    let f = fixture();
    let result = find_notes(
        &f.idx,
        &["learning/mathematics/calculus".into(), "work/projectTTK".into()],
        QueryMode::StrictIntersection,
    )
    .unwrap();
    assert_eq!(as_set(result), set_of(&[f.cross]));
}

#[test]
fn strict_intersection_does_not_match_via_ancestors() {
    let f = fixture();
    let result = find_notes(&f.idx, &["learning/mathematics".into()], QueryMode::StrictIntersection).unwrap();
    assert!(result.is_empty(), "ancestor literal must not pull in descendants in strict mode: {result:?}");
}

#[test]
fn strict_intersection_with_no_tags_returns_empty() {
    let f = fixture();
    let result = find_notes(&f.idx, &[], QueryMode::StrictIntersection).unwrap();
    assert!(result.is_empty());
}

#[test]
fn default_query_mode_is_recursive_intersection() {
    assert_eq!(QueryMode::default(), QueryMode::RecursiveIntersection);
}

#[test]
fn recursive_intersection_with_one_ancestor_tag_pulls_descendants() {
    let f = fixture();
    let result = find_notes(&f.idx, &["learning/mathematics".into()], QueryMode::RecursiveIntersection).unwrap();
    assert_eq!(as_set(result), set_of(&[f.calc, f.algebra, f.cross]));
}

#[test]
fn recursive_intersection_with_two_branches_picks_cross_cut() {
    let f = fixture();
    let result = find_notes(
        &f.idx,
        &["learning/mathematics".into(), "work".into()],
        QueryMode::RecursiveIntersection,
    )
    .unwrap();
    assert_eq!(as_set(result), set_of(&[f.cross]));
}

#[test]
fn recursive_intersection_with_root_branch_returns_subtree() {
    let f = fixture();
    let result = find_notes(&f.idx, &["learning".into()], QueryMode::RecursiveIntersection).unwrap();
    assert_eq!(as_set(result), set_of(&[f.calc, f.algebra, f.physics, f.cross]));
}

#[test]
fn recursive_intersection_with_disjoint_branches_returns_empty() {
    let f = fixture();
    let result = find_notes(
        &f.idx,
        &["learning/physics".into(), "work/projectTTK".into()],
        QueryMode::RecursiveIntersection,
    )
    .unwrap();
    assert!(result.is_empty());
}

#[test]
fn strict_union_with_one_tag_matches_exact_tag_only() {
    let f = fixture();
    let result = find_notes(&f.idx, &["learning/mathematics/calculus".into()], QueryMode::StrictUnion).unwrap();
    assert_eq!(as_set(result), set_of(&[f.calc, f.cross]));
}

#[test]
fn strict_union_with_two_tags_matches_either() {
    let f = fixture();
    let result = find_notes(
        &f.idx,
        &["learning/mathematics/algebra".into(), "work/projectTTK".into()],
        QueryMode::StrictUnion,
    )
    .unwrap();
    assert_eq!(as_set(result), set_of(&[f.algebra, f.ttk, f.cross]));
}

#[test]
fn strict_union_does_not_pull_descendants_via_ancestors() {
    let f = fixture();
    let result = find_notes(&f.idx, &["learning/mathematics".into()], QueryMode::StrictUnion).unwrap();
    assert!(result.is_empty(), "ancestor literal must not pull descendants: {result:?}");
}

#[test]
fn strict_union_dedupes_results() {
    let f = fixture();
    let result = find_notes(
        &f.idx,
        &["learning/mathematics/calculus".into(), "work/projectTTK".into()],
        QueryMode::StrictUnion,
    )
    .unwrap();
    let count = result.len();
    let unique = as_set(result).len();
    assert_eq!(count, unique, "results must be deduped");
}

#[test]
fn recursive_union_with_one_root_returns_subtree() {
    let f = fixture();
    let result = find_notes(&f.idx, &["learning".into()], QueryMode::RecursiveUnion).unwrap();
    assert_eq!(as_set(result), set_of(&[f.calc, f.algebra, f.physics, f.cross]));
}

#[test]
fn recursive_union_with_two_branches_unions_subtrees() {
    let f = fixture();
    let result = find_notes(&f.idx, &["learning/mathematics".into(), "work".into()], QueryMode::RecursiveUnion).unwrap();
    assert_eq!(as_set(result), set_of(&[f.calc, f.algebra, f.ttk, f.cross]));
}

#[test]
fn recursive_union_dedupes_when_branches_overlap() {
    let f = fixture();
    let result = find_notes(&f.idx, &["learning".into(), "learning/mathematics".into()], QueryMode::RecursiveUnion).unwrap();
    let count = result.len();
    let unique = as_set(result).len();
    assert_eq!(count, unique);
}

#[test]
fn single_tag_strict_intersection_equals_strict_union() {
    let f = fixture();
    let a = find_notes(&f.idx, &["work/projectTTK".into()], QueryMode::StrictIntersection).unwrap();
    let b = find_notes(&f.idx, &["work/projectTTK".into()], QueryMode::StrictUnion).unwrap();
    assert_eq!(as_set(a), as_set(b));
}

#[test]
fn single_tag_recursive_intersection_equals_recursive_union() {
    let f = fixture();
    let a = find_notes(&f.idx, &["learning/mathematics".into()], QueryMode::RecursiveIntersection).unwrap();
    let b = find_notes(&f.idx, &["learning/mathematics".into()], QueryMode::RecursiveUnion).unwrap();
    assert_eq!(as_set(a), as_set(b));
}

fn title_fixture() -> Index {
    let mut scan = VaultScan { entries: vec![], files: vec![] };
    for t in &[Some("Calculus"), Some("calculus II"), Some("Cosmology"), Some("Quantum"), Some("Bayes' Theorem"), None] {
        save_note(&mut scan, "body", *t);
    }
    let mut idx = Index::new();
    idx.reconcile_with_vault(&scan);
    idx
}

#[test]
fn empty_prefix_returns_no_rows() {
    let idx = title_fixture();
    let hits = search_by_title_prefix(&idx, "", 8).unwrap();
    assert!(hits.is_empty(), "got {hits:?}");
}

#[test]
fn prefix_search_is_case_insensitive() {
    let idx = title_fixture();
    let hits = search_by_title_prefix(&idx, "cal", 8).unwrap();
    let titles: Vec<&str> = hits.iter().map(|h| h.title.as_str()).collect();
    assert!(titles.contains(&"Calculus"), "got {titles:?}");
    assert!(titles.contains(&"calculus II"), "got {titles:?}");
}

#[test]
fn results_are_alphabetic_by_title() {
    let idx = title_fixture();
    let hits = search_by_title_prefix(&idx, "c", 8).unwrap();
    let titles: Vec<String> = hits.iter().map(|h| h.title.to_lowercase()).collect();
    let mut sorted = titles.clone();
    sorted.sort();
    assert_eq!(titles, sorted);
}

#[test]
fn limit_caps_result_count() {
    let idx = title_fixture();
    let hits = search_by_title_prefix(&idx, "c", 2).unwrap();
    assert!(hits.len() <= 2, "got {} hits", hits.len());
}

#[test]
fn excludes_notes_with_null_title() {
    let idx = title_fixture();
    let hits = search_by_title_prefix(&idx, "b", 8).unwrap();
    assert_eq!(hits.len(), 1);
    assert_eq!(hits[0].title, "Bayes' Theorem");
}

#[test]
fn like_metacharacters_are_escaped() {
    let mut scan = VaultScan { entries: vec![], files: vec![] };
    save_note(&mut scan, "body", Some("100% pure"));
    save_note(&mut scan, "body", Some("anyword"));
    let mut idx = Index::new();
    idx.reconcile_with_vault(&scan);
    let hits = search_by_title_prefix(&idx, "100%", 8).unwrap();
    assert_eq!(hits.len(), 1);
    assert_eq!(hits[0].title, "100% pure");
}

#[test]
fn results_are_ordered_by_created_descending() {
    let f = fixture();
    let result = find_notes(&f.idx, &["learning".into()], QueryMode::RecursiveIntersection).unwrap();
    let mut last: Option<String> = None;
    for id in &result {
        let created = f.idx.notes.iter().find(|r| r.id == *id).unwrap().created.clone();
        if let Some(prev) = &last {
            assert!(prev >= &created, "results must be ordered created DESC: prev={prev:?} next={created:?}");
        }
        last = Some(created);
    }
    assert_eq!(result.len(), 4);
    assert_eq!(result[0], f.cross);
    assert_eq!(result[3], f.calc);
}

#[test]
fn title_search_cap_is_fifty() {
    let mut scan = VaultScan { entries: vec![], files: vec![] };
    for i in 0..60 {
        save_note(&mut scan, "body", Some(&format!("Note {i:02}")));
    }
    let mut idx = Index::new();
    idx.reconcile_with_vault(&scan);
    let hits = search_by_title_prefix(&idx, "note", 500).unwrap();
    assert_eq!(hits.len(), 50);
    assert_eq!(hits[0].title, "Note 00");
    assert_eq!(hits[49].title, "Note 49");
}
