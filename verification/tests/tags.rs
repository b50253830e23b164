use plainnote::commands::list_tags;
use plainnote::ids::NoteId;
use plainnote::index::Index;
use plainnote::tags::{
    add_tag_to_note, ensure_tag, list_tags_for_note, purge_orphan_tags, remove_tag_from_note, tag_closure,
    validate_path, TagError,
};

fn tag_paths_sorted(idx: &Index) -> Vec<String> {
    let mut v = idx.tags.clone();
    v.sort();
    v
}

fn closure_rows(idx: &Index) -> Vec<(String, String, i64)> {
    let mut rows: Vec<(String, String, i64)> =
        tag_closure(idx).into_iter().map(|(a, d, k)| (a, d, k as i64)).collect();
    rows.sort_by(|x, y| x.0.cmp(&y.0).then(x.2.cmp(&y.2)));
    rows
}

#[test]
fn ensure_tag_creates_tag_for_each_ancestor() {
    let mut idx = Index::new();
    ensure_tag(&mut idx, "learning/math/calculus").unwrap();
    assert_eq!(
        tag_paths_sorted(&idx),
        vec!["learning".to_string(), "learning/math".to_string(), "learning/math/calculus".to_string()]
    );
}

#[test]
fn ensure_tag_creates_full_closure() {
    let mut idx = Index::new();
    ensure_tag(&mut idx, "learning/math/calculus").unwrap();
    let rows = closure_rows(&idx);
    let expected: Vec<(String, String, i64)> = vec![
        ("learning".into(), "learning".into(), 0),
        ("learning".into(), "learning/math".into(), 1),
        ("learning".into(), "learning/math/calculus".into(), 2),
        ("learning/math".into(), "learning/math".into(), 0),
        ("learning/math".into(), "learning/math/calculus".into(), 1),
        ("learning/math/calculus".into(), "learning/math/calculus".into(), 0),
    ];
    assert_eq!(rows, expected);
}

#[test]
fn ensure_tag_records_parent_pointer() {
    let mut idx = Index::new();
    ensure_tag(&mut idx, "learning/math/calculus").unwrap();
    let rows = list_tags(&idx);
    let parent_of_calculus = rows.iter().find(|r| r.path == "learning/math/calculus").unwrap().parent.clone();
    assert_eq!(parent_of_calculus.as_deref(), Some("learning/math"));
    let parent_of_root = rows.iter().find(|r| r.path == "learning").unwrap().parent.clone();
    assert_eq!(parent_of_root, None);
}

#[test]
fn ensure_tag_is_idempotent_on_re_insert() {
    let mut idx = Index::new();
    ensure_tag(&mut idx, "learning/math").unwrap();
    ensure_tag(&mut idx, "learning/math").unwrap();
    ensure_tag(&mut idx, "learning/math").unwrap();
    assert_eq!(idx.tags.len(), 2);
    assert_eq!(tag_closure(&idx).len(), 3);
}

#[test]
fn ensure_tag_handles_overlapping_branches() {
    let mut idx = Index::new();
    ensure_tag(&mut idx, "learning/math/calculus").unwrap();
    ensure_tag(&mut idx, "learning/math/algebra").unwrap();
    assert_eq!(
        tag_paths_sorted(&idx),
        vec![
            "learning".to_string(),
            "learning/math".to_string(),
            "learning/math/algebra".to_string(),
            "learning/math/calculus".to_string(),
        ]
    );
}

#[test]
fn ensure_tag_rejects_invalid_paths() {
    let mut idx = Index::new();
    for bad in ["", "/leading", "trailing/", "double//slash", "with spaces", "with\ttab", "with\0nul", "/"] {
        let result = ensure_tag(&mut idx, bad);
        assert!(matches!(result, Err(TagError::Invalid(_))), "must reject {bad:?}, got {result:?}");
    }
    assert!(idx.tags.is_empty());
}

#[test]
fn ensure_tag_handles_single_segment() {
    let mut idx = Index::new();
    ensure_tag(&mut idx, "inbox").unwrap();
    assert_eq!(idx.tags, vec!["inbox".to_string()]);
    let closure = closure_rows(&idx);
    assert_eq!(closure, vec![("inbox".into(), "inbox".into(), 0)]);
}

#[test]
fn add_tag_to_note_creates_association_and_ensures_tag() {
    let mut idx = Index::new();
    let id = NoteId::new();
    add_tag_to_note(&mut idx, &id, "learning/math").unwrap();
    assert_eq!(idx.tags.len(), 2);
    assert_eq!(idx.note_tags.len(), 1);
}

#[test]
fn add_tag_to_note_is_idempotent() {
    let mut idx = Index::new();
    let id = NoteId::new();
    add_tag_to_note(&mut idx, &id, "math").unwrap();
    add_tag_to_note(&mut idx, &id, "math").unwrap();
    assert_eq!(idx.note_tags.len(), 1);
}

#[test]
fn list_tags_for_note_returns_only_explicitly_assigned() {
    let mut idx = Index::new();
    let id = NoteId::new();
    add_tag_to_note(&mut idx, &id, "learning/math/calculus").unwrap();
    add_tag_to_note(&mut idx, &id, "work/projectTTK").unwrap();
    let mut tags = list_tags_for_note(&idx, &id).unwrap();
    tags.sort();
    assert_eq!(tags, vec!["learning/math/calculus".to_string(), "work/projectTTK".to_string()]);
}

#[test]
fn remove_tag_from_note_drops_only_that_association() {
    let mut idx = Index::new();
    let id = NoteId::new();
    add_tag_to_note(&mut idx, &id, "math").unwrap();
    add_tag_to_note(&mut idx, &id, "physics").unwrap();
    remove_tag_from_note(&mut idx, &id, "math").unwrap();
    let tags = list_tags_for_note(&idx, &id).unwrap();
    assert_eq!(tags, vec!["physics".to_string()]);
}

#[test]
fn purge_orphan_tags_removes_unreferenced_leaves() {
    let mut idx = Index::new();
    let id = NoteId::new();
    add_tag_to_note(&mut idx, &id, "learning/math/calculus").unwrap();
    add_tag_to_note(&mut idx, &id, "learning/math/algebra").unwrap();
    remove_tag_from_note(&mut idx, &id, "learning/math/calculus").unwrap();
    let removed = purge_orphan_tags(&mut idx).unwrap();
    assert_eq!(removed, vec!["learning/math/calculus".to_string()]);
    remove_tag_from_note(&mut idx, &id, "learning/math/algebra").unwrap();
    let mut sorted = purge_orphan_tags(&mut idx).unwrap();
    sorted.sort();
    assert_eq!(
        sorted,
        vec!["learning".to_string(), "learning/math".to_string(), "learning/math/algebra".to_string()]
    );
}

#[test]
fn purge_keeps_ancestor_when_a_sibling_branch_still_has_notes() {
    let mut idx = Index::new();
    let id_a = NoteId::new();
    let id_b = NoteId::new();
    add_tag_to_note(&mut idx, &id_a, "learning/math/calculus").unwrap();
    add_tag_to_note(&mut idx, &id_b, "learning/math/algebra").unwrap();
    remove_tag_from_note(&mut idx, &id_a, "learning/math/calculus").unwrap();
    let removed = purge_orphan_tags(&mut idx).unwrap();
    assert_eq!(removed, vec!["learning/math/calculus".to_string()]);
    let remaining = tag_paths_sorted(&idx);
    assert!(remaining.contains(&"learning/math".to_string()));
    assert!(remaining.contains(&"learning".to_string()));
    assert!(remaining.contains(&"learning/math/algebra".to_string()));
}

#[test]
fn validate_path_splits_segments() {
    assert_eq!(validate_path("a/b/c").unwrap(), vec!["a".to_string(), "b".to_string(), "c".to_string()]);
    assert!(matches!(validate_path("a//b"), Err(TagError::Invalid(_))));
}

#[test]
fn list_tags_counts_literal_assignments_in_path_order() {
    let mut idx = Index::new();
    let a = NoteId::new();
    let b = NoteId::new();
    add_tag_to_note(&mut idx, &a, "work/projectTTK").unwrap();
    add_tag_to_note(&mut idx, &b, "work/projectTTK").unwrap();
    add_tag_to_note(&mut idx, &a, "learning").unwrap();
    let rows = list_tags(&idx);
    let flat: Vec<(String, Option<String>, i64)> =
        rows.into_iter().map(|r| (r.path, r.parent, r.note_count)).collect();
    assert_eq!(
        flat,
        vec![
            ("learning".to_string(), None, 1),
            ("work".to_string(), None, 0),
            ("work/projectTTK".to_string(), Some("work".to_string()), 2),
        ]
    );
}
