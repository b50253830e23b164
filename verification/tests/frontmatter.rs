use plainnote::frontmatter::{parse, validate_iso8601_z, yaml_scalar, Attachment, Frontmatter, FrontmatterError};
use plainnote::ids::NoteId;

const MINIMAL: &str = "---\n\
id: 01HXYZ0000000000000000000A\n\
created: 2026-05-04T10:23:11Z\n\
updated: 2026-05-04T10:25:02Z\n\
---\n\nBody text after the closing fence.";

#[test]
fn parses_minimal_valid_frontmatter() {
    let (fm, body) = parse(MINIMAL).expect("must parse");
    assert_eq!(fm.id.to_string(), "01HXYZ0000000000000000000A");
    assert_eq!(fm.title, None);
    assert!(fm.tags.is_empty());
    assert!(fm.links.is_empty());
    assert!(fm.attachments.is_empty());
    assert_eq!(body.trim(), "Body text after the closing fence.");
}

#[test]
fn parses_full_schema() {
    let input = "---\n\
id: 01HXYZ0000000000000000000A\n\
created: 2026-05-04T10:23:11Z\n\
updated: 2026-05-04T10:25:02Z\n\
title: Optional title\n\
tags:\n  \
- learning/mathematics/calculus\n  \
- work/projectTTK\n\
links:\n  \
- 01HABC0000000000000000000A\n  \
- 01HDEF0000000000000000000A\n\
attachments:\n  \
- kind: image\n    \
file: img-001.png\n  \
- kind: audio\n    \
file: audio-001.opus\n    \
transcript: audio-001.transcript.txt\n\
---\nBody";
    let (fm, _) = parse(input).expect("must parse full schema");
    assert_eq!(fm.title.as_deref(), Some("Optional title"));
    assert_eq!(fm.tags.len(), 2);
    assert_eq!(fm.tags[0], "learning/mathematics/calculus");
    assert_eq!(fm.links.len(), 2);
    assert_eq!(fm.attachments.len(), 2);
    assert!(matches!(fm.attachments[0], Attachment::Image { .. }));
    assert!(matches!(fm.attachments[1], Attachment::Audio { transcript: Some(_), .. }));
}

#[test]
fn rejects_unknown_top_level_keys() {
    let input = "---\n\
id: 01HXYZ0000000000000000000A\n\
created: 2026-05-04T10:23:11Z\n\
updated: 2026-05-04T10:25:02Z\n\
secret_telemetry_field: please_send_data\n\
---\nBody";
    let err = parse(input).expect_err("unknown field must be a parse error");
    assert!(matches!(err, FrontmatterError::Yaml(_)), "got {err:?}");
}

#[test]
fn rejects_yaml_anchors() {
    let input = "---\n\
id: &anchor 01HXYZ0000000000000000000A\n\
created: 2026-05-04T10:23:11Z\n\
updated: 2026-05-04T10:25:02Z\n\
---\nBody";
    let err = parse(input).expect_err("anchors must be rejected");
    assert!(matches!(err, FrontmatterError::DisallowedYaml(_)));
}

#[test]
fn rejects_yaml_explicit_tags() {
    let input = "---\n\
id: !!str 01HXYZ0000000000000000000A\n\
created: 2026-05-04T10:23:11Z\n\
updated: 2026-05-04T10:25:02Z\n\
---\nBody";
    let err = parse(input).expect_err("explicit tags must be rejected");
    assert!(matches!(err, FrontmatterError::DisallowedYaml(_)));
}

#[test]
fn rejects_missing_opening_fence() {
    let input = "id: 01HXYZ0000000000000000000A\n";
    assert!(matches!(parse(input).unwrap_err(), FrontmatterError::MissingOpeningFence));
}

#[test]
fn rejects_missing_closing_fence() {
    let input = "---\nid: 01HXYZ0000000000000000000A\nno fence below";
    assert!(matches!(parse(input).unwrap_err(), FrontmatterError::MissingClosingFence));
}

#[test]
fn rejects_invalid_id_in_frontmatter() {
    let input = "---\n\
id: not-a-ulid\n\
created: 2026-05-04T10:23:11Z\n\
updated: 2026-05-04T10:25:02Z\n\
---\nBody";
    assert!(parse(input).is_err());
}

fn sample_full() -> Frontmatter {
    Frontmatter {
        id: NoteId::parse("01HXYZ0000000000000000000A").unwrap(),
        created: "2026-05-04T10:23:11Z".to_string(),
        updated: "2026-05-04T10:25:02Z".to_string(),
        title: Some("Optional title".to_string()),
        tags: vec!["learning/mathematics/calculus".to_string(), "work/projectTTK".to_string()],
        links: vec!["01HABC0000000000000000000A".to_string(), "01HDEF0000000000000000000A".to_string()],
        attachments: vec![
            Attachment::Image { file: "img-001.png".to_string() },
            Attachment::Audio {
                file: "audio-001.opus".to_string(),
                transcript: Some("audio-001.transcript.txt".to_string()),
            },
        ],
    }
}

#[test]
fn write_emits_canonical_form_with_fences_and_blank_line() {
    let fm = sample_full();
    let out = plainnote::frontmatter::write(&fm, "Body text").unwrap();
    assert!(out.starts_with("---\n"));
    assert!(out.contains("\n---\n\n"), "must have blank line after fence");
    assert!(out.ends_with("Body text"));
}

#[test]
fn write_emits_keys_in_canonical_order() {
    let fm = sample_full();
    let out = plainnote::frontmatter::write(&fm, "").unwrap();
    let positions: Vec<usize> = ["id:", "created:", "updated:", "title:", "tags:", "links:", "attachments:"]
        .iter()
        .map(|k| out.find(k).unwrap_or_else(|| panic!("missing key: {k}")))
        .collect();
    for w in positions.windows(2) {
        assert!(w[0] < w[1], "keys out of canonical order: {positions:?}");
    }
}

#[test]
fn write_skips_empty_optional_fields() {
    let fm = Frontmatter {
        id: NoteId::parse("01HXYZ0000000000000000000A").unwrap(),
        created: "2026-05-04T10:23:11Z".to_string(),
        updated: "2026-05-04T10:25:02Z".to_string(),
        title: None,
        tags: vec![],
        links: vec![],
        attachments: vec![],
    };
    let out = plainnote::frontmatter::write(&fm, "Body").unwrap();
    assert!(!out.contains("title:"));
    assert!(!out.contains("tags:"));
    assert!(!out.contains("links:"));
    assert!(!out.contains("attachments:"));
}

#[test]
fn write_emits_tags_in_block_style() {
    let fm = sample_full();
    let out = plainnote::frontmatter::write(&fm, "").unwrap();
    assert!(
        out.contains("tags:\n  - learning/mathematics/calculus\n  - work/projectTTK\n"),
        "tags must be in block form, got:\n{out}"
    );
}

#[test]
fn write_then_parse_is_identity() {
    let fm = sample_full();
    let body = "Body content with [[wikilink]] and #tag";
    let out = plainnote::frontmatter::write(&fm, body).unwrap();
    let (round, round_body) = parse(&out).unwrap();
    assert_eq!(round, fm);
    assert_eq!(round_body, body);
}

#[test]
fn write_rejects_invalid_iso8601_timestamp() {
    let mut fm = sample_full();
    fm.created = "yesterday".to_string();
    assert!(plainnote::frontmatter::write(&fm, "").is_err());
}

#[test]
fn write_is_byte_stable() {
    let fm = sample_full();
    let a = plainnote::frontmatter::write(&fm, "Body").unwrap();
    let b = plainnote::frontmatter::write(&fm, "Body").unwrap();
    assert_eq!(a, b);
}

#[test]
fn rejects_unknown_attachment_kind() {
    let input = "---\n\
id: 01HXYZ0000000000000000000A\n\
created: 2026-05-04T10:23:11Z\n\
updated: 2026-05-04T10:25:02Z\n\
attachments:\n  \
- kind: telemetry\n    \
file: spy.json\n\
---\nBody";
    assert!(parse(input).is_err());
}

#[test]
fn write_emits_exact_minimal_text() {
    let fm = Frontmatter {
        id: NoteId::parse("01HXYZ0000000000000000000A").unwrap(),
        created: "2026-05-04T10:23:11Z".to_string(),
        updated: "2026-05-04T10:25:02Z".to_string(),
        title: None,
        tags: vec![],
        links: vec![],
        attachments: vec![],
    };
    let out = plainnote::frontmatter::write(&fm, "Body").unwrap();
    assert_eq!(
        out,
        "---\nid: 01HXYZ0000000000000000000A\ncreated: \"2026-05-04T10:23:11Z\"\nupdated: \"2026-05-04T10:25:02Z\"\n---\n\nBody"
    );
}

#[test]
fn titles_that_look_like_other_yaml_are_quoted_and_round_trip() {
    for title in ["yes", "null", "12", "1.5e3", "a: b", "- item", "#hash", "", " lead", "tab\there", "quote \" and \\"] {
        let mut fm = sample_full();
        fm.title = Some(title.to_string());
        let out = plainnote::frontmatter::write(&fm, "b").unwrap();
        let (round, body) = parse(&out).unwrap_or_else(|e| panic!("{title:?}: {e:?}\n{out}"));
        assert_eq!(round.title.as_deref(), Some(title), "{out}");
        assert_eq!(body, "b");
    }
}

#[test]
fn yaml_scalar_quotes_only_when_needed() {
    assert_eq!(yaml_scalar("plain"), "plain");
    assert_eq!(yaml_scalar("true"), "\"true\"");
    assert_eq!(yaml_scalar("42"), "\"42\"");
    assert_eq!(yaml_scalar("a\"b"), "a\"b");
    assert_eq!(yaml_scalar("\"q\\"), "\"\\\"q\\\\\"");
    assert_eq!(yaml_scalar(""), "\"\"");
}

#[test]
fn timestamp_shape_is_checked() {
    assert!(validate_iso8601_z("2026-05-04T10:23:11Z").is_ok());
    assert!(validate_iso8601_z("2026-05-04T10:23:11").is_err());
    assert!(validate_iso8601_z("2026-05-04 10:23:11Z").is_err());
    assert!(matches!(validate_iso8601_z("yesterday"), Err(FrontmatterError::DisallowedYaml(_))));
}

#[test]
fn frontmatter_error_messages() {
    assert_eq!(
        FrontmatterError::MissingOpeningFence.to_string(),
        "frontmatter must start with a `---` fence on its own line"
    );
    assert_eq!(FrontmatterError::MissingClosingFence.to_string(), "frontmatter has no closing `---` fence");
    assert_eq!(FrontmatterError::Yaml("x".into()).to_string(), "YAML parse error: x");
    assert_eq!(
        FrontmatterError::DisallowedYaml("y").to_string(),
        "YAML feature is not allowed in this schema: y"
    );
}
