use plainnote::links::parse;

#[test]
fn parses_a_single_bare_wikilink() {
    let parsed = parse("see [[Calculus]] for more");
    assert_eq!(parsed.len(), 1);
    assert_eq!(parsed[0].target_text, "Calculus");
    assert!(parsed[0].alias.is_none());
    assert_eq!(&parsed[0].raw, "[[Calculus]]");
}

#[test]
fn parses_alias_after_pipe() {
    let parsed = parse("see [[Calculus|the calc note]] please");
    assert_eq!(parsed.len(), 1);
    assert_eq!(parsed[0].target_text, "Calculus");
    assert_eq!(parsed[0].alias.as_deref(), Some("the calc note"));
    assert_eq!(&parsed[0].raw, "[[Calculus|the calc note]]");
}

#[test]
fn parses_ulid_target() {
    let parsed = parse("here: [[01HXYZ0000000000000000000A]]");
    assert_eq!(parsed.len(), 1);
    assert_eq!(parsed[0].target_text, "01HXYZ0000000000000000000A");
}

#[test]
fn extracts_multiple_wikilinks_in_order() {
    let body = "[[A]] then [[B|short]] then [[C]]";
    let parsed = parse(body);
    let targets: Vec<&str> = parsed.iter().map(|w| w.target_text.as_str()).collect();
    assert_eq!(targets, vec!["A", "B", "C"]);
    let starts: Vec<usize> = parsed.iter().map(|w| w.start).collect();
    for w in starts.windows(2) {
        assert!(w[0] < w[1]);
    }
}

#[test]
fn ignores_escaped_double_bracket() {
    let parsed = parse("not a link: \\[[Calculus]]");
    assert_eq!(parsed.len(), 0, "got {parsed:?}");
}

#[test]
fn double_backslash_does_not_escape() {
    let parsed = parse("\\\\[[Calculus]]");
    assert_eq!(parsed.len(), 1);
    assert_eq!(parsed[0].target_text, "Calculus");
}

#[test]
fn rejects_unclosed_link() {
    let parsed = parse("dangling [[Calculus and more text");
    assert_eq!(parsed.len(), 0);
}

#[test]
fn rejects_link_with_newline_inside() {
    let parsed = parse("[[Cal\nculus]]");
    assert_eq!(parsed.len(), 0);
}

#[test]
fn rejects_link_with_inner_open_bracket() {
    let parsed = parse("[[Cal[culus]]");
    assert_eq!(parsed.len(), 0);
}

#[test]
fn rejects_empty_target() {
    let parsed = parse("[[]] and [[ ]] and [[||alias]]");
    assert_eq!(parsed.len(), 0);
}

#[test]
fn trims_whitespace_in_target_and_alias() {
    let parsed = parse("[[  Calculus  |   short  ]]");
    assert_eq!(parsed[0].target_text, "Calculus");
    assert_eq!(parsed[0].alias.as_deref(), Some("short"));
}

#[test]
fn raw_span_round_trips_via_start_offset() {
    let body = "prefix [[Target]] middle [[Other|x]] tail";
    for w in parse(body) {
        let span = &body[w.start..w.start + w.raw.len()];
        assert_eq!(span, w.raw);
    }
}

#[test]
fn raw_span_round_trips_after_multibyte_text() {
    let body = "café ☕ [[Ünïcode|ä]] and [[B]]";
    let parsed = parse(body);
    assert_eq!(parsed.len(), 2);
    for w in parsed {
        let span = &body[w.start..w.start + w.raw.len()];
        assert_eq!(span, w.raw);
    }
}

#[test]
fn text_without_brackets_has_no_links() {
    assert!(parse("plain words 123 and spaces").is_empty());
    assert!(parse("").is_empty());
}

#[test]
fn rejects_target_with_a_stray_close_bracket() {
    assert!(parse("[[a]b]]").is_empty());
    assert!(parse("see [[x] y]] here").is_empty());
    let ok = parse("[[a]] then ]");
    assert_eq!(ok.len(), 1);
    assert_eq!(ok[0].target_text, "a");
}
