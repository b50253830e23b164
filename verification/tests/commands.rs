use plainnote::audio::AudioError;
use plainnote::commands::{
    backlinks_for, cancel_reminder, capture_start_error, check_can_start, check_can_stop, drain_failure,
    epoch_millis, get_effective_model_path, get_meta, list_reminders, model_load_error, not_a_file, now_ms,
    outbound_links_of, query_notes, read_note_error, requested_model_path, search_notes_by_title, set_meta,
    set_reminder, store_model_path, transcription_outcome, engine_missing, stt_failure, vault_info, BacklinkV1, EffectiveModelPathV1, IpcError,
    LinkRefV1, NoteSummaryV1, RecordingState, ReminderFilterV1, TagRowV1, TitleHitV1,
};
use plainnote::ids::NoteId;
use plainnote::index::{Index, LinkRow, NoteRow};
use plainnote::query::QueryMode;
use plainnote::stt::SttError;
use plainnote::tags::add_tag_to_note;
use plainnote::vault::{NoteSummary, VaultOpError};

#[test]
fn note_summary_v1_serializes_id_as_string() {
    let summary = NoteSummary {
        id: NoteId::parse("01HXYZ0000000000000000000A").unwrap(),
        title: Some("hello".into()),
        created: "2026-05-04T10:23:11Z".into(),
        updated: "2026-05-04T10:23:11Z".into(),
        preview: "hi".into(),
    };
    let v1 = NoteSummaryV1::from_summary(&summary);
    assert_eq!(v1.id, "01HXYZ0000000000000000000A");
    assert_eq!(v1.title.as_deref(), Some("hello"));
    assert_eq!(v1.preview, "hi");
}

#[test]
fn ipc_error_serializes_with_code_and_message() {
    let err = IpcError::not_found("nope");
    assert_eq!(err.code, "not_found");
    assert_eq!(err.message, "nope");
}

#[test]
fn tag_row_serializes_with_path_parent_count() {
    let row = TagRowV1 { path: "learning/math".into(), parent: Some("learning".into()), note_count: 3 };
    assert_eq!(row.path, "learning/math");
    assert_eq!(row.parent.as_deref(), Some("learning"));
    assert_eq!(row.note_count, 3);
}

#[test]
fn tag_row_serializes_root_with_null_parent() {
    let row = TagRowV1 { path: "learning".into(), parent: None, note_count: 0 };
    assert!(row.parent.is_none());
}

#[test]
fn query_mode_serializes_as_snake_case() {
    assert_eq!(QueryMode::RecursiveIntersection.wire_name(), "recursive_intersection");
    assert_eq!(QueryMode::StrictUnion.wire_name(), "strict_union");
}

#[test]
fn query_mode_deserializes_from_snake_case() {
    let m = QueryMode::from_wire_name("recursive_union").unwrap();
    assert_eq!(m, QueryMode::RecursiveUnion);
    assert_eq!(QueryMode::from_wire_name("RecursiveUnion"), None);
}

#[test]
fn link_ref_serializes_with_target_id_null_for_dangling() {
    let r = LinkRefV1 { raw: "[[Nope]]".into(), target_text: "Nope".into(), alias: None, target_id: None };
    assert_eq!(r.raw, "[[Nope]]");
    assert!(r.target_id.is_none());
    assert!(r.alias.is_none());
}

#[test]
fn backlink_serializes_with_source_metadata() {
    let b = BacklinkV1 {
        source_id: "01HXYZ0000000000000000000A".into(),
        source_title: Some("Source".into()),
        source_preview: "preview".into(),
        raw: "[[Target]]".into(),
    };
    assert_eq!(b.source_id, "01HXYZ0000000000000000000A");
    assert_eq!(b.source_title.as_deref(), Some("Source"));
    assert_eq!(b.source_preview, "preview");
    assert_eq!(b.raw, "[[Target]]");
}

#[test]
fn recording_state_serializes_with_kind_tag() {
    assert_eq!(RecordingState::Idle.kind(), "idle");
    let r = RecordingState::Recording { started_at_ms: 1234 };
    assert_eq!(r.kind(), "recording");
    assert!(matches!(r, RecordingState::Recording { started_at_ms: 1234 }));
    assert_eq!(RecordingState::Transcribing.kind(), "transcribing");
    let e = RecordingState::Error { message: "x".into() };
    assert_eq!(e.kind(), "error");
    assert!(matches!(e, RecordingState::Error { ref message } if message == "x"));
}

#[test]
fn effective_model_path_v1_serializes_with_snake_case_fields() {
    let p = EffectiveModelPathV1 { path: "/x.bin".into(), is_default: true };
    assert_eq!(p.path, "/x.bin");
    assert!(p.is_default);
}

#[test]
fn title_hit_serializes_with_id_and_title() {
    let h = TitleHitV1 { id: "01HXYZ0000000000000000000A".into(), title: "Calculus".into() };
    assert_eq!(h.id, "01HXYZ0000000000000000000A");
    assert_eq!(h.title, "Calculus");
}

#[test]
fn ipc_error_constructors_set_codes() {
    assert_eq!(IpcError::io("a").code, "io");
    assert_eq!(IpcError::invalid("b").code, "invalid");
    let l = IpcError::locked();
    assert_eq!((l.code, l.message.as_str()), ("locked", "could not acquire index lock"));
    let m = IpcError::model_missing("/m.bin");
    assert_eq!((m.code, m.message.as_str()), ("model_missing", "/m.bin"));
    let d = IpcError::no_input_device();
    assert_eq!((d.code, d.message.as_str()), ("no_input_device", "no default audio input device"));
    assert_eq!(IpcError::audio("c").code, "audio");
    assert_eq!(IpcError::stt("d").code, "stt");
}

#[test]
fn clock_errors_before_epoch() {
    assert_eq!(epoch_millis(Some(1234)).unwrap(), 1234);
    let e = epoch_millis(None).unwrap_err();
    assert_eq!(e.code, "invalid");
    assert_eq!(e.message, "system clock invalid (before unix epoch)");
    assert!(now_ms().unwrap() > 1_600_000_000_000);
}

#[test]
fn recording_state_machine_guards() {
    assert!(check_can_start(&RecordingState::Idle).is_ok());
    assert!(check_can_start(&RecordingState::Error { message: "x".into() }).is_ok());
    let e = check_can_start(&RecordingState::Transcribing).unwrap_err();
    assert_eq!((e.code, e.message.as_str()), ("invalid", "already recording or transcribing"));
    assert!(check_can_start(&RecordingState::Recording { started_at_ms: 1 }).is_err());
    assert!(check_can_stop(&RecordingState::Recording { started_at_ms: 1 }).is_ok());
    let e = check_can_stop(&RecordingState::Idle).unwrap_err();
    assert_eq!(e.message, "not recording");
}

#[test]
fn recording_outcomes() {
    let (s, r) = transcription_outcome(Ok("hello".into()));
    assert!(matches!(s, RecordingState::Idle));
    assert_eq!(r.unwrap(), "hello");
    let (s, r) = transcription_outcome(Err(SttError::EmptyInput));
    assert!(matches!(s, RecordingState::Error { ref message } if message == "no audio samples to transcribe"));
    let e = r.unwrap_err();
    assert_eq!((e.code, e.message.as_str()), ("stt", "no audio samples to transcribe"));
    let (s, e) = drain_failure(&AudioError::StreamBuild("poisoned".into()));
    assert!(matches!(s, RecordingState::Error { ref message } if message == "failed to build input stream: poisoned"));
    assert_eq!(e.code, "audio");
}

#[test]
fn model_and_capture_errors_map_to_codes() {
    let e = model_load_error(&SttError::ModelMissing { path: "/m.bin".into() });
    assert_eq!((e.code, e.message.as_str()), ("model_missing", "/m.bin"));
    let e = model_load_error(&SttError::NonUtf8ModelPath { path: "/m".into() });
    assert_eq!((e.code, e.message.as_str()), ("invalid", "model path is not valid UTF-8"));
    let e = model_load_error(&SttError::WhisperInit("bad".into()));
    assert_eq!((e.code, e.message.as_str()), ("stt", "failed to initialize whisper context: bad"));
    let e = capture_start_error(&AudioError::NoInputDevice);
    assert_eq!(e.code, "no_input_device");
    let e = capture_start_error(&AudioError::DurationOverflow);
    assert_eq!((e.code, e.message.as_str()), ("audio", "requested duration would overflow buffer capacity"));
}

#[test]
fn meta_commands_reserve_schema_version() {
    let mut idx = Index::new();
    let e = set_meta(&mut idx, "schema_version", "99").unwrap_err();
    assert_eq!((e.code, e.message.as_str()), ("invalid", "reserved key: schema_version"));
    assert_eq!(get_meta(&idx, "schema_version"), None);
    set_meta(&mut idx, "editor.mode", "raw").unwrap();
    assert_eq!(get_meta(&idx, "editor.mode").as_deref(), Some("raw"));
    assert_eq!(get_meta(&idx, "unknown"), None);
}

#[test]
fn model_path_override_and_default() {
    let mut idx = Index::new();
    let p = get_effective_model_path(&idx, "/default.bin");
    assert_eq!((p.path.as_str(), p.is_default), ("/default.bin", true));
    store_model_path(&mut idx, "/custom.bin");
    let p = get_effective_model_path(&idx, "/default.bin");
    assert_eq!((p.path.as_str(), p.is_default), ("/custom.bin", false));
    store_model_path(&mut idx, "");
    assert!(get_effective_model_path(&idx, "/default.bin").is_default);
    assert_eq!(requested_model_path(&Some("  /a b.bin \n".into())).as_deref(), Some("/a b.bin"));
    assert_eq!(requested_model_path(&Some("   ".into())), None);
    assert_eq!(requested_model_path(&None), None);
    let e = not_a_file("/nope");
    assert_eq!((e.code, e.message.as_str()), ("not_found", "not a file: /nope"));
}

fn row(id: NoteId, title: Option<&str>, created: &str, preview: &str) -> NoteRow {
    NoteRow {
        id,
        path: format!("notes/{}.md", id.to_string()),
        title: title.map(|t| t.to_string()),
        created: created.into(),
        updated: created.into(),
        body_preview: preview.into(),
    }
}

#[test]
fn link_commands_read_the_index() {
    let a = NoteId::parse("01HXYZ0000000000000000000A").unwrap();
    let b = NoteId::parse("01HXYZ0000000000000000000B").unwrap();
    let c = NoteId::parse("01HXYZ0000000000000000000C").unwrap();
    let mut idx = Index::new();
    idx.notes.push(row(a, Some("Target"), "2026-05-01T00:00:00Z", "target"));
    idx.notes.push(row(b, Some("Older"), "2026-05-02T00:00:00Z", "older"));
    idx.notes.push(row(c, None, "2026-05-03T00:00:00Z", "newer"));
    idx.links.push(LinkRow { source: b, raw: "[[Target]]".into(), target_text: "Target".into(), alias: None, target_id: Some(a) });
    idx.links.push(LinkRow { source: c, raw: "[[Target|t]]".into(), target_text: "Target".into(), alias: Some("t".into()), target_id: Some(a) });
    idx.links.push(LinkRow { source: b, raw: "[[Ghost]]".into(), target_text: "Ghost".into(), alias: None, target_id: None });

    let out = outbound_links_of(&idx, "01HXYZ0000000000000000000B").unwrap();
    let raws: Vec<&str> = out.iter().map(|l| l.raw.as_str()).collect();
    assert_eq!(raws, vec!["[[Ghost]]", "[[Target]]"]);
    assert_eq!(out[0].target_id, None);
    assert_eq!(out[1].target_id.as_deref(), Some("01HXYZ0000000000000000000A"));

    let back = backlinks_for(&idx, "01HXYZ0000000000000000000A").unwrap();
    let sources: Vec<&str> = back.iter().map(|l| l.source_id.as_str()).collect();
    assert_eq!(sources, vec!["01HXYZ0000000000000000000C", "01HXYZ0000000000000000000B"]);
    assert_eq!(back[0].source_title, None);
    assert_eq!(back[0].source_preview, "newer");
    assert_eq!(back[1].raw, "[[Target]]");

    let e = outbound_links_of(&idx, "not-an-id").unwrap_err();
    assert_eq!(e.code, "invalid");
    assert!(backlinks_for(&idx, "").is_err());
}

#[test]
fn query_and_title_commands_map_rows() {
    let a = NoteId::parse("01HXYZ0000000000000000000A").unwrap();
    let b = NoteId::parse("01HXYZ0000000000000000000B").unwrap();
    let mut idx = Index::new();
    idx.notes.push(row(a, Some("Calculus"), "2026-05-01T00:00:00Z", "one"));
    idx.notes.push(row(b, Some("cosmology"), "2026-05-02T00:00:00Z", "two"));
    add_tag_to_note(&mut idx, &a, "learning/math").unwrap();
    add_tag_to_note(&mut idx, &b, "learning").unwrap();
    let rows = query_notes(&idx, &["learning".into()], None);
    let ids: Vec<&str> = rows.iter().map(|r| r.id.as_str()).collect();
    assert_eq!(ids, vec!["01HXYZ0000000000000000000B", "01HXYZ0000000000000000000A"]);
    assert_eq!(rows[1].preview, "one");
    assert!(query_notes(&idx, &["learning".into()], Some(QueryMode::StrictUnion)).len() == 1);
    let hits = search_notes_by_title(&idx, "C", 10);
    let titles: Vec<&str> = hits.iter().map(|h| h.title.as_str()).collect();
    assert_eq!(titles, vec!["Calculus", "cosmology"]);
    assert_eq!(hits[0].id, "01HXYZ0000000000000000000A");
    let info = vault_info(&idx, "/home/me/vault");
    assert_eq!((info.path.as_str(), info.note_count), ("/home/me/vault", 2));
}

#[test]
fn reminder_commands() {
    let mut idx = Index::new();
    let e = set_reminder(&mut idx, Some("bad".into()), "2026-06-01T10:00:00Z", "x").unwrap_err();
    assert_eq!(e.code, "invalid");
    let e = set_reminder(&mut idx, None, "tomorrow", "x").unwrap_err();
    assert_eq!(e.code, "invalid");
    assert!(idx.reminders.is_empty());
    let id = set_reminder(&mut idx, Some("01HXYZ0000000000000000000A".into()), "2026-06-01T12:00:00+02:00", "call")
        .unwrap();
    let rows = list_reminders(&idx, None);
    assert_eq!(rows.len(), 1);
    assert_eq!(rows[0].id, id);
    assert_eq!(rows[0].note_id.as_deref(), Some("01HXYZ0000000000000000000A"));
    assert_eq!(rows[0].fire_at, "2026-06-01T10:00:00Z");
    cancel_reminder(&mut idx, &id).unwrap();
    let e = cancel_reminder(&mut idx, &id).unwrap_err();
    assert_eq!(e.code, "not_found");
    assert!(list_reminders(&idx, Some(ReminderFilterV1::Active)).is_empty());
    assert_eq!(list_reminders(&idx, Some(ReminderFilterV1::Cancelled)).len(), 1);
    assert_eq!(ReminderFilterV1::default(), ReminderFilterV1::Active);
}

#[test]
fn read_errors_map_on_not_found() {
    let id = NoteId::parse("01HXYZ0000000000000000000A").unwrap();
    let e = read_note_error(&VaultOpError::NotFound(id));
    assert_eq!((e.code, e.message.as_str()), ("not_found", "note not found: 01HXYZ0000000000000000000A"));
    let e = read_note_error(&VaultOpError::Utf8("bad byte".into()));
    assert_eq!((e.code, e.message.as_str()), ("io", "UTF-8 error: bad byte"));
}

#[test]
fn missing_engine_and_join_failure_leave_the_error_state() {
    let (state, err) = engine_missing();
    assert_eq!(state.kind(), "error");
    assert_eq!(err.code, "stt");
    assert_eq!(err.message, "whisper engine missing \u{2014} start_recording should have loaded it");
    match state {
        RecordingState::Error { message } => assert_eq!(message, err.message),
        _ => panic!("expected the error state"),
    }
    let (state, err) = stt_failure("blocking task join error: cancelled");
    assert_eq!(err.code, "stt");
    match state {
        RecordingState::Error { message } => assert_eq!(message, "blocking task join error: cancelled"),
        _ => panic!("expected the error state"),
    }
}

#[test]
fn stopping_without_a_session_is_invalid() {
    assert!(plainnote::commands::session_check(true).is_ok());
    let e = plainnote::commands::session_check(false).unwrap_err();
    assert_eq!(e.code, "invalid");
    assert_eq!(e.message, "no active capture session");
}
