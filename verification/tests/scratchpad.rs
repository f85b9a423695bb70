use scratchpad::ExportError;
use scratchpad::MyApp;
use scratchpad::Note;
use scratchpad::export_dir_name;
use scratchpad::export_dir_name_at;
use scratchpad::export_plan;
use scratchpad::exports_parent;
use scratchpad::resolve_filename;
use scratchpad::to_decimal;

fn note(id: u64, name: &str, open: bool, content: &str) -> Note {
    Note { id, name: name.to_string(), open, content: content.to_string() }
}

#[test]
fn new_without_snapshot_is_empty() {
    let app = MyApp::new(None);
    assert_eq!(app.notes.len(), 0);
    assert!(app.wf_check());
}

#[test]
fn create_note_defaults() {
    let mut app = MyApp::new(None);
    app.create_note();
    assert_eq!(app.notes.len(), 1);
    assert_eq!(app.notes[0].name, "New Note");
    assert!(app.notes[0].open);
    assert_eq!(app.notes[0].content, "");
}

#[test]
fn sweep_keeps_open_notes_in_order() {
    let mut app = MyApp::new(None);
    for _ in 0..5 {
        app.create_note();
    }
    app.notes[0].name = "a".to_string();
    app.notes[1].name = "b".to_string();
    app.notes[2].name = "c".to_string();
    app.notes[3].name = "d".to_string();
    app.notes[4].name = "e".to_string();
    app.notes[1].open = false;
    app.notes[3].open = false;
    app.sweep_closed();
    let names: Vec<&str> = app.notes.iter().map(|n| n.name.as_str()).collect();
    assert_eq!(names, vec!["a", "c", "e"]);
    assert!(app.wf_check());
}

#[test]
fn sweep_on_empty_collection() {
    let mut app = MyApp::new(None);
    app.sweep_closed();
    assert_eq!(app.notes.len(), 0);
}

#[test]
fn sweep_removes_everything_when_all_closed() {
    let mut app = MyApp::new(None);
    for _ in 0..3 {
        app.create_note();
    }
    for n in app.notes.iter_mut() {
        n.open = false;
    }
    app.sweep_closed();
    assert_eq!(app.notes.len(), 0);
}

#[test]
fn created_ids_are_distinct() {
    let mut app = MyApp::new(None);
    for _ in 0..8 {
        app.create_note();
    }
    let ids: Vec<u64> = app.notes.iter().map(|n| n.id).collect();
    for i in 0..ids.len() {
        for j in 0..ids.len() {
            if i != j {
                assert_ne!(ids[i], ids[j]);
            }
        }
    }
}

#[test]
fn ids_stay_distinct_across_sweeps() {
    let mut app = MyApp::new(None);
    for _ in 0..4 {
        app.create_note();
    }
    app.notes[1].open = false;
    app.sweep_closed();
    app.create_note();
    app.create_note();
    let ids: Vec<u64> = app.notes.iter().map(|n| n.id).collect();
    let mut sorted = ids.clone();
    sorted.sort();
    sorted.dedup();
    assert_eq!(sorted.len(), ids.len());
    assert!(app.wf_check());
}

#[test]
fn wf_check_rejects_bad_ids() {
    let app = MyApp { notes: vec![note(5, "x", true, ""), note(3, "y", true, "")], next_id: 10 };
    assert!(!app.wf_check());
    let app2 = MyApp { notes: vec![note(1, "x", true, ""), note(2, "y", true, "")], next_id: 2 };
    assert!(!app2.wf_check());
    let app3 = MyApp { notes: vec![note(1, "x", true, ""), note(2, "y", true, "")], next_id: 3 };
    assert!(app3.wf_check());
}

#[test]
fn truncate_short_names_unchanged() {
    assert_eq!(MyApp::truncate_title("abc"), "abc");
    assert_eq!(MyApp::truncate_title(""), "");
    assert_eq!(MyApp::truncate_title("nine char"), "nine char");
}

#[test]
fn truncate_long_names_get_ellipsis() {
    assert_eq!(MyApp::truncate_title("ten chars!"), "ten chars...");
    assert_eq!(MyApp::truncate_title("a very long note title"), "a very lo...");
}

#[test]
fn truncate_counts_characters_not_bytes() {
    assert_eq!(MyApp::truncate_title("ααββγγδδε"), "ααββγγδδε");
    assert_eq!(MyApp::truncate_title("ααββγγδδεε"), "ααββγγδδε...");
}

#[test]
fn decimal_rendering() {
    assert_eq!(to_decimal(0), "0");
    assert_eq!(to_decimal(7), "7");
    assert_eq!(to_decimal(10), "10");
    assert_eq!(to_decimal(12345), "12345");
}

#[test]
fn export_plan_of_empty_collection_is_empty() {
    let notes: Vec<Note> = Vec::new();
    let plan = export_plan(&notes);
    assert_eq!(plan.len(), 0);
}

#[test]
fn export_plan_disambiguates_equal_names() {
    let notes = vec![note(0, "Untitled", true, "first body"), note(1, "Untitled", true, "second body")];
    let plan = export_plan(&notes);
    assert_eq!(plan.len(), 2);
    assert_eq!(plan[0].filename, "Untitled");
    assert_eq!(plan[0].content, "first body");
    assert_eq!(plan[1].filename, "Untitled(1)");
    assert_eq!(plan[1].content, "second body");
}

#[test]
fn export_plan_counter_skips_taken_candidates() {
    let notes = vec![
        note(0, "a", true, "one"),
        note(1, "a(1)", true, "two"),
        note(2, "a", true, "three"),
    ];
    let plan = export_plan(&notes);
    let names: Vec<&str> = plan.iter().map(|p| p.filename.as_str()).collect();
    assert_eq!(names, vec!["a", "a(1)", "a(2)"]);
}

#[test]
fn export_plan_numbering_starts_fresh_each_call() {
    let notes = vec![note(0, "n", true, "x"), note(1, "n", true, "y")];
    let first = export_plan(&notes);
    let second = export_plan(&notes);
    assert_eq!(first[1].filename, "n(1)");
    assert_eq!(second[1].filename, "n(1)");
}

#[test]
fn resolve_filename_finds_first_free_candidate() {
    let used = vec!["a".to_string(), "a(1)".to_string(), "a(2)".to_string()];
    assert_eq!(resolve_filename(&used, "a"), "a(3)");
    assert_eq!(resolve_filename(&used, "b"), "b");
    let empty: Vec<String> = Vec::new();
    assert_eq!(resolve_filename(&empty, "a"), "a");
}

#[test]
fn export_dir_name_prefixes_timestamp() {
    assert_eq!(export_dir_name("2024-01-02T03:04:05+00:00"), "export_2024-01-02T03:04:05+00:00");
    assert_ne!(export_dir_name("t1"), export_dir_name("t2"));
}

#[test]
fn export_dir_name_at_epoch() {
    let name = export_dir_name_at(0, 0).unwrap();
    assert_eq!(name, "export_1970-01-01T00:00:00+00:00");
}

#[test]
fn export_dir_name_at_known_instant() {
    let name = export_dir_name_at(1431648000, 0).unwrap();
    assert_eq!(name, "export_2015-05-15T00:00:00+00:00");
    let other = export_dir_name_at(1431648001, 0).unwrap();
    assert_ne!(name, other);
}

#[test]
fn exports_parent_path() {
    assert_eq!(exports_parent(), "scratchpad/exports");
}

#[test]
fn export_error_messages() {
    assert_eq!(ExportError::NoHomeDirectory.message(), "no home directory");
    assert_eq!(ExportError::DirectoryCreateError.message(), "could not create export directory");
    assert_eq!(ExportError::FileWriteError.message(), "could not write note file");
}

#[test]
fn snapshot_round_trip_reproduces_notes() {
    let mut app = MyApp::new(None);
    for _ in 0..3 {
        app.create_note();
    }
    app.notes[0].name = "shopping: milk".to_string();
    app.notes[0].content = "1 milk\n2 eggs\n".to_string();
    app.notes[1].name = "".to_string();
    app.notes[1].content = "a:b:c 123".to_string();
    app.notes[1].open = false;
    app.notes[2].name = "unicode αβγ".to_string();
    app.notes[2].content = "päivää".to_string();
    let saved = app.save();
    let restored = MyApp::new(Some(saved.as_str()));
    assert_eq!(restored.notes.len(), 3);
    for (a, b) in app.notes.iter().zip(restored.notes.iter()) {
        assert_eq!(a.name, b.name);
        assert_eq!(a.content, b.content);
        assert_eq!(a.open, b.open);
    }
    assert!(restored.wf_check());
}

#[test]
fn snapshot_round_trip_of_empty_collection() {
    let app = MyApp::new(None);
    let saved = app.save();
    assert_eq!(saved, "");
    let restored = MyApp::new(Some(saved.as_str()));
    assert_eq!(restored.notes.len(), 0);
}

#[test]
fn snapshot_format_is_length_prefixed() {
    let mut app = MyApp::new(None);
    app.create_note();
    app.notes[0].name = "ab".to_string();
    app.notes[0].content = "xyz".to_string();
    assert_eq!(app.save(), "2:ab3:xyz1");
}

#[test]
fn corrupt_snapshot_yields_empty_collection() {
    assert_eq!(MyApp::new(Some("garbage")).notes.len(), 0);
    assert_eq!(MyApp::new(Some("2:ab")).notes.len(), 0);
    assert_eq!(MyApp::new(Some("2:ab3:xyz9")).notes.len(), 0);
    // a length prefix with a leading zero is not canonical
    assert_eq!(MyApp::new(Some("02:ab3:xyz1")).notes.len(), 0);
    // trailing bytes after the last record
    assert_eq!(MyApp::new(Some("2:ab3:xyz1!")).notes.len(), 0);
}

#[test]
fn interleaved_creates_closes_and_sweeps() {
    let mut app = MyApp::new(None);
    app.create_note();
    app.notes[0].name = "first".to_string();
    app.create_note();
    app.notes[1].name = "second".to_string();
    app.notes[0].open = false;
    app.sweep_closed();
    let names: Vec<&str> = app.notes.iter().map(|n| n.name.as_str()).collect();
    assert_eq!(names, vec!["second"]);
    app.create_note();
    app.notes[1].name = "third".to_string();
    app.notes[1].open = false;
    app.sweep_closed();
    let names: Vec<&str> = app.notes.iter().map(|n| n.name.as_str()).collect();
    assert_eq!(names, vec!["second"]);
    app.create_note();
    app.sweep_closed();
    let names: Vec<&str> = app.notes.iter().map(|n| n.name.as_str()).collect();
    assert_eq!(names, vec!["second", "New Note"]);
    assert!(app.wf_check());
}

#[test]
fn restored_notes_get_fresh_sequential_ids() {
    let mut app = MyApp::new(None);
    for _ in 0..3 {
        app.create_note();
    }
    app.notes[0].open = false;
    app.sweep_closed();
    let saved = app.save();
    let mut restored = MyApp::new(Some(saved.as_str()));
    assert_eq!(restored.notes.len(), 2);
    assert_eq!(restored.notes[0].id, 0);
    assert_eq!(restored.notes[1].id, 1);
    restored.create_note();
    assert!(restored.wf_check());
}
