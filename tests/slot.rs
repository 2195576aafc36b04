use msgpack_differ::codec::DecodeError;
use msgpack_differ::slot::{LoadError, LoadedFile, MsgPackDifferApp, Slot, SlotState};
use msgpack_differ::value::Value;

fn loaded(slot: &Slot) -> &LoadedFile {
    match &slot.state {
        SlotState::Loaded(f) => f,
        other => panic!("expected a loaded slot, got {:?}", other),
    }
}

#[test]
fn set_path_load_reload_reads_again() {
    let mut slot = Slot::new();
    slot.set_path("a.msgpack".to_string());
    assert_eq!(slot.loading_path(), Some("a.msgpack".to_string()));
    slot.finish_load("a.msgpack".to_string(), Ok(vec![0x80]));
    assert!(matches!(loaded(&slot).parsed, Value::Mapping(_)));
    assert_eq!(loaded(&slot).crc32.result, crc32fast::hash(&[0x80]));
    assert_eq!(slot.loading_path(), None);

    slot.reload();
    assert_eq!(slot.loading_path(), Some("a.msgpack".to_string()));
    slot.finish_load("a.msgpack".to_string(), Ok(vec![0x91, 0xc0]));
    assert_eq!(loaded(&slot).data, vec![0x91, 0xc0]);
    assert!(matches!(loaded(&slot).parsed, Value::Array(_)));
}

#[test]
fn unload_resets_to_empty() {
    let mut slot = Slot::new();
    slot.set_path("a.msgpack".to_string());
    slot.finish_load("a.msgpack".to_string(), Ok(vec![0xc0]));
    slot.unload();
    assert!(slot.bound.is_none());
    assert!(matches!(slot.state, SlotState::Empty));
    slot.sync();
    assert!(matches!(slot.state, SlotState::Empty));
}

#[test]
fn failures_are_kept() {
    let mut slot = Slot::new();
    slot.set_path("bad".to_string());
    slot.finish_load("bad".to_string(), Ok(vec![0xa3, b'x']));
    assert!(matches!(
        slot.state,
        SlotState::Failed(_, LoadError::Decode(DecodeError::UnexpectedEnd))
    ));
    slot.sync();
    assert!(matches!(slot.state, SlotState::Failed(_, _)));

    let mut other = Slot::new();
    other.set_path("missing".to_string());
    other.finish_load("missing".to_string(), Err("not found".to_string()));
    match &other.state {
        SlotState::Failed(p, LoadError::Io(m)) => {
            assert_eq!(p, "missing");
            assert_eq!(m, "not found");
        }
        _ => panic!("expected an i/o failure"),
    }
}

#[test]
fn stale_results_are_dropped() {
    let mut slot = Slot::new();
    slot.set_path("one".to_string());
    slot.set_path("two".to_string());
    slot.finish_load("one".to_string(), Ok(vec![0xc0]));
    assert_eq!(slot.loading_path(), Some("two".to_string()));
}

#[test]
fn changed_path_triggers_a_load() {
    let mut slot = Slot::new();
    slot.set_path("one".to_string());
    slot.finish_load("one".to_string(), Ok(vec![0xc0]));
    slot.bound = Some("two".to_string());
    slot.sync();
    assert_eq!(slot.loading_path(), Some("two".to_string()));
}

#[test]
fn picking_files_fills_the_slots() {
    let mut app = MsgPackDifferApp::new();
    assert_eq!(app.diff_prompt(), Some("Select files A and B to compare them"));
    app.pick_files(vec!["x".to_string()]);
    assert_eq!(app.a.bound, Some("x".to_string()));
    assert_eq!(app.diff_prompt(), Some("Select file B to compare with file A"));
    app.pick_files(vec!["y".to_string()]);
    assert_eq!(app.b.bound, Some("y".to_string()));
    assert_eq!(app.diff_prompt(), None);
    app.pick_files(vec!["p".to_string(), "q".to_string(), "r".to_string()]);
    assert_eq!(app.a.bound, Some("p".to_string()));
    assert_eq!(app.b.bound, Some("q".to_string()));
    app.a.unload();
    assert_eq!(app.diff_prompt(), Some("Select file A to compare with file B"));
}

#[test]
fn picking_a_file_keeps_the_loaded_record_until_the_load_ends() {
    let mut app = MsgPackDifferApp::new();
    app.pick_files(vec!["a".to_string(), "b".to_string()]);
    app.b.finish_load("b".to_string(), Ok(vec![0x80]));
    assert!(matches!(app.b.state, SlotState::Loaded(_)));
    app.pick_files(vec!["c".to_string(), "d".to_string()]);
    match &app.b.state {
        SlotState::Loading(p, Some(f)) => {
            assert_eq!(p, "d");
            assert_eq!(f.path, "b");
        }
        other => panic!("expected a load that keeps the old file, got {:?}", other),
    }
    app.b.finish_load("d".to_string(), Ok(vec![0xc0]));
    assert_eq!(loaded(&app.b).path, "d");
}

#[test]
fn reload_keeps_the_file_while_loading() {
    let mut slot = Slot::new();
    slot.set_path("a".to_string());
    slot.finish_load("a".to_string(), Ok(vec![0xc3]));
    slot.reload();
    assert!(matches!(&slot.state, SlotState::Loading(p, Some(_)) if p == "a"));
}

#[test]
fn failed_slot_loads_a_newly_bound_path() {
    let mut slot = Slot::new();
    slot.set_path("bad".to_string());
    slot.finish_load("bad".to_string(), Err("gone".to_string()));
    slot.bound = Some("good".to_string());
    slot.sync();
    assert_eq!(slot.loading_path(), Some("good".to_string()));
}
