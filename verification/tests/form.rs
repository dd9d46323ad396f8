use esox::components::{EngineStats, FiredEvent, SoundHandle, Tag};
use esox::batching::BatchStats3D;
use esox::form::{DropZoneState, FormState, InputState};

#[test]
fn text_entries() {
    let mut form = FormState::new();
    assert!(form.get("trim", "start").is_none());
    form.set_text("trim", "start", "00:10".to_string());
    form.set_text("trim", "end", "00:20".to_string());
    form.set_text("trim", "start", "00:05".to_string());
    assert_eq!(form.get("trim", "start").unwrap().text, "00:05");
    assert_eq!(form.get("trim", "end").unwrap().text, "00:20");
    assert!(form.get("convert", "start").is_none());
}

#[test]
fn select_entries() {
    let mut form = FormState::new();
    let choices = vec!["a", "b", "c"];
    assert_eq!(form.select_value("t", "k", &choices), "a");
    assert_eq!(form.get_or_create_select("t", "k", 3), 0);
    form.set_selected("t", "k", 2);
    assert_eq!(form.select_value("t", "k", &choices), "c");
    // An index past the choices is reset when the selection is read back.
    form.set_selected("t", "k", 5);
    assert_eq!(form.select_value("t", "k", &choices), "");
    assert_eq!(form.get_or_create_select("t", "k", 3), 0);
    assert_eq!(form.select_value("t", "k", &choices), "a");
}

#[test]
fn fresh_states() {
    assert_eq!(InputState::new().text, "");
    let d = DropZoneState::new();
    assert!(d.files.is_empty());
    assert!(!d.dialog_pending);
}

#[test]
fn plain_components() {
    let t = Tag("player".to_string());
    assert_eq!(t.0, "player");
    let e = FiredEvent { name: "footstep".to_string(), state_name: "walk".to_string() };
    assert_eq!(e.clone().name, "footstep");
    assert_eq!(SoundHandle(3), SoundHandle(3));
    let s = EngineStats { physics_step_us: 120, batch_stats: BatchStats3D::default(), entity_count: 4 };
    assert_eq!(s.batch_stats.draw_calls, 0);
    assert_eq!(s.entity_count, 4);
}
