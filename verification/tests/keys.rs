use esox::jobs::JobList;
use esox::keys::{escape_action, ime_text, paste_text, EscapeAction};
use esox::window::{window_geometry, WindowGeometry, WindowState};

#[test]
fn escape_priorities() {
    let mut jobs = JobList::new();
    assert_eq!(escape_action(true, true, &jobs), EscapeAction::CloseOverlay);
    assert_eq!(escape_action(false, true, &jobs), EscapeAction::Unfocus);
    assert_eq!(escape_action(false, false, &jobs), EscapeAction::Exit);
    let a = jobs.start_job("zip", Ok(()));
    let b = jobs.start_job("unzip", Ok(()));
    assert_eq!(escape_action(false, false, &jobs), EscapeAction::CancelJob(b));
    jobs.cancel_job(b);
    assert_eq!(escape_action(false, false, &jobs), EscapeAction::CancelJob(a));
}

#[test]
fn pasted_text_loses_line_breaks() {
    assert_eq!(paste_text("line one\r\nline two\n"), "line oneline two");
    assert_eq!(paste_text("plain"), "plain");
    assert_eq!(paste_text(""), "");
}

#[test]
fn composed_text_loses_controls() {
    assert_eq!(ime_text("a\u{7}b\tc\u{85}d é"), "abcd é");
    assert_eq!(ime_text("日本"), "日本");
}

#[test]
fn window_defaults_and_saved_position() {
    assert_eq!(window_geometry(None), WindowGeometry { width: 1024, height: 700, position: None });
    let s = WindowState { width: 800, height: 600, x: 0, y: 0 };
    assert_eq!(window_geometry(Some(s)), WindowGeometry { width: 800, height: 600, position: None });
    let s = WindowState { width: 800, height: 600, x: 0, y: 40 };
    assert_eq!(window_geometry(Some(s)), WindowGeometry { width: 800, height: 600, position: Some((0, 40)) });
}
