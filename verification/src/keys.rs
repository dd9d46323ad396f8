//! Keyboard and text-entry decisions of the tool app: what Escape does, and
//! which characters of pasted or composed text reach a text field.

use vstd::prelude::*;
use vstd::string::{StrSliceExecFns, StringExecFns};
use crate::jobs::{JobList, JobStatus};

verus! {

/// What pressing Escape does.
#[derive(Debug, Clone, Copy, PartialEq, Eq, Structural)]
pub enum EscapeAction {
    /// Close the open dropdown overlay.
    CloseOverlay,
    /// Take the focus from the focused widget.
    Unfocus,
    /// Cancel the newest running job.
    CancelJob(u64),
    /// Quit the app.
    Exit,
}

/// Escape closes an open overlay first, else drops the focus, else cancels
/// the newest running job, else quits.
pub fn escape_action(overlay_open: bool, widget_focused: bool, jobs: &JobList) -> (a: EscapeAction)
    ensures
        overlay_open ==> a == EscapeAction::CloseOverlay,
        !overlay_open && widget_focused ==> a == EscapeAction::Unfocus,
        !overlay_open && !widget_focused ==> match a {
            EscapeAction::CancelJob(id) => exists|k: int| 0 <= k < jobs.jobs().len() && jobs.jobs()[k].id == id
                && jobs.jobs()[k].status == JobStatus::Running
                && forall|i: int| k < i < jobs.jobs().len() ==> (#[trigger] jobs.jobs()[i]).status != JobStatus::Running,
            EscapeAction::Exit => forall|i: int| 0 <= i < jobs.jobs().len() ==> (#[trigger] jobs.jobs()[i]).status != JobStatus::Running,
            _ => false,
        },
{
    if overlay_open {
        EscapeAction::CloseOverlay
    } else if widget_focused {
        EscapeAction::Unfocus
    } else {
        match jobs.newest_running() {
            Some(id) => EscapeAction::CancelJob(id),
            None => EscapeAction::Exit,
        }
    }
}

/// `s` without its line breaks (`\n` and `\r`), as pasted into a one-line
/// field.
pub open spec fn without_line_breaks(s: Seq<char>) -> Seq<char> {
    s.filter(|c: char| c != '\n' && c != '\r')
}

/// Whether `c` is a control character (Unicode category Cc, what
/// `char::is_control` accepts).
pub open spec fn is_control_char(c: char) -> bool {
    ('\u{0}' <= c && c <= '\u{1f}') || ('\u{7f}' <= c && c <= '\u{9f}')
}

/// `s` without its control characters, as committed by an input method.
pub open spec fn without_controls(s: Seq<char>) -> Seq<char> {
    s.filter(|c: char| !is_control_char(c))
}

/// The text of a paste that reaches a one-line field: the pasted text
/// without line breaks.
pub fn paste_text(text: &str) -> (r: String)
    ensures
        r@ == without_line_breaks(text@),
{
    let n = text.unicode_len();
    let mut out = String::new();
    let mut i: usize = 0;
    while i < n
        invariant
            n == text@.len(),
            i <= n,
            out@ == without_line_breaks(text@.take(i as int)),
        decreases n - i,
    {
        let c = text.get_char(i);
        proof {
            assert(text@.take(i + 1).drop_last() =~= text@.take(i as int));
            reveal(Seq::filter);
        }
        if c != '\n' && c != '\r' {
            out.append(text.substring_char(i, i + 1));
        }
        i = i + 1;
    }
    assert(text@.take(n as int) =~= text@);
    out
}

/// The characters of committed text that reach a field: all but control
/// characters.
pub fn ime_text(text: &str) -> (r: String)
    ensures
        r@ == without_controls(text@),
{
    let n = text.unicode_len();
    let mut out = String::new();
    let mut i: usize = 0;
    while i < n
        invariant
            n == text@.len(),
            i <= n,
            out@ == without_controls(text@.take(i as int)),
        decreases n - i,
    {
        let c = text.get_char(i);
        proof {
            assert(text@.take(i + 1).drop_last() =~= text@.take(i as int));
            reveal(Seq::filter);
        }
        let control = ('\u{0}' <= c && c <= '\u{1f}') || ('\u{7f}' <= c && c <= '\u{9f}');
        if !control {
            out.append(text.substring_char(i, i + 1));
        }
        i = i + 1;
    }
    assert(text@.take(n as int) =~= text@);
    out
}

} // verus!
