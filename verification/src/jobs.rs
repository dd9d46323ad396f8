//! Tool jobs: the list of running and finished jobs, and how job events and
//! user actions change it.

use vstd::prelude::*;
use vstd::string::StringExecFns;
use vstd::string::StrSliceExecFns;
use vstd::string::StringSliceAdditionalSpecFns;
use crate::dispatch::str_eq;
use crate::tools::{find_tool, label_for};

verus! {

/// The result of a completed tool operation.
#[derive(Debug, Clone)]
pub enum JobResult {
    File(String),
    Files(Vec<String>),
    Text(String),
}

/// Where a job stands.
#[derive(Debug, Clone, Copy, PartialEq, Eq, Structural)]
pub enum JobStatus {
    Running,
    Done,
    Error,
}

/// Deferred action from a result button click.
#[derive(Debug, Clone, Copy, PartialEq, Eq, Structural)]
pub enum ResultAction {
    Open(u64),
    Copy(u64),
}

/// A running or completed tool job.
#[derive(Debug)]
pub struct Job {
    pub id: u64,
    pub tool_id: &'static str,
    pub status: JobStatus,
    pub message: String,
    pub result: Option<JobResult>,
}

/// What `Path::file_name` gives for a path string (as text): its last
/// component, unless the path ends in `..` or has none.
pub uninterp spec fn file_name_of(path: Seq<char>) -> Option<Seq<char>>;

/// Calls `Path::file_name` on `path`; the result, as text, is named
/// `file_name_of`.
#[verifier::external_body]
fn path_file_name(path: &str) -> (r: Option<String>)
    ensures
        match r {
            Some(n) => file_name_of(path@) == Some(n@),
            None => file_name_of(path@) is None,
        },
{
    match std::path::Path::new(path).file_name() {
        Some(n) => match n.to_str() {
            Some(t) => Some(t.to_owned()),
            None => None,
        },
        None => None,
    }
}

/// Decimal digits of `n`.
pub open spec fn decimal(n: nat) -> Seq<char>
    decreases n,
{
    if n < 10 {
        seq![digit_char(n)]
    } else {
        decimal(n / 10) + seq![digit_char(n % 10)]
    }
}

/// The ASCII digit of `d` (below ten).
pub open spec fn digit_char(d: nat) -> char {
    if d == 0 { '0' } else if d == 1 { '1' } else if d == 2 { '2' } else if d == 3 { '3' }
    else if d == 4 { '4' } else if d == 5 { '5' } else if d == 6 { '6' } else if d == 7 { '7' }
    else if d == 8 { '8' } else { '9' }
}

fn digit_str(d: usize) -> (r: &'static str)
    requires
        d < 10,
    ensures
        r@ == seq![digit_char(d as nat)],
{
    proof {
        reveal_strlit("0");
        reveal_strlit("1");
        reveal_strlit("2");
        reveal_strlit("3");
        reveal_strlit("4");
        reveal_strlit("5");
        reveal_strlit("6");
        reveal_strlit("7");
        reveal_strlit("8");
        reveal_strlit("9");
    }
    if d == 0 { "0" } else if d == 1 { "1" } else if d == 2 { "2" } else if d == 3 { "3" }
    else if d == 4 { "4" } else if d == 5 { "5" } else if d == 6 { "6" } else if d == 7 { "7" }
    else if d == 8 { "8" } else { "9" }
}

/// Append the decimal digits of `n` to `out`.
fn append_decimal(out: &mut String, n: usize)
    ensures
        final(out)@ == old(out)@ + decimal(n as nat),
    decreases n,
{
    if n >= 10 {
        append_decimal(out, n / 10);
    }
    out.append(digit_str(n % 10));
}

/// The first 30 bytes of `t`'s UTF-8 text, as characters, when it is
/// longer; `t` itself otherwise.
pub open spec fn text_preview(t: Seq<char>) -> Seq<char> {
    text_prefix(t, 30)
}

/// The message of a job that finished with `result` (also its toast).
pub open spec fn done_message(result: JobResult) -> Seq<char> {
    match result {
        JobResult::File(p) => "Done: "@ + match file_name_of(p@) {
            Some(n) => n,
            None => p@,
        },
        JobResult::Files(ps) => "Done: "@ + decimal(ps@.len()) + " files"@,
        JobResult::Text(t) => "Result: "@ + text_preview(t@),
    }
}

/// A text result whose UTF-8 form is longer than 30 bytes can be cut at byte
/// 30 only where a character starts there.
pub open spec fn result_previewable(result: JobResult) -> bool {
    match result {
        JobResult::Text(t) => vstd::utf8::encode_utf8(t@).len() > 30
            ==> vstd::utf8::is_char_boundary(vstd::utf8::encode_utf8(t@), 30),
        _ => true,
    }
}

/// The message of a job that finished with `result`.
pub fn done_toast(result: &JobResult) -> (m: String)
    requires
        result_previewable(*result),
    ensures
        m@ == done_message(*result),
{
    match result {
        JobResult::File(p) => {
            let mut m = String::from_str("Done: ");
            match path_file_name(p.as_str()) {
                Some(n) => m.append(n.as_str()),
                None => m.append(p.as_str()),
            }
            m
        },
        JobResult::Files(ps) => {
            let mut m = String::from_str("Done: ");
            append_decimal(&mut m, ps.len());
            m.append(" files");
            assert(m@ == done_message(*result));
            m
        },
        JobResult::Text(t) => {
            let s = t.as_str();
            let mut m = String::from_str("Result: ");
            if s.as_bytes().len() > 30 {
                let (a, _) = s.split_at(30);
                proof {
                    vstd::utf8::encode_utf8_decode_utf8(a@);
                }
                assert(a@ == text_preview(t@));
                m.append(a);
            } else {
                m.append(s);
            }
            assert(m@ == done_message(*result));
            m
        },
    }
}

/// How a line of a finished job's result card is shown.
#[derive(Debug, Clone, Copy, PartialEq, Eq, Structural)]
pub enum CardLineStyle {
    /// Muted text (file names, the file count).
    Muted,
    /// Dimmed text (the count of files not listed).
    Dim,
    /// Plain text (a text result).
    Plain,
}

/// The button under a finished job's result card.
#[derive(Debug, Clone, Copy, PartialEq, Eq, Structural)]
pub enum CardAction {
    OpenFile,
    ShowInFolder,
    Copy,
}

/// What the result card of a finished job shows: its lines, then a button.
pub struct ResultCard {
    pub lines: Vec<(String, CardLineStyle)>,
    pub action: CardAction,
}

/// At most this many file names are listed on a result card.
pub const CARD_MAX_FILES: usize = 5;

/// At most this many bytes of a text result are shown on its card.
pub const CARD_MAX_TEXT_BYTES: usize = 200;

/// How a path is named on a card: its file name, or the whole path when it
/// has none.
pub open spec fn display_name(p: Seq<char>) -> Seq<char> {
    match file_name_of(p) {
        Some(n) => n,
        None => p,
    }
}

/// The first `n` bytes of `t`'s UTF-8 text, as characters, when it is
/// longer; `t` itself otherwise.
pub open spec fn text_prefix(t: Seq<char>, n: nat) -> Seq<char> {
    if vstd::utf8::encode_utf8(t).len() > n {
        vstd::utf8::decode_utf8(vstd::utf8::encode_utf8(t).subrange(0, n as int))
    } else {
        t
    }
}

/// The lines of the card of a finished job.
pub open spec fn card_lines(result: JobResult) -> Seq<(Seq<char>, CardLineStyle)> {
    match result {
        JobResult::File(p) => seq![(display_name(p@), CardLineStyle::Muted)],
        JobResult::Files(ps) => {
            let shown = if ps@.len() > CARD_MAX_FILES { CARD_MAX_FILES as nat } else { ps@.len() };
            seq![(decimal(ps@.len()) + " files produced"@, CardLineStyle::Muted)]
                + Seq::new(shown, |i: int| (display_name(ps@[i]@), CardLineStyle::Muted))
                + if ps@.len() > CARD_MAX_FILES {
                    seq![("+ "@ + decimal((ps@.len() - CARD_MAX_FILES) as nat) + " more"@, CardLineStyle::Dim)]
                } else {
                    Seq::empty()
                }
        },
        JobResult::Text(t) => seq![(text_prefix(t@, CARD_MAX_TEXT_BYTES as nat), CardLineStyle::Plain)],
    }
}

/// The button of the card of a finished job.
pub open spec fn card_action(result: JobResult) -> CardAction {
    match result {
        JobResult::File(_) => CardAction::OpenFile,
        JobResult::Files(_) => CardAction::ShowInFolder,
        JobResult::Text(_) => CardAction::Copy,
    }
}

/// Card lines by their characters.
pub open spec fn card_lines_view(lines: Seq<(String, CardLineStyle)>) -> Seq<(Seq<char>, CardLineStyle)> {
    lines.map_values(|l: (String, CardLineStyle)| (l.0@, l.1))
}

/// A text result longer than the card's byte limit can be cut there only
/// where a character starts.
pub open spec fn card_cuttable(result: JobResult) -> bool {
    match result {
        JobResult::Text(t) => vstd::utf8::encode_utf8(t@).len() > CARD_MAX_TEXT_BYTES
            ==> vstd::utf8::is_char_boundary(vstd::utf8::encode_utf8(t@), CARD_MAX_TEXT_BYTES as int),
        _ => true,
    }
}

/// The name a card shows for a path.
fn display_name_of(p: &str) -> (r: String)
    ensures
        r@ == display_name(p@),
{
    match path_file_name(p) {
        Some(n) => n,
        None => p.to_string(),
    }
}

/// The result card of a finished job: the file name of a file result; the
/// count and the first few names of a file list, with how many more there
/// are; the start of a text result.
pub fn result_card(result: &JobResult) -> (c: ResultCard)
    requires
        card_cuttable(*result),
    ensures
        card_lines_view(c.lines@) == card_lines(*result),
        c.action == card_action(*result),
{
    match result {
        JobResult::File(p) => {
            let mut lines: Vec<(String, CardLineStyle)> = Vec::new();
            lines.push((display_name_of(p.as_str()), CardLineStyle::Muted));
            assert(card_lines_view(lines@) =~= card_lines(*result));
            ResultCard { lines, action: CardAction::OpenFile }
        },
        JobResult::Files(ps) => {
            let mut lines: Vec<(String, CardLineStyle)> = Vec::new();
            let mut count = String::new();
            append_decimal(&mut count, ps.len());
            count.append(" files produced");
            lines.push((count, CardLineStyle::Muted));
            let shown = if ps.len() > CARD_MAX_FILES { CARD_MAX_FILES } else { ps.len() };
            let ghost head = seq![(decimal(ps@.len()) + " files produced"@, CardLineStyle::Muted)];
            assert(card_lines_view(lines@) =~= head);
            let mut i: usize = 0;
            while i < shown
                invariant
                    shown <= ps@.len(),
                    i <= shown,
                    card_lines_view(lines@) =~= head + Seq::new(i as nat, |k: int| (display_name(ps@[k]@), CardLineStyle::Muted)),
                decreases shown - i,
            {
                let ghost prev = lines@;
                let name = display_name_of(ps[i].as_str());
                assert(name@ == display_name(ps@[i as int]@));
                lines.push((name, CardLineStyle::Muted));
                assert(card_lines_view(lines@) =~= card_lines_view(prev).push((display_name(ps@[i as int]@), CardLineStyle::Muted)));
                assert(head + Seq::new((i + 1) as nat, |k: int| (display_name(ps@[k]@), CardLineStyle::Muted))
                    =~= (head + Seq::new(i as nat, |k: int| (display_name(ps@[k]@), CardLineStyle::Muted))).push((display_name(ps@[i as int]@), CardLineStyle::Muted)));
                i = i + 1;
            }
            if ps.len() > CARD_MAX_FILES {
                let mut more = String::from_str("+ ");
                append_decimal(&mut more, ps.len() - CARD_MAX_FILES);
                more.append(" more");
                lines.push((more, CardLineStyle::Dim));
            }
            assert(card_lines_view(lines@) =~= card_lines(*result));
            ResultCard { lines, action: CardAction::ShowInFolder }
        },
        JobResult::Text(t) => {
            let s = t.as_str();
            let mut lines: Vec<(String, CardLineStyle)> = Vec::new();
            if s.as_bytes().len() > CARD_MAX_TEXT_BYTES {
                let (a, _) = s.split_at(CARD_MAX_TEXT_BYTES);
                proof {
                    vstd::utf8::encode_utf8_decode_utf8(a@);
                }
                lines.push((a.to_string(), CardLineStyle::Plain));
            } else {
                lines.push((s.to_string(), CardLineStyle::Plain));
            }
            assert(card_lines_view(lines@) =~= card_lines(*result));
            ResultCard { lines, action: CardAction::Copy }
        },
    }
}

/// Kind of a toast notification.
#[derive(Debug, Clone, Copy, PartialEq, Eq, Structural)]
pub enum ToastKind {
    Success,
    Error,
}

/// Events sent from background tasks about a job.
#[derive(Debug)]
pub enum JobEvent {
    Progress { job_id: u64, message: String },
    Done { job_id: u64, result: JobResult },
    Error { job_id: u64, message: String },
}

/// The job an event is about.
pub open spec fn event_job_id(e: JobEvent) -> u64 {
    match e {
        JobEvent::Progress { job_id, .. } => job_id,
        JobEvent::Done { job_id, .. } => job_id,
        JobEvent::Error { job_id, .. } => job_id,
    }
}

/// Position of the job with id `id` among `jobs`, if there is one.
pub open spec fn index_of_job(jobs: Seq<Job>, id: u64) -> Option<int> {
    if exists|k: int| 0 <= k < jobs.len() && (#[trigger] jobs[k]).id == id {
        Some(choose|k: int| 0 <= k < jobs.len() && (#[trigger] jobs[k]).id == id)
    } else {
        None
    }
}

/// `b` is `a` but at position `k`.
pub open spec fn same_but(a: Seq<Job>, b: Seq<Job>, k: int) -> bool {
    &&& a.len() == b.len()
    &&& forall|i: int| 0 <= i < a.len() && i != k ==> #[trigger] b[i] == a[i]
    &&& b[k].id == a[k].id
    &&& b[k].tool_id == a[k].tool_id
}

/// The message of a job that was just started for `tool`.
pub open spec fn running_message(tool: Seq<char>) -> Seq<char> {
    label_for(tool) + "..."@
}

/// The jobs of the app, oldest first, and the id the next one gets.
pub struct JobList {
    jobs: Vec<Job>,
    next_job_id: u64,
}

impl JobList {
    /// The jobs, oldest first.
    pub closed spec fn jobs(&self) -> Seq<Job> {
        self.jobs@
    }

    /// The id the next started job gets.
    pub closed spec fn next_id_spec(&self) -> u64 {
        self.next_job_id
    }

    /// Ids increase with age and stay below the next id.
    pub open spec fn wf(&self) -> bool {
        &&& forall|i: int, j: int| 0 <= i < j < self.jobs().len() ==> (#[trigger] self.jobs()[i]).id < (#[trigger] self.jobs()[j]).id
        &&& forall|i: int| 0 <= i < self.jobs().len() ==> (#[trigger] self.jobs()[i]).id < self.next_id_spec()
    }

    /// No jobs; the first gets id 1.
    pub fn new() -> (l: Self)
        ensures
            l.wf(),
            l.jobs().len() == 0,
            l.next_id_spec() == 1,
    {
        JobList { jobs: Vec::new(), next_job_id: 1 }
    }

    /// The id the next started job gets.
    pub fn next_id(&self) -> (r: u64)
        ensures
            r == self.next_id_spec(),
    {
        self.next_job_id
    }

    /// All jobs, oldest first.
    pub fn all(&self) -> (r: &Vec<Job>)
        ensures
            r@ == self.jobs(),
    {
        &self.jobs
    }

    /// Position of the job with id `job_id`.
    fn position(&self, job_id: u64) -> (r: Option<usize>)
        requires
            self.wf(),
        ensures
            match r {
                Some(k) => index_of_job(self.jobs(), job_id) == Some(k as int) && k < self.jobs().len(),
                None => index_of_job(self.jobs(), job_id) is None,
            },
    {
        let mut i: usize = 0;
        while i < self.jobs.len()
            invariant
                self.wf(),
                i <= self.jobs@.len(),
                forall|j: int| 0 <= j < i ==> (#[trigger] self.jobs@[j]).id != job_id,
            decreases self.jobs@.len() - i,
        {
            if self.jobs[i].id == job_id {
                proof {
                    let jobs = self.jobs();
                    assert(jobs[i as int].id == job_id);
                    let k = choose|k: int| 0 <= k < jobs.len() && (#[trigger] jobs[k]).id == job_id;
                    if k < i {
                        assert(jobs[k].id < jobs[i as int].id);
                    } else if k > i {
                        assert(jobs[i as int].id < jobs[k].id);
                    }
                }
                return Some(i);
            }
            i = i + 1;
        }
        None
    }

    /// Start a job for `tool_id` with the id `next_id()` gives. `outcome` is
    /// what handing the work out gave: `Ok` makes a running job whose message
    /// is the tool's label and `...`; `Err(msg)` a failed job with `msg`.
    /// Returns the job's id.
    pub fn start_job(&mut self, tool_id: &'static str, outcome: Result<(), String>) -> (id: u64)
        requires
            old(self).wf(),
            old(self).next_id_spec() < u64::MAX,
        ensures
            final(self).wf(),
            id == old(self).next_id_spec(),
            final(self).next_id_spec() == id + 1,
            final(self).jobs().len() == old(self).jobs().len() + 1,
            final(self).jobs().take(old(self).jobs().len() as int) == old(self).jobs(),
            ({
                let j = final(self).jobs().last();
                &&& j.id == id
                &&& j.tool_id == tool_id
                &&& j.result is None
                &&& match outcome {
                    Ok(_) => j.status == JobStatus::Running && j.message@ == running_message(tool_id@),
                    Err(m) => j.status == JobStatus::Error && j.message@ == m@,
                }
            }),
    {
        let id = self.next_job_id;
        self.next_job_id = id + 1;
        let (status, message) = match outcome {
            Ok(_) => {
                let mut m = match find_tool(tool_id) {
                    Some(t) => String::from_str(t.label),
                    None => String::from_str(tool_id),
                };
                m.append("...");
                (JobStatus::Running, m)
            },
            Err(m) => (JobStatus::Error, m),
        };
        let ghost old_jobs = self.jobs@;
        self.jobs.push(Job { id, tool_id, status, message, result: None });
        assert(self.jobs@.take(old_jobs.len() as int) =~= old_jobs);
        id
    }

    /// Apply a job event: progress replaces the job's message; completion marks
    /// it done with its result and the done message; an error marks it failed
    /// with the error's message. Returns the toast to show (none for
    /// progress). An event for an unknown job changes nothing.
    pub fn apply_event(&mut self, event: JobEvent) -> (toast: Option<(ToastKind, String)>)
        requires
            old(self).wf(),
            event matches JobEvent::Done { result, .. } ==> result_previewable(result),
        ensures
            final(self).wf(),
            final(self).next_id_spec() == old(self).next_id_spec(),
            match index_of_job(old(self).jobs(), event_job_id(event)) {
                None => final(self).jobs() == old(self).jobs() && toast is None,
                Some(k) => {
                    let (a, b) = (old(self).jobs()[k], final(self).jobs()[k]);
                    &&& same_but(old(self).jobs(), final(self).jobs(), k)
                    &&& match event {
                        JobEvent::Progress { message, .. } => b.status == a.status && b.message@ == message@
                            && b.result == a.result && toast is None,
                        JobEvent::Done { result, .. } => b.status == JobStatus::Done
                            && b.message@ == done_message(result) && b.result == Some(result)
                            && (toast matches Some((kind, m)) && kind == ToastKind::Success && m@ == done_message(result)),
                        JobEvent::Error { message, .. } => b.status == JobStatus::Error && b.message@ == message@
                            && b.result == a.result
                            && (toast matches Some((kind, m)) && kind == ToastKind::Error && m@ == message@),
                    }
                },
            },
    {
        let id = match &event {
            JobEvent::Progress { job_id, .. } => *job_id,
            JobEvent::Done { job_id, .. } => *job_id,
            JobEvent::Error { job_id, .. } => *job_id,
        };
        let k = match self.position(id) {
            Some(k) => k,
            None => return None,
        };
        let ghost old_jobs = self.jobs@;
        let mut job = self.jobs.remove(k);
        let toast = match event {
            JobEvent::Progress { message, .. } => {
                job.message = message;
                None
            },
            JobEvent::Done { result, .. } => {
                let msg = done_toast(&result);
                job.status = JobStatus::Done;
                job.message = msg.clone();
                job.result = Some(result);
                Some((ToastKind::Success, msg))
            },
            JobEvent::Error { message, .. } => {
                job.status = JobStatus::Error;
                job.message = message.clone();
                Some((ToastKind::Error, message))
            },
        };
        self.jobs.insert(k, job);
        proof {
            assert(self.jobs@ =~= old_jobs.update(k as int, job));
        }
        toast
    }

    /// Cancel the job `job_id` if it is running: it becomes failed with the
    /// message `Cancelled`. Returns whether it was running.
    pub fn cancel_job(&mut self, job_id: u64) -> (cancelled: bool)
        requires
            old(self).wf(),
        ensures
            final(self).wf(),
            final(self).next_id_spec() == old(self).next_id_spec(),
            match index_of_job(old(self).jobs(), job_id) {
                Some(k) if old(self).jobs()[k].status == JobStatus::Running => {
                    let b = final(self).jobs()[k];
                    &&& cancelled
                    &&& same_but(old(self).jobs(), final(self).jobs(), k)
                    &&& b.status == JobStatus::Error
                    &&& b.message@ == "Cancelled"@
                    &&& b.result == old(self).jobs()[k].result
                },
                _ => !cancelled && final(self).jobs() == old(self).jobs(),
            },
    {
        let k = match self.position(job_id) {
            Some(k) => k,
            None => return false,
        };
        if self.jobs[k].status != JobStatus::Running {
            return false;
        }
        let ghost old_jobs = self.jobs@;
        let mut job = self.jobs.remove(k);
        job.status = JobStatus::Error;
        job.message = String::from_str("Cancelled");
        self.jobs.insert(k, job);
        proof {
            assert(self.jobs@ =~= old_jobs.update(k as int, job));
        }
        true
    }

    /// The job with id `job_id`.
    pub fn job(&self, job_id: u64) -> (r: Option<&Job>)
        requires
            self.wf(),
        ensures
            match index_of_job(self.jobs(), job_id) {
                Some(k) => r == Some(&self.jobs()[k]),
                None => r is None,
            },
    {
        match self.position(job_id) {
            Some(k) => Some(&self.jobs[k]),
            None => None,
        }
    }

    /// The newest finished (done or failed) job of `tool_id`.
    pub fn latest_job_for_tool(&self, tool_id: &str) -> (r: Option<&Job>)
        ensures
            match r {
                Some(j) => exists|k: int| 0 <= k < self.jobs().len() && *j == self.jobs()[k]
                    && finished_for(self.jobs()[k], tool_id@)
                    && forall|i: int| k < i < self.jobs().len() ==> !finished_for(#[trigger] self.jobs()[i], tool_id@),
                None => forall|i: int| 0 <= i < self.jobs().len() ==> !finished_for(#[trigger] self.jobs()[i], tool_id@),
            },
    {
        let mut i = self.jobs.len();
        while i > 0
            invariant
                i <= self.jobs@.len(),
                forall|j: int| i <= j < self.jobs@.len() ==> !finished_for(#[trigger] self.jobs@[j], tool_id@),
            decreases i,
        {
            i = i - 1;
            let j = &self.jobs[i];
            if str_eq(j.tool_id, tool_id) && j.status != JobStatus::Running {
                assert(finished_for(self.jobs()[i as int], tool_id@));
                return Some(j);
            }
        }
        None
    }

    /// The newest running job, if any.
    pub fn newest_running(&self) -> (r: Option<u64>)
        ensures
            match r {
                Some(id) => exists|k: int| 0 <= k < self.jobs().len() && self.jobs()[k].id == id
                    && self.jobs()[k].status == JobStatus::Running
                    && forall|i: int| k < i < self.jobs().len() ==> (#[trigger] self.jobs()[i]).status != JobStatus::Running,
                None => forall|i: int| 0 <= i < self.jobs().len() ==> (#[trigger] self.jobs()[i]).status != JobStatus::Running,
            },
    {
        let mut i = self.jobs.len();
        while i > 0
            invariant
                i <= self.jobs@.len(),
                forall|j: int| i <= j < self.jobs@.len() ==> (#[trigger] self.jobs@[j]).status != JobStatus::Running,
            decreases i,
        {
            i = i - 1;
            if self.jobs[i].status == JobStatus::Running {
                return Some(self.jobs[i].id);
            }
        }
        None
    }

    /// Whether some job is running.
    pub fn any_running(&self) -> (r: bool)
        ensures
            r == exists|k: int| 0 <= k < self.jobs().len() && (#[trigger] self.jobs()[k]).status == JobStatus::Running,
    {
        match self.newest_running() {
            Some(_) => true,
            None => false,
        }
    }
}

/// Job `j` belongs to `tool` and has finished (done or failed).
pub open spec fn finished_for(j: Job, tool: Seq<char>) -> bool {
    j.tool_id@ == tool && j.status != JobStatus::Running
}

/// A job is cancelled at most once: once `cancel_job` has marked it failed,
/// the job with that id is found at the same place and is no longer running,
/// so a second cancel of the same id changes nothing.
pub proof fn law_cancel_once(before: Seq<Job>, after: Seq<Job>, k: int)
    requires
        forall|i: int, j: int| 0 <= i < j < before.len() ==> (#[trigger] before[i]).id < (#[trigger] before[j]).id,
        0 <= k < before.len(),
        same_but(before, after, k),
        after[k].status == JobStatus::Error,
    ensures
        index_of_job(after, before[k].id) == Some(k),
        after[k].status != JobStatus::Running,
{
    let id = before[k].id;
    assert(after[k].id == id);
    let m = choose|m: int| 0 <= m < after.len() && (#[trigger] after[m]).id == id;
    if m != k {
        assert(after[m] == before[m]);
        if m < k {
            assert(before[m].id < before[k].id);
        } else {
            assert(before[k].id < before[m].id);
        }
    }
}

} // verus!
