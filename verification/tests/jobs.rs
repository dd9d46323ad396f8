use esox::jobs::{done_toast, result_card, CardAction, CardLineStyle, JobEvent, JobList, JobResult, JobStatus, ToastKind};

#[test]
fn start_and_finish_job() {
    let mut jobs = JobList::new();
    assert_eq!(jobs.next_id(), 1);
    let id = jobs.start_job("download", Ok(()));
    assert_eq!(id, 1);
    assert_eq!(jobs.next_id(), 2);
    let j = jobs.job(id).unwrap();
    assert_eq!(j.status, JobStatus::Running);
    assert_eq!(j.message, "Download...");
    assert!(jobs.any_running());
    assert_eq!(jobs.newest_running(), Some(1));

    let toast = jobs.apply_event(JobEvent::Done { job_id: id, result: JobResult::File("/tmp/out/video.mp4".to_string()) });
    assert_eq!(toast, Some((ToastKind::Success, "Done: video.mp4".to_string())));
    let j = jobs.job(id).unwrap();
    assert_eq!(j.status, JobStatus::Done);
    assert_eq!(j.message, "Done: video.mp4");
    assert!(!jobs.any_running());
    assert_eq!(jobs.latest_job_for_tool("download").map(|j| j.id), Some(1));
}

#[test]
fn unknown_tool_label_and_failed_dispatch() {
    let mut jobs = JobList::new();
    let a = jobs.start_job("teleport", Ok(()));
    assert_eq!(jobs.job(a).unwrap().message, "teleport...");
    let b = jobs.start_job("pdf-compress", Ok(()));
    assert_eq!(jobs.job(b).unwrap().message, "Compress PDF...");
    let c = jobs.start_job("zip", Err("Select files to zip".to_string()));
    let j = jobs.job(c).unwrap();
    assert_eq!(j.status, JobStatus::Error);
    assert_eq!(j.message, "Select files to zip");
    assert_eq!(jobs.latest_job_for_tool("zip").map(|j| j.id), Some(3));
    assert!(jobs.latest_job_for_tool("download").is_none());
}

#[test]
fn progress_error_and_cancel() {
    let mut jobs = JobList::new();
    let a = jobs.start_job("convert", Ok(()));
    let b = jobs.start_job("resize", Ok(()));
    assert_eq!(jobs.apply_event(JobEvent::Progress { job_id: a, message: "Converting...".to_string() }), None);
    assert_eq!(jobs.job(a).unwrap().message, "Converting...");
    assert_eq!(jobs.job(a).unwrap().status, JobStatus::Running);

    let toast = jobs.apply_event(JobEvent::Error { job_id: b, message: "disk full".to_string() });
    assert_eq!(toast, Some((ToastKind::Error, "disk full".to_string())));
    assert_eq!(jobs.job(b).unwrap().status, JobStatus::Error);

    assert_eq!(jobs.newest_running(), Some(a));
    assert!(jobs.cancel_job(a));
    assert_eq!(jobs.job(a).unwrap().message, "Cancelled");
    assert_eq!(jobs.job(a).unwrap().status, JobStatus::Error);
    // Only a running job can be cancelled.
    assert!(!jobs.cancel_job(a));
    assert!(!jobs.cancel_job(99));
    assert_eq!(jobs.newest_running(), None);
}

#[test]
fn event_for_unknown_job_changes_nothing() {
    let mut jobs = JobList::new();
    let a = jobs.start_job("zip", Ok(()));
    assert_eq!(jobs.apply_event(JobEvent::Error { job_id: 42, message: "x".to_string() }), None);
    assert_eq!(jobs.job(a).unwrap().status, JobStatus::Running);
    assert_eq!(jobs.all().len(), 1);
}

#[test]
fn done_messages() {
    assert_eq!(done_toast(&JobResult::File("report.pdf".to_string())), "Done: report.pdf");
    assert_eq!(done_toast(&JobResult::File("/".to_string())), "Done: /");
    assert_eq!(
        done_toast(&JobResult::Files(vec!["a".to_string(), "b".to_string(), "c".to_string()])),
        "Done: 3 files"
    );
    assert_eq!(done_toast(&JobResult::Files(Vec::new())), "Done: 0 files");
    assert_eq!(done_toast(&JobResult::Text("short".to_string())), "Result: short");
    let long = "abcdefghijklmnopqrstuvwxyz0123456789".to_string();
    assert_eq!(done_toast(&JobResult::Text(long)), "Result: abcdefghijklmnopqrstuvwxyz0123");
}

#[test]
fn many_files_count() {
    let files: Vec<String> = (0..12).map(|i| format!("f{i}")).collect();
    assert_eq!(done_toast(&JobResult::Files(files)), "Done: 12 files");
}

#[test]
fn result_card_lists_at_most_five_files() {
    let paths: Vec<String> = (1..=7).map(|i| format!("/out/part{}.png", i)).collect();
    let card = result_card(&JobResult::Files(paths));
    let texts: Vec<&str> = card.lines.iter().map(|l| l.0.as_str()).collect();
    assert_eq!(texts, vec!["7 files produced", "part1.png", "part2.png", "part3.png", "part4.png", "part5.png", "+ 2 more"]);
    assert_eq!(card.lines[6].1, CardLineStyle::Dim);
    assert_eq!(card.lines[1].1, CardLineStyle::Muted);
    assert_eq!(card.action, CardAction::ShowInFolder);
}

#[test]
fn result_card_file_and_text() {
    let card = result_card(&JobResult::File("/tmp/clips/out.mp4".to_string()));
    assert_eq!(card.lines.len(), 1);
    assert_eq!(card.lines[0].0, "out.mp4");
    assert_eq!(card.action, CardAction::OpenFile);

    let long = "x".repeat(250);
    let card = result_card(&JobResult::Text(long));
    assert_eq!(card.lines[0].0.len(), 200);
    assert_eq!(card.lines[0].1, CardLineStyle::Plain);
    assert_eq!(card.action, CardAction::Copy);

    let card = result_card(&JobResult::Files(vec!["a.txt".to_string()]));
    let texts: Vec<&str> = card.lines.iter().map(|l| l.0.as_str()).collect();
    assert_eq!(texts, vec!["1 files produced", "a.txt"]);
}
