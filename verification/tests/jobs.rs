use cologna_karaoke::jobs::ProgressThrottle;

#[test]
fn throttle_passes_new_stages_and_messages() {
    let mut t = ProgressThrottle::new();
    assert!(t.should_emit(0, "active", "Downloading... 1%"));
    // Same kind of message right away: suppressed.
    assert!(!t.should_emit(0, "active", "Downloading... 2%"));
    // Status and message-kind changes always pass.
    assert!(t.should_emit(0, "done", "Audio downloaded"));
    assert!(t.should_emit(3, "active", "Separating... 5%"));
    assert!(t.should_emit(3, "active", "Encoding audio..."));
}

#[test]
fn throttle_passes_same_kind_after_interval() {
    let mut t = ProgressThrottle::new();
    assert!(t.should_emit(1, "active", "Separating... 1%"));
    assert!(!t.should_emit(1, "active", "Separating... 2%"));
    let start = std::time::Instant::now();
    while start.elapsed() < std::time::Duration::from_millis(250) {}
    assert!(t.should_emit(1, "active", "Separating... 3%"));
    assert_eq!(t.last_kind, "Separating... %");
}

#[test]
fn throttle_holds_same_kind_within_interval() {
    let now = std::time::Instant::now();
    let mut t = ProgressThrottle::new();
    assert!(t.should_emit_after(now, None, 0, "active", "Downloading... 1%"));
    assert!(!t.should_emit_after(now, Some(10), 0, "active", "Downloading... 2%"));
    assert!(!t.should_emit_after(now, Some(199), 0, "active", "Downloading... 3%"));
    assert!(t.should_emit_after(now, Some(200), 0, "active", "Downloading... 4%"));
    assert!(t.should_emit_after(now, Some(0), 0, "done", "Audio downloaded"));
    assert!(t.should_emit_after(now, Some(0), 3, "active", "Separating... 5%"));
    assert!(t.should_emit_after(now, Some(0), 3, "active", "Encoding audio..."));
    assert_eq!(t.last_step, 3);
}

use cologna_karaoke::jobs::{JobBook, JobStatus, NextJob};

#[test]
fn queue_runs_jobs_in_order_and_skips_canceled_ones() {
    let mut q = JobBook::new();
    assert!(q.enqueue("a".into(), "u1".into()));
    assert!(!q.enqueue("b".into(), "u2".into()));
    assert!(!q.enqueue("c".into(), "u3".into()));
    assert_eq!(q.jobs[1].status.as_str(), "queued");
    assert_eq!(q.jobs[1].message, "Queued");

    // Canceling a queued job marks it at once and drops it from the pending ids.
    assert_eq!(q.cancel("b"), Some(1));
    assert_eq!(q.jobs[1].status, JobStatus::Canceled);
    assert_eq!(q.pending.iter().cloned().collect::<Vec<String>>(), vec!["a".to_string(), "c".to_string()]);

    assert_eq!(q.next_job(), NextJob::Run(0));
    assert_eq!(q.jobs[0].status, JobStatus::Active);
    assert_eq!(q.jobs[0].message, "Starting...");
    // Canceling a running job only remembers the id.
    assert_eq!(q.cancel("a"), None);
    assert_eq!(q.record_progress("a", 3, "active", "Separating... 5%"), Some(0));
    assert_eq!(q.jobs[0].current_step, 3);
    assert_eq!(q.finish("a", Ok(())), Some(0));
    assert_eq!(q.jobs[0].status, JobStatus::Done);
    assert_eq!(q.jobs[0].message, "Done");

    assert_eq!(q.next_job(), NextJob::Run(2));
    assert_eq!(q.finish("c", Err("boom".into())), Some(2));
    assert_eq!(q.jobs[2].status.as_str(), "error");
    assert_eq!(q.jobs[2].error.as_deref(), Some("boom"));

    assert_eq!(q.next_job(), NextJob::Drained);
    assert!(!q.worker_alive);
}

#[test]
fn canceled_pending_id_is_reported_when_reached() {
    let mut q = JobBook::new();
    q.enqueue("a".into(), "u".into());
    q.cancel_ids.push("a".into());
    assert_eq!(q.next_job(), NextJob::Canceled(0));
    assert_eq!(q.jobs[0].status, JobStatus::Canceled);
    q.pending.push_back("ghost".into());
    assert_eq!(q.next_job(), NextJob::Skipped);
    assert_eq!(q.record_progress("nope", 1, "error", "x"), None);
}
