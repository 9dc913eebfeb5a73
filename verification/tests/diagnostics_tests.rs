use openportal::destination::Destination;
use openportal::diagnostics::{DiagnosticsTracker, JobKey};

fn key(destination: &str, instruction: &str) -> JobKey {
    let d = Destination::parse(destination).unwrap_or_else(|e| unreachable!("{:?}", e));
    JobKey::from_job(&d, instruction)
}

#[test]
fn failures_are_merged_by_kind_and_reported_latest_first() {
    let second: i64 = 1_000_000_000;
    let mut t = DiagnosticsTracker::new();
    t.record_failed_job(key("a.b", "add_user x"), "first".to_string(), 0);
    t.record_failed_job(key("a.c", "add_user y"), "other".to_string(), second);
    t.record_failed_job(key("a.b", "add_user x"), "second".to_string(), 2 * second);
    let r = t.generate_report("agent", 3 * second);
    assert_eq!(r.agent_name, "agent");
    assert_eq!(r.generated_at, 3 * second);
    assert_eq!(r.failed_jobs.len(), 2);
    assert_eq!(r.failed_jobs[0].destination, "a.c");
    assert_eq!(r.failed_jobs[1].destination, "a.b");
    assert_eq!(r.failed_jobs[1].error_message, "second");
    assert_eq!(r.failed_jobs[1].count, 2);
    assert_eq!(r.failed_jobs[1].first_seen, 0);
    assert_eq!(r.failed_jobs[1].last_seen, 2 * second);
    assert!(r.warnings.is_empty());
}

#[test]
fn failed_kinds_are_capped_oldest_first() {
    let mut t = DiagnosticsTracker::new();
    for i in 0..250 {
        t.record_failed_job(key("a.b", &format!("job {}", i)), "e".to_string(), i);
    }
    let r = t.generate_report("agent", 300);
    assert_eq!(r.failed_jobs.len(), 100);
    assert_eq!(r.failed_jobs[0].instruction, "job 249");
    assert_eq!(r.failed_jobs[99].instruction, "job 150");
}

#[test]
fn warnings_name_what_is_wrong() {
    let second: i64 = 1_000_000_000;
    let mut t = DiagnosticsTracker::new();
    for _ in 0..10 {
        t.record_failed_job(key("a.b", "flaky"), "e".to_string(), 0);
    }
    t.record_job_started(key("a.b", "slow"), 0);
    t.record_job_started(key("a.c", "quick"), 400 * second);
    for i in 0..51 {
        t.record_expired_job(key("a.b", &format!("late {}", i)), 0, i);
    }
    let r = t.generate_report("agent", 500 * second);
    assert_eq!(
        r.warnings,
        vec![
            "High failure rate detected for 1 job type(s)".to_string(),
            "1 job(s) running longer than 5 minutes".to_string(),
            "High number of expired jobs: 51 tracked".to_string(),
        ]
    );
    assert_eq!(r.expired_jobs.len(), 51);
    assert_eq!(r.expired_jobs[0].instruction, "late 50");
}

#[test]
fn running_jobs_are_counted_and_ordered_by_age() {
    let second: i64 = 1_000_000_000;
    let mut t = DiagnosticsTracker::new();
    t.record_job_started(key("a.b", "young"), 90 * second);
    t.record_job_started(key("a.b", "old"), 10 * second);
    t.record_job_started(key("a.b", "old"), 50 * second);
    let r = t.generate_report("agent", 100 * second);
    assert_eq!(r.running_jobs.len(), 2);
    assert_eq!(r.running_jobs[0].instruction, "old");
    assert_eq!(r.running_jobs[0].count, 2);
    assert_eq!(r.running_jobs[0].running_for_seconds, 90);
    assert_eq!(r.running_jobs[1].running_for_seconds, 10);

    t.record_job_finished(&key("a.b", "old"));
    t.record_job_finished(&key("a.b", "young"));
    let r = t.generate_report("agent", 100 * second);
    assert_eq!(r.running_jobs.len(), 1);
    assert_eq!(r.running_jobs[0].count, 1);
    t.record_job_finished(&key("a.b", "old"));
    t.record_job_finished(&key("a.b", "never started"));
    assert!(t.generate_report("agent", 0).running_jobs.is_empty());
}
