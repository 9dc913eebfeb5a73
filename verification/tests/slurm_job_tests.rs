use openportal::slurm::{Attempt, ReportTotals, SlurmJob, SlurmNode};

fn record(id: u64, submitted: i64, restart: u64, start: i64, end: i64, states: &[&str]) -> SlurmJob {
    SlurmJob {
        id,
        user: "alice".to_string(),
        account: "proj.portal".to_string(),
        cluster: "cluster".to_string(),
        node_info: SlurmNode::new(128, 0, 1000, 128),
        start_time: start,
        original_start_time: start,
        eligible_time: submitted,
        end_time: end,
        submission_time: submitted,
        restart_count: restart,
        duration: (end - start).max(0) as u64,
        states: states.iter().map(|s| s.to_string()).collect(),
        failed_node: String::new(),
        attempt: Attempt::Base,
        qos: "normal".to_string(),
        nodes: 1,
        cpus: 64,
        gpus: 0,
        memory: 500,
        requested_nodes: 1,
        requested_cpus: 64,
        requested_gpus: 0,
        requested_memory: 500,
        energy: 0,
        billing: 64,
        requested_billing: 64,
    }
}

#[test]
fn attempts_of_a_requeued_job_are_classified() {
    let mut jobs = vec![
        record(7, 100, 1, 3000, 4000, &["COMPLETED"]),
        record(7, 0, 0, 10, 2000, &["PENDING", "REQUEUED"]),
        record(8, 50, 0, 60, 70, &["COMPLETED"]),
    ];
    jobs[2].attempt = Attempt::Requeued;
    SlurmJob::classify_attempts(&mut jobs);
    assert_eq!(jobs[0].attempt, Attempt::Base);
    assert_eq!(jobs[1].attempt, Attempt::Requeued);
    // a record alone in its job is left as it was
    assert_eq!(jobs[2].attempt, Attempt::Requeued);
}

#[test]
fn a_reused_job_id_is_not_a_requeue() {
    // the second record's restart count does not rise: another job, same id
    let mut jobs = vec![
        record(9, 0, 0, 10, 20, &["COMPLETED"]),
        record(9, 100, 0, 110, 120, &["COMPLETED"]),
    ];
    SlurmJob::classify_attempts(&mut jobs);
    assert_eq!(jobs[0].attempt, Attempt::Base);
    assert_eq!(jobs[1].attempt, Attempt::Base);
}

#[test]
fn test_a_zero_duration_final_attempt_leaves_the_base_figure_alone() {
    // job 500 ran for two hours, was requeued, and its replacement was
    // cancelled before it ran
    let jobs = vec![
        record(500, 0, 0, 0, 7200, &["PENDING", "REQUEUED"]),
        record(500, 7200, 1, 7300, 7300, &["CANCELLED"]),
    ];
    let consumers = match SlurmJob::consumers_of(jobs, 0, 86400) {
        Ok(c) => c,
        Err(e) => unreachable!("consumers: {:?}", e),
    };
    assert_eq!(consumers.len(), 1);
    assert_eq!(consumers[0].attempt, Attempt::Requeued);
    assert_eq!(consumers[0].cpu_seconds(), 64 * 7200);
    // all of its two hours are in the requeue figure
    let requeued: i64 = consumers
        .iter()
        .filter(|j| j.id == 500 && j.attempt == Attempt::Requeued)
        .map(|j| j.duration())
        .sum();
    assert_eq!(requeued, 7200);
    let base: u64 = consumers
        .iter()
        .filter(|j| j.attempt == Attempt::Base)
        .map(|j| j.cpu_seconds())
        .sum();
    assert_eq!(base, 0);
}

#[test]
fn consumers_are_clipped_to_the_window() {
    let jobs = vec![
        record(1, 0, 0, 50, 250, &["COMPLETED"]),
        record(2, 0, 0, 300, 400, &["COMPLETED"]),
    ];
    let c = match SlurmJob::consumers_of(jobs, 100, 200) {
        Ok(c) => c,
        Err(e) => unreachable!("consumers: {:?}", e),
    };
    assert_eq!(c.len(), 1);
    assert_eq!(c[0].start_time, 100);
    assert_eq!(c[0].end_time, 200);
    assert_eq!(c[0].original_start_time, 50);
    assert_eq!(c[0].duration(), 100);
    assert!(SlurmJob::consumers_of(vec![], 200, 100).is_err());
}

#[test]
fn terminal_state_follows_precedence() {
    let j = record(1, 0, 0, 0, 10, &["pending", "requeued", "node_fail"]);
    assert_eq!(j.terminal_state(), "NODE_FAIL");
    let j = record(1, 0, 0, 0, 10, &["COMPLETED", "TIMEOUT"]);
    assert_eq!(j.terminal_state(), "TIMEOUT");
    let j = record(1, 0, 0, 0, 10, &["PENDING"]);
    assert_eq!(j.terminal_state(), "OTHER");
}

#[test]
fn waits_and_usage() {
    let mut j = record(1, 100, 0, 160, 220, &["COMPLETED"]);
    assert_eq!(j.wait_time(), 60);
    j.eligible_time = 500;
    assert_eq!(j.wait_time(), 0);
    assert_eq!(j.cpu_seconds(), 64 * 60);
    assert_eq!(j.gpu_seconds(), 0);
    assert_eq!(j.memory_seconds(), 500 * 60);
    assert_eq!(j.total_duration(), 60);
    j.duration = 0;
    assert_eq!(j.duration(), 0);
}

#[test]
fn a_record_is_counted_as_a_job_only_in_the_window_it_started_in() {
    // started at 1000, eligible at 900, ran for 600 seconds
    let mut job = record(1, 900, 0, 1000, 1600, &["COMPLETED"]);
    let mut first = ReportTotals::default();
    first.count_record(&job, 0, 50, true);
    assert_eq!((first.usage(), first.num_jobs(), first.wait_seconds()), (50, 1, 100));
    assert_eq!((first.runtime_seconds(), first.expansion_jobs()), (600, 1));
    assert!(!first.saw_unfinished_job());

    // the next window sees the same record: its usage, but not a second job
    let mut next = ReportTotals::default();
    next.count_record(&job, 1500, 20, true);
    assert_eq!((next.usage(), next.num_jobs(), next.runtime_seconds()), (20, 0, 0));

    // a record still running is counted, and marks the window unfinished
    let mut running = ReportTotals::default();
    running.count_record(&job, 0, 50, false);
    assert_eq!((running.num_jobs(), running.runtime_seconds()), (1, 0));
    assert!(running.saw_unfinished_job());

    // a superseded attempt goes to the requeue figures, saturating
    job.attempt = Attempt::Requeued;
    let mut requeued = ReportTotals::default();
    requeued.count_record(&job, 0, u64::MAX - 1, true);
    assert_eq!(requeued.requeue_usage(), u64::MAX - 1);
    requeued.count_record(&job, 0, 50, true);
    assert_eq!(requeued.requeue_usage(), u64::MAX);
    assert_eq!((requeued.requeue_events(), requeued.requeue_wait_seconds()), (2, 200));
    assert_eq!((requeued.usage(), requeued.num_jobs()), (0, 0));
}

#[test]
fn a_chain_of_three_attempts_has_one_base() {
    // job 300 was requeued twice, and its records come back out of order
    let mut jobs = vec![
        record(300, 200, 2, 210, 510, &["COMPLETED"]),
        record(300, 0, 0, 10, 100, &["NODE_FAIL"]),
        record(300, 100, 1, 110, 200, &["NODE_FAIL"]),
        record(301, 0, 0, 0, 10, &["COMPLETED"]),
        record(301, 50, 1, 60, 70, &["COMPLETED"]),
    ];
    SlurmJob::classify_attempts(&mut jobs);
    let attempts: Vec<Attempt> = jobs.iter().map(|j| j.attempt).collect();
    assert_eq!(
        attempts,
        vec![
            Attempt::Base,
            Attempt::Requeued,
            Attempt::Requeued,
            Attempt::Requeued,
            Attempt::Base
        ]
    );
}
