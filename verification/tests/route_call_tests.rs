use openportal::agent::Type;
use openportal::bridge_server::forwarded_entry_texts;
use openportal::cache::{evict_oldest_until, retain_held, Database};
use openportal::destination::Destinations;
use openportal::diagnostics::{may_forward, route_diagnostics, Route};
use openportal::error::Error;
use openportal::json::{Json, Number};
use openportal::report::project_of_account;
use openportal::login::{after_ping, call_outcome, choose_cluster, cluster_names_of, CallAction, Probe};
use openportal::sacctmgr::report_window;
use openportal::slurm::{
    clean_account_name, count_user_record, encode_path_segment, Attempt, ReportTotals, SlurmJob, SlurmNode,
    SlurmNodes, SlurmUser, StateCounts, UserCounts, count_requeue_by_state,
};

fn login_message(r: Result<String, Error>) -> String {
    match r {
        Err(Error::Login(m)) => m,
        other => unreachable!("expected a login error, got {:?}", other),
    }
}

fn obj(members: Vec<(&str, Json)>) -> Json {
    Json::Object(members.into_iter().map(|(k, v)| (k.to_string(), v)).collect())
}

fn s(t: &str) -> Json {
    Json::Str(t.to_string())
}

#[test]
fn the_requested_cluster_is_used_only_if_reported() {
    let names = vec!["alpha".to_string(), "beta".to_string()];
    assert_eq!(choose_cluster(&names, Some("beta")).unwrap(), "beta");
    assert_eq!(choose_cluster(&names, None).unwrap(), "alpha");
    assert_eq!(login_message(choose_cluster(&names, Some("gamma"))), "Requested cluster not found");
    assert_eq!(login_message(choose_cluster(&Vec::new(), None)), "No clusters found");
    assert_eq!(login_message(choose_cluster(&Vec::new(), Some("alpha"))), "No clusters found");
}

#[test]
fn cluster_names_are_read_from_the_reply() {
    let reply = obj(vec![(
        "clusters",
        Json::Array(vec![obj(vec![("name", s("alpha"))]), obj(vec![("name", Json::Number(Number::PosInt(3)))])]),
    )]);
    assert_eq!(cluster_names_of(&reply).unwrap(), vec!["alpha".to_string(), "unknown".to_string()]);
    let missing = obj(vec![]);
    assert_eq!(login_message(cluster_names_of(&missing).map(|_| String::new())), "Could not get clusters from response");
    let scalar = obj(vec![("clusters", s("alpha"))]);
    assert_eq!(login_message(cluster_names_of(&scalar).map(|_| String::new())), "Clusters is not an array");
    let empty = obj(vec![("clusters", Json::Array(vec![]))]);
    assert_eq!(login_message(cluster_names_of(&empty).map(|_| String::new())), "No clusters found");
}

fn call_message(a: CallAction) -> String {
    match a {
        CallAction::Done(Err(Error::Call(m))) => m,
        CallAction::Done(Err(Error::Any(m))) => m,
        other => unreachable!("expected an error, got {:?}", other),
    }
}

fn step(left: i64, status: Option<u16>, body: Option<Json>) -> CallAction {
    call_outcome(
        left,
        status,
        body,
        "http://slurm/slurm/v0.0.40/jobs",
        "portal",
        "404 Not Found",
        "Response { status: 404 }",
        "[String(\"bad\")]",
    )
}

#[test]
fn each_reply_of_slurmrestd_has_one_outcome() {
    assert!(matches!(step(60, None, None), CallAction::Send));
    assert_eq!(call_message(step(4, None, None)), "Not enough time left to call Slurm server");
    assert!(matches!(step(60, Some(401), None), CallAction::Reconnect));
    assert_eq!(
        call_message(step(60, Some(500), None)),
        "500 error - slurmrestd error when calling http://slurm/slurm/v0.0.40/jobs as user portal."
    );
    assert_eq!(
        call_message(step(60, Some(404), None)),
        "Could not get response for function: http://slurm/slurm/v0.0.40/jobs. Status: 404 Not Found. Response: Response { status: 404 }"
    );
    assert_eq!(call_message(step(60, Some(200), None)), "Could not decode json from response");
    let failed = obj(vec![("errors", Json::Array(vec![s("bad")]))]);
    assert_eq!(call_message(step(60, Some(200), Some(failed))), "Slurmrestd errors: [String(\"bad\")]");
    let fine = obj(vec![("errors", Json::Array(vec![])), ("jobs", Json::Array(vec![]))]);
    match step(60, Some(200), Some(fine)) {
        CallAction::Done(Ok(Json::Object(m))) => assert_eq!(m.len(), 2),
        other => unreachable!("expected the reply, got {:?}", other),
    }
}

fn forward(r: Result<Route, Error>) -> (String, Option<String>, String, String) {
    match r {
        Ok(Route::Forward { peer, zone, remaining, target }) => (peer, zone, remaining, target),
        other => unreachable!("expected a forward, got {:?}", other),
    }
}

fn any_message(r: Result<Route, Error>) -> String {
    match r {
        Err(Error::Any(m)) => m,
        other => unreachable!("expected an error, got {:?}", other),
    }
}

#[test]
fn diagnostics_are_answered_here_or_forwarded_one_hop() {
    assert!(matches!(route_diagnostics("", "portal", false), Ok(Route::Local)));
    assert!(matches!(route_diagnostics("portal", "portal", false), Ok(Route::Local)));
    assert!(matches!(route_diagnostics("portal@brics", "portal", true), Ok(Route::Local)));
    assert_eq!(
        forward(route_diagnostics("cluster.filesystem", "portal", true)),
        ("cluster".to_string(), None, "filesystem".to_string(), "filesystem".to_string())
    );
    assert_eq!(
        forward(route_diagnostics("cluster@brics.fs@brics", "portal", true)),
        ("cluster".to_string(), Some("brics".to_string()), "fs@brics".to_string(), "fs".to_string())
    );
    assert_eq!(
        forward(route_diagnostics("cluster", "portal", true)),
        ("cluster".to_string(), None, String::new(), "cluster".to_string())
    );
    assert_eq!(
        any_message(route_diagnostics("cluster.fs", "portal", false)),
        "Leaf node agents cannot forward diagnostics requests"
    );
    assert_eq!(
        any_message(route_diagnostics("a@b@c.fs", "portal", true)),
        "Invalid format 'a@b@c' - use 'name' or 'name@zone'"
    );
}

#[test]
fn portals_do_not_forward_diagnostics_to_portals() {
    assert!(!may_forward(Type::Portal, Some(Type::Portal)));
    assert!(may_forward(Type::Portal, Some(Type::Provider)));
    assert!(may_forward(Type::Portal, None));
    assert!(may_forward(Type::Provider, Some(Type::Portal)));
}

#[test]
fn an_unreserved_segment_is_left_as_it_is() {
    assert_eq!(encode_path_segment("abc-XYZ_09.~"), "abc-XYZ_09.~");
    assert_eq!(encode_path_segment("a b/c"), "a%20b%2Fc");
    assert_eq!(encode_path_segment("é"), "%C3%A9");
}

#[test]
fn a_cleaned_account_name_cleans_to_itself() {
    let once = clean_account_name("  My/Project X ").unwrap();
    assert_eq!(once, "my_project_x");
    assert_eq!(clean_account_name(&once).unwrap(), once);
}

#[test]
fn removing_what_was_added_gives_the_set_back() {
    let a = Destinations::parse("a.b, c.d").unwrap();
    let b = Destinations::parse("e.f, g.h").unwrap();
    let back = a.add(b.clone()).remove(b);
    assert_eq!(back.to_string(), a.to_string());
}

#[test]
fn a_node_type_is_the_last_set_under_its_name_or_the_last_default() {
    let mut nodes = SlurmNodes::new(&SlurmNode::new(1, 0, 1, 1));
    nodes.set("gpu", &SlurmNode::new(8, 2, 64, 16));
    nodes.set_default(&SlurmNode::new(4, 0, 16, 4));
    nodes.set("gpu", &SlurmNode::new(16, 4, 128, 32));
    assert_eq!(nodes.get("gpu").cpus(), 16);
    assert_eq!(nodes.get("gpu").gpus(), 4);
    assert_eq!(nodes.get("cpu").cpus(), 4);
    nodes.set_default(&SlurmNode::new(2, 0, 8, 2));
    assert_eq!(nodes.get("cpu").cpus(), 2);
    assert_eq!(nodes.get("gpu").cpus(), 16);
}

fn job(id: u64, start: i64, attempt: Attempt) -> SlurmJob {
    SlurmJob {
        id,
        user: "alice".to_string(),
        account: "proj.portal".to_string(),
        cluster: "cluster".to_string(),
        node_info: SlurmNode::new(128, 0, 1000, 128),
        start_time: start,
        original_start_time: start,
        eligible_time: start,
        end_time: start + 3600,
        submission_time: start,
        restart_count: 0,
        duration: 3600,
        states: vec!["RUNNING".to_string()],
        failed_node: String::new(),
        attempt,
        qos: "normal".to_string(),
        nodes: 1,
        cpus: 64,
        gpus: 0,
        memory: 500,
        requested_nodes: 1,
        requested_cpus: 64,
        requested_gpus: 0,
        requested_memory: 500,
        energy: 0,
        billing: 64,
        requested_billing: 64,
    }
}

#[test]
fn an_unfinished_job_keeps_the_window_open() {
    let mut totals = ReportTotals::default();
    totals.count_record(&job(1, 100, Attempt::Base), 0, 10, true);
    assert!(!totals.saw_unfinished_job());
    // a superseded attempt or a job from an earlier window does not mark it
    totals.count_record(&job(2, 100, Attempt::Requeued), 0, 10, false);
    totals.count_record(&job(3, -50, Attempt::Base), 0, 10, false);
    assert!(!totals.saw_unfinished_job());
    totals.count_record(&job(4, 100, Attempt::Base), 0, 10, false);
    assert!(totals.saw_unfinished_job());
    totals.count_record(&job(5, 200, Attempt::Base), 0, 10, true);
    assert!(totals.saw_unfinished_job());
}

#[test]
fn eviction_keeps_dates_distinct() {
    let mut m: Vec<(u64, u32)> = vec![(5, 0), (1, 1), (3, 2), (9, 3)];
    evict_oldest_until(&mut m, 2);
    assert_eq!(m, vec![(5, 0), (9, 3)]);
}

#[test]
fn each_user_is_counted_once_per_window_it_started_in() {
    let mut tally: Vec<(String, UserCounts)> = Vec::new();
    let mut first = job(1, 100, Attempt::Base);
    first.eligible_time = 40;
    count_user_record(&mut tally, &first, 0, true);
    let mut other = job(2, 200, Attempt::Base);
    other.user = "bob".to_string();
    count_user_record(&mut tally, &other, 0, false);
    // a job started before this window adds its usage but is not a job here
    count_user_record(&mut tally, &job(3, -50, Attempt::Base), 0, true);
    let mut gone = job(4, 10, Attempt::Requeued);
    gone.eligible_time = 0;
    count_user_record(&mut tally, &gone, 0, true);
    assert_eq!(tally.len(), 2);
    assert_eq!(tally[0].0, "alice");
    let alice = tally[0].1;
    assert_eq!(alice.jobs, 1);
    assert_eq!(alice.wait_seconds, 60);
    assert_eq!(alice.cpu_seconds, 2 * 64 * 3600);
    assert_eq!(alice.memory_seconds, 2 * 500 * 3600);
    assert_eq!(alice.billing_seconds, 2 * 64 * 3600);
    assert_eq!(alice.expansion_jobs, 1);
    assert_eq!(alice.expansion_wait_seconds, 60);
    assert_eq!(alice.expansion_runtime_seconds, 3600);
    assert_eq!((alice.sized_jobs, alice.size_cpus, alice.size_gpus), (1, 64, 0));
    assert_eq!(alice.requeue_events, 1);
    assert_eq!(alice.requeue_wait_seconds, 10);
    assert_eq!(alice.requeue_cpu_seconds, 64 * 3600);
    assert_eq!(tally[1].0, "bob");
    let bob = tally[1].1;
    assert_eq!((bob.jobs, bob.expansion_jobs, bob.sized_jobs), (1, 0, 1));
}

#[test]
fn test_an_account_this_agent_manages_is_read_as_its_project() {
    assert_eq!(project_of_account("brics.u6dz").unwrap(), "u6dz.brics");
    assert_eq!(project_of_account(" brics.u6dz ").unwrap(), "u6dz.brics");
}

#[test]
fn test_an_account_this_agent_does_not_manage_is_discarded() {
    assert!(project_of_account("root").is_none());
    assert!(project_of_account("").is_none());
    assert!(project_of_account("brics.u6dz.extra").is_none());
    assert!(project_of_account(".u6dz").is_none());
    assert!(project_of_account("brics.").is_none());
}

#[test]
fn forwarded_entries_are_split_and_trimmed() {
    assert_eq!(
        forwarded_entry_texts(" 1.2.3.4 ,10.0.0.1,  ::1"),
        vec!["1.2.3.4".to_string(), "10.0.0.1".to_string(), "::1".to_string()]
    );
    assert_eq!(forwarded_entry_texts(""), vec![String::new()]);
}

#[test]
fn a_user_stored_twice_is_held_once() {
    let mut db = Database::new();
    db.add_user(SlurmUser::new("alice", Some("one"), vec![]));
    db.add_user(SlurmUser::new("alice", Some("two"), vec![]));
    assert_eq!(db.get_user("alice").map(|u| u.default_account().clone()), Some(Some("two".to_string())));
    db.remove_user("alice");
    assert!(db.get_user("alice").is_none());
}

#[test]
fn the_version_probe_keeps_the_last_that_answered() {
    match after_ping(&vec![0, 0, 40], true, None).unwrap() {
        Probe::Next { next, working } => {
            assert_eq!(next, vec![0, 0, 41]);
            assert_eq!(working, "0.0.40");
        },
        other => unreachable!("expected another probe, got {:?}", other),
    }
    match after_ping(&vec![0, 0, 41], false, Some("0.0.40".to_string())).unwrap() {
        Probe::Use(v) => assert_eq!(v, "0.0.40"),
        other => unreachable!("expected the last working version, got {:?}", other),
    }
    match after_ping(&vec![0, 40], true, None).unwrap() {
        Probe::Use(v) => assert_eq!(v, "0.40"),
        other => unreachable!("expected to stop, got {:?}", other),
    }
    match after_ping(&vec![0, 0, 40], false, None) {
        Err(Error::Login(m)) => assert_eq!(m, "Could not find a working version of the Slurm API"),
        other => unreachable!("expected an error, got {:?}", other),
    }
}

#[test]
fn a_future_day_has_no_window_and_today_ends_now() {
    assert_eq!(report_window(1000, 2000, 500), None);
    assert_eq!(report_window(1000, 2000, 1500), Some((1000, 1500)));
    assert_eq!(report_window(1000, 2000, 2500), Some((1000, 2000)));
    assert_eq!(report_window(1000, 2000, 1000), Some((1000, 1000)));
}

#[test]
fn only_held_entries_survive_once_over_the_cap() {
    let mut small = vec![("a", false), ("b", true)];
    retain_held(&mut small, 2);
    assert_eq!(small, vec![("a", false), ("b", true)]);
    let mut big = vec![("a", false), ("b", true), ("c", false), ("d", true)];
    retain_held(&mut big, 2);
    assert_eq!(big, vec![("b", true), ("d", true)]);
}

#[test]
fn a_requeue_is_filed_under_the_state_it_ended_in() {
    let mut states: Vec<(String, StateCounts)> = Vec::new();
    let mut lost = job(7, 100, Attempt::Requeued);
    lost.states = vec!["NODE_FAIL".to_string()];
    count_requeue_by_state(&mut states, &lost, 7200);
    count_requeue_by_state(&mut states, &lost, 100);
    // a base record files nothing
    count_requeue_by_state(&mut states, &job(8, 100, Attempt::Base), 50);
    assert_eq!(states.len(), 1);
    assert_eq!(states[0].0, "NODE_FAIL");
    assert_eq!(states[0].1, StateCounts { usage: 7300, events: 2 });

    // one that started in an earlier window is counted all the same
    let mut early = job(9, -5000, Attempt::Requeued);
    early.states = vec!["NODE_FAIL".to_string()];
    let mut totals = ReportTotals::default();
    totals.count_record(&early, 0, 7200, true);
    count_requeue_by_state(&mut states, &early, 7200);
    assert_eq!((totals.requeue_usage(), totals.requeue_events()), (7200, 1));
    assert_eq!((totals.usage(), totals.num_jobs()), (0, 0));
    assert_eq!(states[0].1, StateCounts { usage: 14500, events: 3 });
}
