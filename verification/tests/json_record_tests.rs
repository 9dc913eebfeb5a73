use openportal::cache::Database;
use openportal::error::Error;
use openportal::json::{Json, Number};
use openportal::slurm::{
    get_managed_organization, Attempt, SlurmAssociation, SlurmJob, SlurmNode, SlurmNodes, SlurmUser,
};
use openportal::slurm_account::{limit_list_in_range_check, SlurmAccount, SlurmLimit};

fn obj(members: Vec<(&str, Json)>) -> Json {
    Json::Object(members.into_iter().map(|(k, v)| (k.to_string(), v)).collect())
}

fn s(text: &str) -> Json {
    Json::Str(text.to_string())
}

fn num(n: i64) -> Json {
    if n >= 0 {
        Json::Number(Number::PosInt(n as u64))
    } else {
        Json::Number(Number::NegInt(n))
    }
}

fn call_message(e: Error) -> String {
    match e {
        Error::Call(m) => m,
        other => unreachable!("expected a call error, got {:?}", other),
    }
}

fn entry(kind: &str, name: &str, count: i64) -> Json {
    obj(vec![("type", s(kind)), ("name", s(name)), ("count", num(count))])
}

fn job(id: u64, start: i64, end: i64, elapsed: i64, submission: i64, restart: u64, state: Json) -> Json {
    obj(vec![
        ("job_id", Json::Number(Number::PosInt(id))),
        ("user", s("alice")),
        ("account", s("proj.portal")),
        ("cluster", s("cluster1")),
        ("nodes", s("gpu[01-02]")),
        (
            "time",
            obj(vec![
                ("start", num(start)),
                ("end", num(end)),
                ("eligible", num(start - 10)),
                ("elapsed", num(elapsed)),
                ("submission", num(submission)),
            ]),
        ),
        ("state", obj(vec![("current", state)])),
        ("restart_cnt", Json::Number(Number::PosInt(restart))),
        ("qos", s("normal")),
        (
            "tres",
            obj(vec![
                (
                    "allocated",
                    Json::Array(vec![
                        entry("cpu", "", 64),
                        entry("cpu", "", 64),
                        entry("mem", "", 1000),
                        entry("gres", "gpu", 4),
                        entry("gres", "shard", 9),
                        entry("node", "", 2),
                        entry("energy", "", -2),
                        entry("billing", "", 128),
                        entry("fs", "disk", 7),
                    ]),
                ),
                (
                    "requested",
                    Json::Array(vec![
                        entry("cpu", "", 32),
                        entry("energy", "", 99),
                        entry("node", "", 1),
                    ]),
                ),
            ]),
        ),
    ])
}

fn nodes() -> SlurmNodes {
    let mut n = SlurmNodes::new(&SlurmNode::new(1, 0, 1, 1));
    n.set("gpu[01-02]", &SlurmNode::new(128, 4, 512, 256));
    n
}

#[test]
fn a_node_description_gives_zero_for_what_it_leaves_out() {
    let n = match SlurmNode::construct(&obj(vec![("cpus", num(128)), ("gpus", num(4))])) {
        Ok(n) => n,
        Err(e) => unreachable!("node: {:?}", e),
    };
    assert_eq!((n.cpus(), n.gpus(), n.mem(), n.billing()), (128, 4, 0, 0));

    let bad = SlurmNode::construct(&obj(vec![("cpus", num(1)), ("mem", s("lots"))]));
    assert_eq!(
        call_message(bad.err().unwrap()),
        "Could not get mem as u64 from node"
    );
    let negative = SlurmNode::construct(&obj(vec![("gpus", num(-1))]));
    assert_eq!(
        call_message(negative.err().unwrap()),
        "Could not get gpus as u64 from node"
    );
}

#[test]
fn an_association_is_read_with_its_account_cleaned() {
    let a = match SlurmAssociation::construct(&obj(vec![
        ("user", s("bob")),
        ("account", s(" My/Project ")),
        ("cluster", s("c1")),
    ])) {
        Ok(a) => a,
        Err(e) => unreachable!("association: {:?}", e),
    };
    assert_eq!((a.user(), a.account(), a.cluster()), ("bob", "my_project", "c1"));

    let missing = SlurmAssociation::construct(&obj(vec![("account", s("p")), ("cluster", s("c"))]));
    assert_eq!(
        call_message(missing.err().unwrap()),
        "Could not get user from association"
    );
    let wrong = SlurmAssociation::construct(&obj(vec![("user", num(3))]));
    assert_eq!(
        call_message(wrong.err().unwrap()),
        "Could not get user as string from association"
    );
    let empty = SlurmAssociation::construct(&obj(vec![
        ("user", s("bob")),
        ("account", s("   ")),
        ("cluster", s("c")),
    ]));
    assert_eq!(call_message(empty.err().unwrap()), "Account name is empty");
}

#[test]
fn a_user_is_read_with_its_default_and_associations() {
    let u = match SlurmUser::construct(&obj(vec![
        ("name", s("bob")),
        ("default", obj(vec![("account", s("proj"))])),
        (
            "associations",
            Json::Array(vec![obj(vec![
                ("user", s("bob")),
                ("account", s("proj")),
                ("cluster", s("c1")),
            ])]),
        ),
    ])) {
        Ok(u) => u,
        Err(e) => unreachable!("user: {:?}", e),
    };
    assert_eq!(u.name(), "bob");
    assert_eq!(u.default_account(), &Some("proj".to_string()));
    assert_eq!(u.associations().len(), 1);
    assert_eq!(u.associations()[0].cluster(), "c1");

    // a user with no default and no associations
    let bare = SlurmUser::construct(&obj(vec![("name", s("carol"))])).unwrap();
    assert_eq!(bare.default_account(), &None);
    assert!(bare.associations().is_empty());

    // a default object without an account is refused
    let no_account = SlurmUser::construct(&obj(vec![("name", s("carol")), ("default", obj(vec![]))]));
    assert_eq!(
        call_message(no_account.err().unwrap()),
        "Could not get default_account as string from user"
    );

    let not_array = SlurmUser::construct(&obj(vec![("name", s("carol")), ("associations", s("x"))]));
    assert_eq!(
        call_message(not_array.err().unwrap()),
        "Associations is not an array"
    );
}

#[test]
fn a_job_record_is_read_field_by_field() {
    let value = job(42, 1000, 4600, 3600, 990, 2, Json::Array(vec![s("PENDING"), num(1), s("REQUEUED")]));
    let j = match SlurmJob::construct_at(&value, &nodes(), 77) {
        Ok(j) => j,
        Err(e) => unreachable!("job: {:?}", e),
    };
    assert_eq!(j.id, 42);
    assert_eq!(j.user, "alice");
    assert_eq!(j.node_info.cpus(), 128);
    assert_eq!((j.start_time, j.original_start_time, j.end_time), (1000, 1000, 4600));
    assert_eq!((j.eligible_time, j.submission_time), (990, 990));
    assert_eq!(j.duration, 3600);
    assert_eq!(j.restart_count, 2);
    assert_eq!(j.states, vec!["PENDING".to_string(), "REQUEUED".to_string()]);
    assert_eq!(j.failed_node, "");
    assert_eq!(j.attempt, Attempt::Base);
    assert_eq!(j.qos, "normal");
    assert_eq!((j.cpus, j.memory, j.gpus, j.nodes, j.billing), (128, 1000, 4, 2, 128));
    // a negative count stands for "not available" and counts nothing
    assert_eq!(j.energy, 0);
    // energy is not counted among what was requested
    assert_eq!((j.requested_cpus, j.requested_nodes, j.requested_billing), (32, 1, 0));
    assert_eq!(j.terminal_state(), "REQUEUED");
}

#[test]
fn a_time_chrono_cannot_date_is_read_as_now() {
    let value = job(1, i64::MAX, 5000, -5, 0, 0, s("COMPLETED"));
    let j = SlurmJob::construct_at(&value, &nodes(), 777).unwrap();
    assert_eq!(j.start_time, 777);
    assert_eq!(j.end_time, 5000);
    // a negative elapsed time is no time at all
    assert_eq!(j.duration, 0);
    assert_eq!(j.states, vec!["COMPLETED".to_string()]);
}

#[test]
fn a_job_record_reports_the_first_thing_missing() {
    let no_id = obj(vec![("user", s("alice"))]);
    assert_eq!(
        call_message(SlurmJob::construct_at(&no_id, &nodes(), 0).err().unwrap()),
        "Could not get id from job"
    );

    let no_state_string = job(1, 0, 10, 10, 0, 0, Json::Array(vec![num(3)]));
    assert_eq!(
        call_message(SlurmJob::construct_at(&no_state_string, &nodes(), 0).err().unwrap()),
        "Could not get state as string from job"
    );

    // an allocated entry is read type, name, count; a requested one type,
    // count, name
    let bare = obj(vec![("type", s("cpu"))]);
    let mut value = job(1, 0, 10, 10, 0, 0, s("COMPLETED"));
    if let Json::Object(members) = &mut value {
        for (k, v) in members.iter_mut() {
            if k == "tres" {
                *v = obj(vec![
                    ("allocated", Json::Array(vec![obj(vec![("type", s("cpu"))])])),
                    ("requested", Json::Array(vec![])),
                ]);
            }
        }
    }
    assert_eq!(
        call_message(SlurmJob::construct_at(&value, &nodes(), 0).err().unwrap()),
        "Could not get name from tres"
    );
    if let Json::Object(members) = &mut value {
        for (k, v) in members.iter_mut() {
            if k == "tres" {
                *v = obj(vec![
                    ("allocated", Json::Array(vec![])),
                    ("requested", Json::Array(vec![bare])),
                ]);
                break;
            }
        }
    }
    assert_eq!(
        call_message(SlurmJob::construct_at(&value, &nodes(), 0).err().unwrap()),
        "Could not get count from tres"
    );
}

#[test]
fn consumers_are_read_classified_and_clipped() {
    let reply = obj(vec![(
        "jobs",
        Json::Array(vec![
            job(500, 0, 7200, 7200, 0, 0, Json::Array(vec![s("PENDING"), s("REQUEUED")])),
            obj(vec![("job_id", s("not a number"))]),
            job(500, 7300, 7300, 0, 7200, 1, s("CANCELLED")),
            job(9, 80000, 90000, 10000, 79000, 0, s("COMPLETED")),
        ]),
    )]);
    let c = match SlurmJob::get_consumers_at(&reply, 0, 86400, &nodes(), 0) {
        Ok(c) => c,
        Err(e) => unreachable!("consumers: {:?}", e),
    };
    // the zero-length final attempt of job 500 is classified, then dropped,
    // and the malformed record is passed over
    assert_eq!(c.len(), 2);
    assert_eq!((c[0].id, c[0].attempt), (500, Attempt::Requeued));
    assert_eq!((c[1].id, c[1].attempt), (9, Attempt::Base));
    // clipped to the window, keeping its real start
    assert_eq!((c[1].start_time, c[1].end_time), (80000, 86400));
    assert_eq!(c[1].original_start_time, 80000);

    let none = SlurmJob::get_consumers_at(&obj(vec![]), 0, 10, &nodes(), 0).unwrap();
    assert!(none.is_empty());
    let not_array = SlurmJob::get_consumers_at(&obj(vec![("jobs", s("x"))]), 0, 10, &nodes(), 0);
    assert_eq!(call_message(not_array.err().unwrap()), "Jobs is not an array");
    let backwards = SlurmJob::get_consumers(&obj(vec![]), 10, 0, &nodes());
    assert!(call_message(backwards.err().unwrap()).starts_with("Start time '"));
}

#[test]
fn test_only_accounts_in_the_managed_organization_are_managed() {
    let account_json = |org: &str| {
        obj(vec![
            ("name", s("someproject")),
            ("description", s("a project")),
            ("organization", s(org)),
            (
                "associations",
                Json::Array(vec![obj(vec![("cluster", s("cluster1"))])]),
            ),
        ])
    };

    let managed = match SlurmAccount::construct(&account_json(&get_managed_organization())) {
        Ok(a) => a,
        Err(e) => unreachable!("construct: {:?}", e),
    };
    assert!(managed.is_managed());

    for foreign in ["", "root", "physics", "OpenPortal", "openportal2"] {
        let account = match SlurmAccount::construct(&account_json(foreign)) {
            Ok(a) => a,
            Err(e) => unreachable!("construct({:?}): {:?}", foreign, e),
        };
        assert!(
            !account.is_managed(),
            "account in organization {:?} must not be considered managed",
            foreign
        );
    }
}

#[test]
fn an_account_lists_each_cluster_once() {
    let a = SlurmAccount::construct(&obj(vec![
        ("name", s(" Proj/One ")),
        ("description", s("d")),
        ("organization", s("openportal")),
        (
            "associations",
            Json::Array(vec![
                obj(vec![("cluster", s("c1"))]),
                obj(vec![("cluster", num(4))]),
                obj(vec![("cluster", s("c2"))]),
                obj(vec![("cluster", s("c1"))]),
                obj(vec![]),
            ]),
        ),
    ]))
    .unwrap();
    assert_eq!(a.name(), "proj_one");
    assert_eq!(a.clusters(), &vec!["c1".to_string(), "c2".to_string()]);
    assert!(a.in_cluster("c2"));
    assert!(!a.in_cluster("c3"));
    assert_eq!(a.limit(), 0);

    // associations that are not a list give no clusters
    let b = SlurmAccount::construct(&obj(vec![
        ("name", s("p")),
        ("description", s("d")),
        ("organization", s("o")),
        ("associations", s("none")),
    ]))
    .unwrap();
    assert!(b.clusters().is_empty());

    let missing = SlurmAccount::construct(&obj(vec![("name", s("p")), ("description", s("d"))]));
    assert_eq!(
        call_message(missing.err().unwrap()),
        "Could not get organization from account"
    );
}

fn limit_json(entries: Vec<Json>) -> Json {
    obj(vec![
        ("account", s("Proj")),
        ("cluster", s("c1")),
        (
            "max",
            obj(vec![(
                "tres",
                obj(vec![("group", obj(vec![("minutes", Json::Array(entries))]))]),
            )]),
        ),
    ])
}

fn limit_entry(kind: &str, name: &str, count: u64) -> Json {
    obj(vec![
        ("type", s(kind)),
        ("name", s(name)),
        ("count", Json::Number(Number::PosInt(count))),
    ])
}

#[test]
fn limits_are_read_in_minutes_and_kept_in_seconds() {
    let l = SlurmLimit::construct(&limit_json(vec![
        limit_entry("CPU", "", 10),
        limit_entry("gres", "gpu", 2),
        limit_entry("gres", "shard", 99),
        limit_entry("billing", "", 5),
        limit_entry("billing", "", 7),
        limit_entry("fs/disk", "", 3),
        obj(vec![("type", s("mem")), ("count", Json::Number(Number::PosInt(1)))]),
    ]))
    .unwrap();
    assert_eq!((l.account(), l.cluster()), ("proj", "c1"));
    assert_eq!(l.cpu_limit(), Some(600));
    assert_eq!(l.gpu_limit(), Some(120));
    // the later of two entries of a kind wins
    assert_eq!(l.billing_limit(), Some(420));
    // an entry without a name is passed over
    assert_eq!(l.mem_limit(), None);

    let bad_name = SlurmLimit::construct(&limit_json(vec![obj(vec![
        ("type", s("cpu")),
        ("name", num(1)),
        ("count", num(1)),
    ])]));
    assert_eq!(
        call_message(bad_name.err().unwrap()),
        "Could not get name as string from limit"
    );

    let no_group = SlurmLimit::construct(&obj(vec![
        ("account", s("p")),
        ("cluster", s("c")),
        ("max", obj(vec![("tres", obj(vec![]))])),
    ]));
    assert_eq!(
        call_message(no_group.err().unwrap()),
        "Could not get group from tres"
    );
}

#[test]
fn the_named_user_is_found_in_a_reply() {
    let reply = obj(vec![(
        "users",
        Json::Array(vec![
            obj(vec![("name", s("bob")), ("default", obj(vec![]))]),
            obj(vec![("name", s("carol"))]),
            obj(vec![("name", s("bob"))]),
        ]),
    )]);
    let carol = SlurmUser::from_response(&reply, "carol").unwrap();
    assert_eq!(carol.name(), "carol");
    // the first "bob" cannot be read, and it is the one that is found
    assert!(SlurmUser::from_response(&reply, "bob").is_none());
    assert!(SlurmUser::from_response(&reply, "dave").is_none());
    assert!(SlurmUser::from_response(&obj(vec![("users", s("x"))]), "carol").is_none());
}

#[test]
fn the_named_account_is_found_in_a_reply() {
    let reply = obj(vec![(
        "accounts",
        Json::Array(vec![
            obj(vec![("name", s("other"))]),
            obj(vec![
                ("name", s("proj")),
                ("description", s("d")),
                ("organization", s("openportal")),
            ]),
        ]),
    )]);
    let a = SlurmAccount::from_response(&reply, "proj").unwrap();
    assert!(a.is_managed());
    assert!(SlurmAccount::from_response(&reply, "other").is_none());
    assert!(SlurmAccount::from_response(&obj(vec![]), "proj").is_none());
}

#[test]
fn accounts_compare_by_name_organization_description_and_clusters() {
    let account = |description: &str, clusters: Vec<&str>| {
        SlurmAccount::construct(&obj(vec![
            ("name", s("proj")),
            ("description", s(description)),
            ("organization", s("openportal")),
            (
                "associations",
                Json::Array(clusters.into_iter().map(|c| obj(vec![("cluster", s(c))])).collect()),
            ),
        ]))
        .unwrap()
    };
    let a = account("A Project", vec!["c1", "c2"]);
    // descriptions are compared ignoring case, clusters as sets
    assert!(a == account("a project", vec!["c2", "c1", "c2"]));
    assert!(a != account("another", vec!["c1", "c2"]));
    assert!(a != account("A Project", vec!["c1"]));
    // the limit is not compared
    let mut limited = account("A Project", vec!["c1", "c2"]);
    limited.set_limit(3600);
    assert!(a == limited);
}

#[test]
fn the_inputs_that_would_overflow_are_recognised() {
    let fine = job(1, 0, 10, 10, 0, 0, s("COMPLETED"));
    assert!(SlurmJob::record_in_range_check(&fine));

    // an elapsed time chrono's Duration cannot hold
    let long = job(1, 0, 10, 9_223_372_036_854_776, 0, 0, s("COMPLETED"));
    assert!(!SlurmJob::record_in_range_check(&long));
    // but not where the record stops being read before its elapsed time
    if let Json::Object(mut members) = long {
        members.retain(|(k, _)| k != "job_id");
        assert!(SlurmJob::record_in_range_check(&Json::Object(members)));
    }

    // allocated counts whose sum is past a u64
    let mut huge = job(1, 0, 10, 10, 0, 0, s("COMPLETED"));
    if let Json::Object(members) = &mut huge {
        for (k, v) in members.iter_mut() {
            if k == "tres" {
                *v = obj(vec![
                    (
                        "allocated",
                        Json::Array(vec![
                            entry("cpu", "", i64::MAX),
                            entry("cpu", "", i64::MAX),
                            entry("cpu", "", i64::MAX),
                        ]),
                    ),
                    ("requested", Json::Array(vec![])),
                ]);
            }
        }
    }
    assert!(!SlurmJob::record_in_range_check(&huge));

    let reply = obj(vec![("jobs", Json::Array(vec![fine, huge]))]);
    assert!(!SlurmJob::jobs_in_range_check(&reply));
    assert!(SlurmJob::jobs_in_range_check(&obj(vec![])));
}

#[test]
fn limits_too_large_for_seconds_are_recognised() {
    let fine = limit_json(vec![limit_entry("cpu", "", 10)]);
    assert!(SlurmLimit::limit_in_range_check(&fine));
    let huge = limit_json(vec![limit_entry("cpu", "", u64::MAX / 60 + 1)]);
    assert!(!SlurmLimit::limit_in_range_check(&huge));
    // a type that is not a limit is never multiplied
    let ignored = limit_json(vec![limit_entry("fs", "", u64::MAX)]);
    assert!(SlurmLimit::limit_in_range_check(&ignored));
    // nor is anything after an entry that stops the reading
    let stopped = limit_json(vec![
        obj(vec![("type", s("cpu")), ("name", num(3)), ("count", num(1))]),
        limit_entry("cpu", "", u64::MAX),
    ]);
    assert!(SlurmLimit::limit_in_range_check(&stopped));

    assert!(!limit_list_in_range_check(&vec![fine, huge]));
}

#[test]
fn a_record_with_datable_times_reads_the_same_whatever_the_clock() {
    let value = job(3, 1000, 2000, 1000, 900, 0, s("COMPLETED"));
    let a = SlurmJob::construct_at(&value, &nodes(), 1).unwrap();
    let b = SlurmJob::construct_at(&value, &nodes(), 999_999).unwrap();
    assert_eq!(
        (a.start_time, a.end_time, a.eligible_time, a.submission_time),
        (b.start_time, b.end_time, b.eligible_time, b.submission_time)
    );
    // and through the clock itself
    let c = SlurmJob::construct(&value, &nodes()).unwrap();
    assert_eq!((c.start_time, c.end_time), (1000, 2000));
}

#[test]
fn the_cache_keeps_only_accounts_on_its_cluster() {
    let account = |name: &str, cluster: &str| {
        SlurmAccount::construct(&obj(vec![
            ("name", s(name)),
            ("description", s("d")),
            ("organization", s("openportal")),
            ("associations", Json::Array(vec![obj(vec![("cluster", s(cluster))])])),
        ]))
        .unwrap()
    };
    let mut db = Database::new();
    // before a cluster is set, any account is cached
    db.add_account(account("a", "c2"));
    assert!(db.get_account("a").is_some());

    db.set_cluster("c1");
    // changing cluster forgot it
    assert!(db.get_account("a").is_none());
    db.add_account(account("b", "c2"));
    assert!(db.get_account("b").is_none());
    db.add_account(account("b", "c1"));
    assert_eq!(db.get_account("b").map(|a| a.name().to_string()), Some("b".to_string()));

    db.remove_account("b");
    assert!(db.get_account("b").is_none());
    db.add_account(account("c", "c1"));
    db.clear();
    assert!(db.get_account("c").is_none());
}
