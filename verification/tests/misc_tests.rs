use openportal::board::{Handle, JobAddState, SyncState};
use openportal::cache::{evict_arbitrary_until, evict_oldest_until, Database};
use openportal::slurm::{SlurmNode, SlurmUser};
use openportal::client::{add_user_to_instance_in_project, add_user_to_project};
use openportal::diagnostics::format_duration;
use openportal::erased::Erased;
use openportal::report::{elide, out_cell};

#[test]
fn test_a_long_name_is_trimmed_rather_than_breaking_the_column() {
    assert_eq!(elide("short", 9), "short");
    assert_eq!(elide("exactlynine", 11), "exactlynine");
    assert_eq!(elide("averylongprojectname", 9), "averylon~");
}

#[test]
fn elide_counts_characters_not_bytes() {
    assert_eq!(elide("ééééé", 5), "ééééé");
    assert_eq!(elide("éééééé", 5), "éééé~");
    assert_eq!(elide("ab", 0), "~");
    assert_eq!(elide("", 0), "");
}

#[test]
fn out_cell_writes_into_the_row() {
    let mut row = String::from("a");
    out_cell(&mut row).push('b');
    assert_eq!(row, "ab");
}

#[test]
fn test_raw_instruction_roundtrip() {
    for s in [
        "add_user alice.myproject.myportal",
        "",
        "get_offerings",
        "not a real instruction but shouldn't matter",
    ] {
        let parsed = Erased::parse_instruction(s).expect("never fails");
        assert_eq!(parsed.to_string(), s);
    }
}

#[test]
fn test_name_and_version() {
    assert_eq!(Erased::name(), "erased");
    assert!(!Erased::version().is_empty());
}

#[test]
fn test_assume_legacy_domain_version_always_none() {
    assert_eq!(Erased::assume_legacy_domain_version("0.1.0"), None);
    assert_eq!(Erased::assume_legacy_domain_version("0.32.2"), None);
}

#[test]
fn durations_are_written_in_hours_minutes_and_seconds() {
    assert_eq!(format_duration(0), "0s");
    assert_eq!(format_duration(59), "59s");
    assert_eq!(format_duration(60), "1m 0s");
    assert_eq!(format_duration(3599), "59m 59s");
    assert_eq!(format_duration(3600), "1h 0m 0s");
    assert_eq!(format_duration(3725), "1h 2m 5s");
    assert_eq!(format_duration(90061), "25h 1m 1s");
    // a negative duration keeps only its (negative) seconds, as Rust's
    // truncating division gives
    assert_eq!(format_duration(-3725), "-5s");
    assert_eq!(format_duration(-60), "0s");
    assert_eq!(format_duration(i64::MIN), "-8s");
}

#[test]
fn client_calls_return_their_handles() {
    let u = "alice".to_string();
    let i = "cluster".to_string();
    let p = "proj".to_string();
    let h: Handle = match add_user_to_instance_in_project(&u, &i, &p) {
        Ok(h) => h,
        Err(e) => unreachable!("{:?}", e),
    };
    assert_eq!(h.id, "123");
    match add_user_to_project(&u, &p) {
        Ok(h) => assert_eq!(h.id, "456"),
        Err(e) => unreachable!("{:?}", e),
    }
}

#[test]
fn sync_state_holds_its_jobs() {
    let s = SyncState::new(vec![1, 2, 3]);
    assert_eq!(s.jobs(), &vec![1, 2, 3]);
    assert_ne!(JobAddState::Added, JobAddState::Updated);
    assert_eq!(JobAddState::Duplicated, JobAddState::Duplicated);
    assert_ne!(JobAddState::Unchanged, JobAddState::Added);
}

#[test]
fn eviction_drops_the_oldest_dates_first() {
    let mut m: Vec<(u64, &str)> = vec![(5, "e"), (1, "a"), (9, "i"), (3, "c")];
    evict_oldest_until(&mut m, 2);
    assert_eq!(m, vec![(5, "e"), (9, "i")]);
    evict_oldest_until(&mut m, 5);
    assert_eq!(m.len(), 2);
    evict_oldest_until(&mut m, 0);
    assert!(m.is_empty());
}

#[test]
fn arbitrary_eviction_keeps_the_limit() {
    let mut m: Vec<(String, u32)> = (0..10).map(|i| (format!("k{}", i), i)).collect();
    evict_arbitrary_until(&mut m, 4);
    assert_eq!(m.len(), 4);
    assert_eq!(m[0].1, 6);
    evict_arbitrary_until(&mut m, 4);
    assert_eq!(m.len(), 4);
}

#[test]
fn database_settings() {
    let mut db = Database::new();
    assert_eq!(db.get_cluster(), "linux");
    assert!(db.get_option_cluster().is_none());
    db.set_cluster("aip1");
    assert_eq!(db.get_cluster(), "aip1");
    db.set_partition("  gpu ");
    assert_eq!(db.get_partition().as_deref(), Some("gpu"));
    db.set_partition("   ");
    assert!(db.get_partition().is_none());
    match db.get_parent_account() {
        Err(e) => assert_eq!(e.message(), "Parent account has not been set"),
        Ok(a) => unreachable!("parent {:?}", a),
    }
    assert!(db.set_parent_account("  ").is_err());
    assert!(db.set_parent_account(" root ").is_ok());
    assert_eq!(db.get_parent_account().ok().as_deref(), Some("root"));
}

#[test]
fn database_user_cache_is_dropped_with_the_cluster() {
    let mut db = Database::new();
    db.set_cluster("a");
    db.add_user(SlurmUser::new("alice", Some("p"), vec![]));
    db.add_user(SlurmUser::new("bob", None, vec![]));
    db.add_user(SlurmUser::new("alice", Some("q"), vec![]));
    assert_eq!(
        db.get_user("alice").and_then(|u| u.default_account().clone()),
        Some("q".to_string())
    );
    db.remove_user("bob");
    assert!(db.get_user("bob").is_none());
    db.set_cluster("a");
    assert!(db.get_user("alice").is_some());
    db.set_cluster("b");
    assert!(db.get_user("alice").is_none());
    db.add_user(SlurmUser::new("carol", None, vec![]));
    db.clear();
    assert!(db.get_user("carol").is_none());
}

#[test]
fn database_nodes() {
    let mut db = Database::new();
    assert!(db.get_default_node().is_err());
    assert!(db.get_nodes().is_err());
    db.set_node("gpu", &SlurmNode::new(1, 2, 3, 4));
    assert_eq!(db.get_default_node().map(|n| n.gpus()).ok(), Some(2));
    db.set_default_node(&SlurmNode::new(9, 0, 9, 9));
    assert_eq!(db.get_default_node().map(|n| n.cpus()).ok(), Some(9));
    let nodes = db.get_nodes().unwrap_or_else(|e| unreachable!("{:?}", e));
    assert_eq!(nodes.get("gpu").gpus(), 2);
    assert_eq!(nodes.get("other").cpus(), 9);
}
