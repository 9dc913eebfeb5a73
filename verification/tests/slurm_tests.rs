use openportal::slurm::{
    clean_account_name, clean_user_name, encode_path_segment, get_managed_organization,
    initialise_servers, parse_api_version, parse_u32_chars, Attempt, ReportTotals,
    SlurmAssociation, SlurmNode, SlurmNodes, SlurmServer, SlurmUser,
};
use openportal::slurm::{after_pass, ServerStep, ALL_BACKING_OFF};

#[test]
fn test_api_version_parsing_tolerates_a_hostile_version_string() {
    let ok = |s: &str| match parse_api_version(s) {
        Ok(v) => v,
        Err(e) => unreachable!("parse_api_version({:?}): {:?}", s, e),
    };

    assert_eq!(ok("dbv0.0.40"), ("0.0.40".to_string(), vec![0, 0, 40]));
    assert_eq!(
        ok("dbv0.0.40&openapi/slurmdbd"),
        ("0.0.40".to_string(), vec![0, 0, 40])
    );
    assert_eq!(ok("dbv1.2"), ("1.2".to_string(), vec![1, 2]));
    assert!(ok("dbv1").1.get(2).is_none());

    for bad in [
        "dbv",
        "dbv1.x.3",
        "dbv..",
        "dbv-1.2.3",
        "dbv4294967296.0.0",
        "",
    ] {
        assert!(
            parse_api_version(bad).is_err(),
            "{:?} must be rejected, not parsed",
            bad
        );
    }
}

#[test]
fn test_clean_account_name_rejects_empty_and_normalises_separators() {
    assert!(clean_account_name("").is_err());
    assert!(clean_account_name("   ").is_err());
    assert!(clean_user_name("").is_err());

    assert_eq!(
        match clean_account_name("  My/Project Name  ") {
            Ok(n) => n,
            Err(e) => unreachable!("clean: {:?}", e),
        },
        "my_project_name"
    );
}

#[test]
fn test_encode_path_segment_blocks_url_injection() {
    assert_eq!(encode_path_segment("proj.portal"), "proj.portal");
    assert_eq!(encode_path_segment("a-b_c1~"), "a-b_c1~");

    assert_eq!(
        encode_path_segment("x?with_deleted=true"),
        "x%3Fwith_deleted%3Dtrue"
    );
    assert_eq!(encode_path_segment("a/b"), "a%2Fb");
    assert_eq!(encode_path_segment("a#frag"), "a%23frag");
    assert_eq!(encode_path_segment("a&b=c"), "a%26b%3Dc");
    assert_eq!(encode_path_segment("a b"), "a%20b");
    assert_eq!(encode_path_segment("100%"), "100%25");

    for injected in ["?", "#", "/", "&", "=", " ", ";", ":", "@", "+"] {
        let encoded = encode_path_segment(&format!("name{}x", injected));
        assert!(
            !encoded.contains(injected),
            "{:?} must not survive encoding (got {:?})",
            injected,
            encoded
        );
    }
}

#[test]
fn encode_path_segment_encodes_each_utf8_byte() {
    assert_eq!(encode_path_segment("é"), "%C3%A9");
    assert_eq!(encode_path_segment(""), "");
}

#[test]
fn api_version_text_stops_at_the_next_v() {
    assert_eq!(
        parse_api_version("dbv0.0.41v9").ok(),
        Some(("0.0.41".to_string(), vec![0, 0, 41]))
    );
    assert_eq!(
        parse_api_version("v+7.4294967295").ok(),
        Some(("+7.4294967295".to_string(), vec![7, 4294967295]))
    );
    match parse_api_version("nothing") {
        Err(e) => assert_eq!(e.message(), "Could not split version"),
        Ok(v) => unreachable!("parsed {:?}", v),
    }
    match parse_api_version("dbv1.x") {
        Err(e) => assert_eq!(e.message(), "Could not parse version numbers"),
        Ok(v) => unreachable!("parsed {:?}", v),
    }
}

#[test]
fn u32_parsing_follows_from_str() {
    let p = |s: &str| parse_u32_chars(&s.chars().collect::<Vec<char>>());
    assert_eq!(p("0"), Some(0));
    assert_eq!(p("+12"), Some(12));
    assert_eq!(p("4294967295"), Some(u32::MAX));
    assert_eq!(p("4294967296"), None);
    assert_eq!(p("99999999999999999999"), None);
    assert_eq!(p("+"), None);
    assert_eq!(p(""), None);
    assert_eq!(p("-1"), None);
    assert_eq!(p("1 "), None);
}

#[test]
fn clean_names_report_which_is_empty() {
    match clean_account_name(" ") {
        Err(e) => assert_eq!(e.message(), "Account name is empty"),
        Ok(n) => unreachable!("cleaned {:?}", n),
    }
    match clean_user_name("\t") {
        Err(e) => assert_eq!(e.message(), "User name is empty"),
        Ok(n) => unreachable!("cleaned {:?}", n),
    }
    assert_eq!(clean_user_name(" Alice/B C ").ok(), Some("alice_b_c".to_string()));
}

#[test]
fn managed_organization_is_openportal() {
    assert_eq!(get_managed_organization(), "openportal");
}

#[test]
fn nodes_fall_back_to_the_default() {
    let default = SlurmNode::new(288, 4, 491520, 864);
    let gpu = SlurmNode::new(72, 4, 100, 10);
    let cpu = SlurmNode::new(128, 0, 200, 0);
    let mut nodes = SlurmNodes::new(&default);
    assert_eq!(nodes.get("nid001").cpus(), 288);
    nodes.set("nid001", &gpu);
    nodes.set("nid002", &cpu);
    assert_eq!(nodes.get("nid001").cpus(), 72);
    assert_eq!(nodes.get("nid002").mem(), 200);
    assert!(!nodes.get("nid002").has_gpus());
    assert!(!nodes.get("nid002").has_billing());
    nodes.set("nid001", &cpu);
    assert_eq!(nodes.get("nid001").cpus(), 128);
    assert_eq!(nodes.get("other").billing(), 864);
    nodes.set_default(&gpu);
    assert_eq!(nodes.get_default().cpus(), 72);
    assert_eq!(nodes.get("other").gpus(), 4);
    assert!(nodes.get("other").has_cpus());
    assert!(nodes.get("other").has_mem());
}

#[test]
fn user_and_association_accessors() {
    let a = SlurmAssociation::new("alice", "proj", "cluster");
    assert_eq!(a.user(), "alice");
    assert_eq!(a.account(), "proj");
    assert_eq!(a.cluster(), "cluster");
    let u = SlurmUser::new("alice", Some("proj"), vec![a.clone()]);
    assert_eq!(u.name(), "alice");
    assert_eq!(u.default_account().as_deref(), Some("proj"));
    assert_eq!(u.associations().len(), 1);
    assert_eq!(u.associations()[0].account(), "proj");
    let v = SlurmUser::new("bob", None, vec![]);
    assert!(v.default_account().is_none());
}

#[test]
fn attempts_and_report_totals() {
    assert_ne!(Attempt::Base, Attempt::Requeued);
    let totals = ReportTotals::default();
    assert!(!totals.saw_unfinished_job());
    assert_eq!((totals.usage(), totals.num_jobs(), totals.requeue_events()), (0, 0, 0));
}

#[test]
fn server_tokens_expire_with_a_margin() {
    let mut s = SlurmServer::new("http://slurm", "slurm", "scontrol token", 60);
    assert!(s.token_expired(1000));
    assert!(!s.is_logged_in(1000));
    s.set_login_success(1000, "0.0.40".to_string());
    assert!(!s.token_expired(1000));
    assert!(!s.token_expired(1050));
    assert!(s.token_expired(1051));
    assert!(s.is_logged_in(1049));
}

#[test]
fn server_backs_off_after_three_failures() {
    let second: i64 = 1_000_000_000;
    let mut s = SlurmServer::new("http://slurm", "slurm", "cmd", 60);
    s.set_login_failed(0);
    s.set_login_failed(0);
    assert!(!s.should_backoff(1));
    s.set_login_failed(0);
    assert!(s.should_backoff(59 * second));
    assert!(!s.should_backoff(60 * second));
    s.set_login_success(1, "v".to_string());
    assert!(!s.should_backoff(1));
}

#[test]
fn servers_are_configured_from_parallel_lists() {
    let v = |xs: &[&str]| xs.iter().map(|x| x.to_string()).collect::<Vec<String>>();
    let servers = initialise_servers(
        &v(&[" http://a ", "  ", "http://c"]),
        &v(&[" u1 ", "u2", "u3"]),
        &v(&["c1", "c2", " c3 "]),
        &vec![5, 30, 20],
    );
    let servers = match servers {
        Ok(s) => s,
        Err(e) => unreachable!("configure: {:?}", e),
    };
    assert_eq!(servers.len(), 2);
    assert_eq!(servers[0].server, "http://a");
    assert_eq!(servers[0].user, "u1");
    assert_eq!(servers[0].token_lifespan, 10);
    assert_eq!(servers[1].token_command, "c3");
    assert_eq!(servers[1].token_lifespan, 20);

    match initialise_servers(&v(&["a"]), &v(&[]), &v(&["c"]), &vec![1]) {
        Err(e) => assert_eq!(
            e.message(),
            "All server configuration vectors must have the same length"
        ),
        Ok(_) => unreachable!("mismatched lists must be refused"),
    }
}

#[test]
fn a_server_is_used_skipped_or_logged_in_to() {
    let second: i64 = 1_000_000_000;
    let mut server = SlurmServer::new("http://slurm", "portal", "scontrol token", 100);
    assert_eq!(server.connect_step(1000, 0), ServerStep::Login);

    server.set_login_success(1000, "0.0.40".to_string());
    assert_eq!(server.connect_step(1050, 0), ServerStep::Use);
    // the token is treated as expired ten seconds early
    assert_eq!(server.connect_step(1091, 0), ServerStep::Login);

    for _ in 0..3 {
        server.set_login_failed(10 * second);
    }
    // three failures back off for sixty seconds from the last
    assert_eq!(server.connect_step(1091, 69 * second), ServerStep::Skip);
    assert_eq!(server.connect_step(1091, 70 * second), ServerStep::Login);

    assert!(after_pass(false).is_ok());
    match after_pass(true) {
        Err(e) => assert_eq!(e.message(), ALL_BACKING_OFF),
        Ok(()) => unreachable!("every server backing off is an error"),
    }
}
