use openportal::agent_core::{secret_from_text, secret_source, SecretSource};
use openportal::error::Error;
use openportal::json::{Json, Number};
use openportal::sacctmgr::{
    account_is_in_place, lists_anything, pick_cluster, project_cancel_allowed, reconcile_limit,
    user_cancel_allowed, user_is_in_place, SlurmRunner,
};
use openportal::slurm::{SlurmAssociation, SlurmNode, SlurmUser};
use openportal::slurm_account::{account_limit, SlurmAccount, SlurmLimit};

#[test]
fn commands_split_their_binary_and_drop_blank_arguments() {
    let mut runner = SlurmRunner::default();
    let cmd = runner
        .build_command("SACCTMGR", vec!["show".to_string(), " ".to_string(), "user".to_string()])
        .unwrap_or_else(|e| unreachable!("{:?}", e));
    assert_eq!(cmd, vec!["sacctmgr", "show", "user"]);

    runner.sacctmgr = "docker exec 'slurm ctld' sacctmgr".to_string();
    let cmd = runner
        .build_command("SACCTMGR", vec!["--json".to_string(), "".to_string()])
        .unwrap_or_else(|e| unreachable!("{:?}", e));
    assert_eq!(cmd, vec!["docker", "exec", "slurm ctld", "sacctmgr", "--json"]);

    match runner.build_command("RM", vec![]) {
        Err(e) => assert_eq!(
            e.message(),
            "Unknown command type: RM. Must be SACCTMGR, SCONTROL, SACCT, or SCANCEL"
        ),
        Ok(c) => unreachable!("built {:?}", c),
    }

    runner.scancel = "'unclosed".to_string();
    match runner.build_command("SCANCEL", vec![]) {
        Err(e) => assert_eq!(e.message(), "Could not parse command binary: 'unclosed"),
        Ok(c) => unreachable!("built {:?}", c),
    }

    runner.scontrol = "   ".to_string();
    assert!(runner.build_command("SCONTROL", vec![]).is_err());
    assert_eq!(
        runner.build_command("SACCT", vec!["-X".to_string()]).ok(),
        Some(vec!["sacct".to_string(), "-X".to_string()])
    );
}

fn member(k: &str, v: Json) -> (String, Json) {
    (k.to_string(), v)
}

fn text(t: &str) -> Json {
    Json::Str(t.to_string())
}

/// A limit as Slurm describes it, each limit given in minutes.
fn limit_json(account: &str, cluster: &str, limits: &[(&str, &str, u64)]) -> Json {
    let entries = limits
        .iter()
        .map(|(kind, name, minutes)| {
            Json::Object(vec![
                member("type", text(kind)),
                member("name", text(name)),
                member("count", Json::Number(Number::PosInt(*minutes))),
            ])
        })
        .collect();
    Json::Object(vec![
        member("account", text(account)),
        member("cluster", text(cluster)),
        member(
            "max",
            Json::Object(vec![member(
                "tres",
                Json::Object(vec![member(
                    "group",
                    Json::Object(vec![member("minutes", Json::Array(entries))]),
                )]),
            )]),
        ),
    ])
}

fn limit(limits: &[(&str, &str, u64)]) -> SlurmLimit {
    match SlurmLimit::construct(&limit_json("proj", "c1", limits)) {
        Ok(l) => l,
        Err(e) => unreachable!("limit: {:?}", e),
    }
}

#[test]
fn slurm_limits_are_reconciled_resource_by_resource() {
    let node = SlurmNode::new(128, 4, 1000, 128);
    let agreeing = limit(&[("cpu", "", 128), ("gres", "gpu", 4), ("billing", "", 128)]);
    assert_eq!(reconcile_limit(&node, 60, &agreeing), None);

    // 192 minutes of 128 cores is 90 seconds of the node
    let cpu_differs = limit(&[("cpu", "", 192), ("gres", "gpu", 8)]);
    assert_eq!(reconcile_limit(&node, 60, &cpu_differs), Some(90));

    let gpu_differs = limit(&[("cpu", "", 128), ("gres", "gpu", 8), ("mem", "", 1)]);
    assert_eq!(reconcile_limit(&node, 60, &gpu_differs), Some(120));

    let cpuless = SlurmNode::new(0, 0, 1000, 0);
    let only_mem = limit(&[("cpu", "", 1), ("mem", "", 500)]);
    assert_eq!(reconcile_limit(&cpuless, 60, &only_mem), Some(30));
}

#[test]
fn the_limit_of_an_account_on_its_cluster_is_found() {
    let reply = Json::Object(vec![member(
        "associations",
        Json::Array(vec![
            limit_json("proj", "other", &[("cpu", "", 1)]),
            limit_json("Proj", "c1", &[("cpu", "", 2)]),
        ]),
    )]);
    let l = match account_limit(&reply, "proj", "c1") {
        Ok(l) => l,
        Err(e) => unreachable!("limit: {:?}", e),
    };
    assert_eq!(l.cpu_limit(), Some(120));

    match account_limit(&reply, "proj", "c2") {
        Err(Error::NotFound(m)) => assert_eq!(m, "proj"),
        other => unreachable!("expected not found, got {:?}", other),
    }
    match account_limit(&Json::Object(vec![]), "proj", "c1") {
        Err(Error::NotFound(m)) => assert_eq!(m, "proj"),
        other => unreachable!("expected not found, got {:?}", other),
    }
    let bad = Json::Object(vec![member(
        "associations",
        Json::Array(vec![Json::Object(vec![member("account", text("proj"))])]),
    )]);
    match account_limit(&bad, "proj", "c1") {
        Err(e) => assert_eq!(e.message(), "Could not get cluster from limit"),
        Ok(l) => unreachable!("read {:?}", l),
    }
}

#[test]
fn secret_sources_follow_the_flags() {
    assert!(secret_source(Some("s"), Some("f"), false).is_err());
    assert!(matches!(
        secret_source(Some("s"), None, false),
        Ok(SecretSource::Value(v)) if v == "s"
    ));
    assert!(matches!(
        secret_source(None, Some("path"), false),
        Ok(SecretSource::File(p)) if p == "path"
    ));
    assert!(matches!(
        secret_source(None, Some("-"), true),
        Ok(SecretSource::Stdin { explicit: true })
    ));
    assert!(matches!(
        secret_source(None, None, false),
        Ok(SecretSource::Stdin { explicit: false })
    ));
}

#[test]
fn secrets_lose_their_trailing_line_ends() {
    assert_eq!(secret_from_text("abc\r\n\n", false).ok(), Some("abc".to_string()));
    assert_eq!(secret_from_text("a\nb\n", true).ok(), Some("a\nb".to_string()));
    assert_eq!(secret_from_text("\n", false).ok(), Some(String::new()));
    match secret_from_text("\r\n", true) {
        Err(e) => assert_eq!(
            e.message(),
            "No secret supplied - pass --value-file, or pipe the secret to stdin"
        ),
        Ok(s) => unreachable!("read {:?}", s),
    }
}

#[test]
fn a_requested_cluster_must_be_listed_and_otherwise_the_first_is_taken() {
    let output = "alpha|10.0.0.1|6817\r\nbeta|10.0.0.2|6817\n\ngamma\n";
    assert_eq!(pick_cluster(output, Some("beta")).ok(), Some(None));
    // a blank line names the empty cluster, which is no cluster asked for
    match pick_cluster(output, Some("delta")) {
        Err(Error::Login(m)) => assert_eq!(m, "Requested cluster not found"),
        other => unreachable!("expected a login error, got {:?}", other),
    }
    assert_eq!(
        pick_cluster(output, None).ok(),
        Some(Some("alpha".to_string()))
    );
    match pick_cluster("", None) {
        Err(Error::Login(m)) => assert_eq!(
            m,
            "sacctmgr reported no clusters at all - cannot pick a default"
        ),
        other => unreachable!("expected a login error, got {:?}", other),
    }
}

#[test]
fn output_lists_something_only_where_a_line_is_not_blank() {
    assert!(!lists_anything(""));
    assert!(!lists_anything("  \n\t\r\n\n"));
    assert!(lists_anything("\n  12345  \n"));
    assert!(lists_anything("12345"));
}

fn account(organization: &str, clusters: &[&str]) -> SlurmAccount {
    let associations = clusters
        .iter()
        .map(|c| Json::Object(vec![member("cluster", text(c))]))
        .collect();
    match SlurmAccount::construct(&Json::Object(vec![
        member("name", text("proj")),
        member("description", text("d")),
        member("organization", text(organization)),
        member("associations", Json::Array(associations)),
    ])) {
        Ok(a) => a,
        Err(e) => unreachable!("account: {:?}", e),
    }
}

#[test]
fn a_project_is_in_place_once_its_managed_account_is_on_the_cluster() {
    assert!(!account_is_in_place(None, "c1"));
    assert!(account_is_in_place(Some(&account("openportal", &["c1"])), "c1"));
    assert!(!account_is_in_place(Some(&account("openportal", &["c2"])), "c1"));
    // an account someone else manages is nothing of ours to add
    assert!(account_is_in_place(Some(&account("physics", &[])), "c1"));
}

#[test]
fn a_user_is_in_place_once_defaulting_to_and_associated_with_the_account() {
    let user = |default: Option<&str>, cluster: &str| {
        SlurmUser::new(
            "bob",
            default,
            vec![SlurmAssociation::new("bob", "other", cluster), SlurmAssociation::new("bob", "proj", cluster)],
        )
    };
    assert!(!user_is_in_place(None, "proj", "c1"));
    assert!(user_is_in_place(Some(&user(Some("proj"), "c1")), "proj", "c1"));
    assert!(!user_is_in_place(Some(&user(Some("other"), "c1")), "proj", "c1"));
    assert!(!user_is_in_place(Some(&user(None, "c1")), "proj", "c1"));
    assert!(!user_is_in_place(Some(&user(Some("proj"), "c2")), "proj", "c1"));
}

#[test]
fn only_managed_accounts_and_users_have_their_jobs_cancelled() {
    assert_eq!(project_cancel_allowed("proj", None).ok(), Some(false));
    assert_eq!(
        project_cancel_allowed("proj", Some(&account("openportal", &[]))).ok(),
        Some(true)
    );
    match project_cancel_allowed("root", Some(&account("site", &[]))) {
        Err(Error::UnmanagedGroup(m)) => assert_eq!(
            m,
            "Cannot cancel jobs for Slurm account 'root' - it is not managed by OpenPortal"
        ),
        other => unreachable!("expected a refusal, got {:?}", other),
    }

    assert_eq!(user_cancel_allowed("bob", None).ok(), Some(false));
    assert_eq!(user_cancel_allowed("bob", Some(true)).ok(), Some(true));
    match user_cancel_allowed("bob", Some(false)) {
        Err(Error::UnmanagedGroup(m)) => assert_eq!(
            m,
            "Cannot cancel jobs for Slurm user 'bob' - they are not managed by OpenPortal"
        ),
        other => unreachable!("expected a refusal, got {:?}", other),
    }
}
