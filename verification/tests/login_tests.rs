use openportal::error::Error;
use openportal::json::Json;
use openportal::login::{
    dotted_version, next_patch, openapi_version, token_command_line, token_command_words,
    token_from_output,
};

fn any_message(e: Error) -> String {
    match e {
        Error::Any(m) => m,
        other => unreachable!("expected an Any error, got {:?}", other),
    }
}

#[test]
fn the_token_command_names_the_user_only_when_another() {
    assert_eq!(
        token_command_line("scontrol token", "slurm", "slurm", 300),
        "scontrol token lifespan=300"
    );
    assert_eq!(
        token_command_line("scontrol token", "portal", "root", 86400),
        "scontrol token username=portal lifespan=86400"
    );
}

#[test]
fn the_token_command_is_split_as_a_shell_would() {
    let words = token_command_words("docker exec 'slurm ctld' scontrol token lifespan=60").unwrap();
    assert_eq!(words, vec!["docker", "exec", "slurm ctld", "scontrol", "token", "lifespan=60"]);
    assert_eq!(
        any_message(token_command_words("'unclosed").err().unwrap()),
        "Could not parse token command"
    );
    assert_eq!(any_message(token_command_words("   ").err().unwrap()), "No token command");
}

#[test]
fn the_token_is_read_from_the_first_assignment() {
    assert_eq!(token_from_output("JWT: SLURM_JWT=abc.def\n").unwrap(), "abc.def");
    // only the text up to a second `=` is the token
    assert_eq!(token_from_output("  A=b=c D=e").unwrap(), "b");
    assert_eq!(token_from_output("x\tSLURM_JWT=\n").unwrap(), "");
    let e = token_from_output("no token here").err().unwrap();
    let m = any_message(e);
    assert!(m.starts_with("Could not find a '<name>=<token>' field"));
    assert!(!m.contains("no token here"));
}

fn obj(members: Vec<(&str, Json)>) -> Json {
    Json::Object(members.into_iter().map(|(k, v)| (k.to_string(), v)).collect())
}

#[test]
fn the_api_version_is_read_from_the_openapi_description() {
    let spec = obj(vec![("info", obj(vec![("version", Json::Str("dbv0.0.40".to_string()))]))]);
    let (text, numbers) = openapi_version(&spec).unwrap();
    assert_eq!(text, "0.0.40");
    assert_eq!(numbers, vec![0, 0, 40]);

    assert_eq!(
        any_message(openapi_version(&obj(vec![])).err().unwrap()),
        "Could not find 'info' section in OpenAPI specification"
    );
    assert_eq!(
        any_message(openapi_version(&obj(vec![("info", obj(vec![]))])).err().unwrap()),
        "Could not find 'version' field in OpenAPI specification"
    );
    assert_eq!(
        any_message(
            openapi_version(&obj(vec![("info", obj(vec![("version", Json::Null)]))]))
                .err()
                .unwrap()
        ),
        "Could not convert version to string"
    );
}

#[test]
fn versions_are_probed_one_patch_at_a_time() {
    assert_eq!(dotted_version(&vec![0, 0, 40]), "0.0.40");
    assert_eq!(dotted_version(&vec![]), "");
    assert_eq!(next_patch(&vec![0, 0, 40]), Some(vec![0, 0, 41]));
    assert_eq!(next_patch(&vec![1, 2]), None);
    assert_eq!(next_patch(&vec![0, 0, u32::MAX]), None);
}
