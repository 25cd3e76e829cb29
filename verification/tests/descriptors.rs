use init_supervisor::maps::StrMap;
use init_supervisor::service::{
    resolve_credentials, CredWarning, Credentials, Method, MethodError, Service, ServiceState,
};

fn method(cmd: &[&str]) -> Method {
    Method {
        cmd: cmd.iter().map(|s| s.to_string()).collect(),
        vars: None,
        cwd: None,
        user: None,
        group: None,
        namespace: None,
    }
}

fn bare_service(name: &str) -> Service {
    Service {
        name: name.to_string(),
        dependencies: None,
        provides: None,
        methods: StrMap::new(),
        vars: None,
        cwd: None,
        user: None,
        group: None,
        namespace: None,
    }
}

#[test]
fn state_is_online_only_when_online() {
    assert!(!ServiceState::Offline.is_online());
    assert!(ServiceState::Online.is_online());
    assert!(!ServiceState::Failed.is_online());
    assert!(!ServiceState::default().is_online());
}

#[test]
fn credentials_without_names_stay_unset() {
    let (creds, warnings) = resolve_credentials(&None, &None, None, None);
    assert_eq!(creds, Credentials { uid: None, gid: None });
    assert!(warnings.is_empty());
}

#[test]
fn nonexistent_user_keeps_supervisor_identity() {
    // The method names a user the database does not know: the launch goes on
    // with both ids unset — the supervisor's own identity, never an arbitrary
    // substitute — and the shortfall is reported.
    let (creds, warnings) = resolve_credentials(
        &Some("nonexistent".to_string()),
        &None,
        None,
        None,
    );
    assert_eq!(creds, Credentials { uid: None, gid: None });
    assert_eq!(warnings, vec![CredWarning::UnknownUser("nonexistent".to_string())]);
}

#[test]
fn known_user_without_group_uses_primary_group() {
    let (creds, warnings) = resolve_credentials(
        &Some("daemon".to_string()),
        &None,
        Some((2, 22)),
        None,
    );
    assert_eq!(creds, Credentials { uid: Some(2), gid: Some(22) });
    assert!(warnings.is_empty());
}

#[test]
fn known_user_and_group_use_both_ids() {
    let (creds, warnings) = resolve_credentials(
        &Some("daemon".to_string()),
        &Some("wheel".to_string()),
        Some((2, 22)),
        Some(5),
    );
    assert_eq!(creds, Credentials { uid: Some(2), gid: Some(5) });
    assert!(warnings.is_empty());
}

#[test]
fn unknown_group_falls_back_to_primary_group() {
    let (creds, warnings) = resolve_credentials(
        &Some("daemon".to_string()),
        &Some("nosuch".to_string()),
        Some((2, 22)),
        None,
    );
    assert_eq!(creds, Credentials { uid: Some(2), gid: Some(22) });
    assert_eq!(warnings, vec![CredWarning::UnknownGroup("nosuch".to_string())]);
}

#[test]
fn group_without_user_is_ignored() {
    let (creds, warnings) = resolve_credentials(&None, &Some("wheel".to_string()), None, None);
    assert_eq!(creds, Credentials { uid: None, gid: None });
    assert_eq!(warnings, vec![CredWarning::GroupWithoutUser("wheel".to_string())]);
}

#[test]
fn sub_env_replaces_dollar_tokens_once() {
    let mut env = StrMap::new();
    env.insert("TARGET".to_string(), "/dev/log".to_string());
    let mut m = method(&["logd", "$TARGET", "$UNSET", "plain", "mid$DLR"]);
    m.sub_env(&env);
    assert_eq!(m.cmd, vec!["logd", "/dev/log", "", "plain", "mid$DLR"]);
}

#[test]
fn service_sub_env_reaches_every_method() {
    let mut env = StrMap::new();
    env.insert("BIN".to_string(), "/bin/httpd".to_string());
    let mut s = bare_service("web");
    s.methods.insert("start".to_string(), method(&["$BIN", "--fg"]));
    s.methods.insert("reload".to_string(), method(&["$BIN", "--reload"]));
    s.sub_env(&env);
    let start = s.method("start").unwrap();
    assert_eq!(start.cmd, vec!["/bin/httpd", "--fg"]);
    let reload = s.method("reload").unwrap();
    assert_eq!(reload.cmd, vec!["/bin/httpd", "--reload"]);
}

#[test]
fn method_overrides_beat_service_defaults() {
    let mut m = method(&["/bin/srv", "-d"]);
    m.cwd = Some("/method".to_string());
    m.vars = Some(vec![("A".to_string(), "m".to_string())]);
    let service_vars = Some(vec![("A".to_string(), "s".to_string())]);
    let service_cwd = Some("/service".to_string());
    let service_ns = Some(vec!["file".to_string()]);
    let creds = Credentials { uid: Some(1), gid: Some(2) };
    let c = m.command(&service_vars, &service_cwd, &service_ns, creds);
    assert_eq!(c.bin, "/bin/srv");
    assert_eq!(c.args, vec!["-d"]);
    assert!(c.clear_env);
    assert_eq!(c.env, vec![("A".to_string(), "m".to_string())]);
    assert_eq!(c.cwd.as_deref(), Some("/method"));
    assert_eq!(c.ns, Some(vec!["file".to_string()]));
    assert_eq!(c.uid, Some(1));
    assert_eq!(c.gid, Some(2));
}

#[test]
fn service_defaults_fill_missing_method_fields() {
    let m = method(&["/bin/srv"]);
    let service_vars = Some(vec![("B".to_string(), "s".to_string())]);
    let c = m.command(
        &service_vars,
        &Some("/service".to_string()),
        &None,
        Credentials { uid: None, gid: None },
    );
    assert_eq!(c.env, vec![("B".to_string(), "s".to_string())]);
    assert_eq!(c.cwd.as_deref(), Some("/service"));
    assert_eq!(c.ns, None);
    assert_eq!(c.uid, None);
    assert_eq!(c.gid, None);
}

#[test]
fn method_command_without_credentials_needs_no_database() {
    let mut s = bare_service("plain");
    s.methods.insert("start".to_string(), method(&["/bin/true", "-x"]));
    let (c, warnings) = s.method_command("start").unwrap();
    assert_eq!(c.bin, "/bin/true");
    assert_eq!(c.args, vec!["-x"]);
    assert!(warnings.is_empty());
}

#[test]
fn method_command_missing_method() {
    let s = bare_service("empty");
    assert_eq!(s.method_command("start").unwrap_err(), MethodError::MissingMethod);
}

#[test]
fn method_command_empty_command_line() {
    let mut s = bare_service("noop");
    s.methods.insert("start".to_string(), method(&[]));
    assert_eq!(s.method_command("start").unwrap_err(), MethodError::EmptyCommand);
}

#[test]
fn method_lookup_is_by_name_last_binding_wins() {
    let mut s = bare_service("svc");
    s.methods.insert("start".to_string(), method(&["/bin/old"]));
    s.methods.insert("start".to_string(), method(&["/bin/new"]));
    assert_eq!(s.method("start").unwrap().cmd, vec!["/bin/new"]);
    assert!(s.method("stop").is_none());
}
