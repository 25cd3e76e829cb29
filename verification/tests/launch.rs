use init_supervisor::command::{Command, LaunchStep};

#[test]
fn new_command_is_bare() {
    let c = Command::new("/bin/sh".to_string());
    assert_eq!(c.bin, "/bin/sh");
    assert!(c.args.is_empty());
    assert!(c.env.is_empty());
    assert!(!c.clear_env);
    assert!(c.cwd.is_none() && c.uid.is_none() && c.gid.is_none() && c.ns.is_none());
}

#[test]
fn builders_accumulate() {
    let mut c = Command::new("/bin/sh".to_string());
    c.arg("-c".to_string());
    c.args(vec!["echo".to_string(), "hi".to_string()]);
    c.env("PATH".to_string(), "/bin".to_string());
    c.env("HOME".to_string(), "/root".to_string());
    c.env_clear();
    c.cwd("/tmp".to_string());
    c.uid(7);
    c.gid(9);
    c.ns(vec!["file".to_string()]);
    assert_eq!(c.args, vec!["-c", "echo", "hi"]);
    assert_eq!(c.env.len(), 2);
    assert!(c.clear_env);
    assert_eq!(c.cwd.as_deref(), Some("/tmp"));
    assert_eq!(c.uid, Some(7));
    assert_eq!(c.gid, Some(9));
}

#[test]
fn argv_puts_executable_first() {
    let mut c = Command::new("/bin/echo".to_string());
    c.arg("one".to_string());
    c.arg("two".to_string());
    assert_eq!(c.argv(), vec!["/bin/echo", "one", "two"]);
}

#[test]
fn child_steps_follow_the_privilege_protocol() {
    // Group id first (while the process may still change it), then user id,
    // then directory, then namespace, then the environment.
    let mut c = Command::new("/sbin/daemon".to_string());
    c.env("A".to_string(), "1".to_string());
    c.env_clear();
    c.cwd("/var".to_string());
    c.uid(100);
    c.gid(200);
    c.ns(vec!["file".to_string(), "rand".to_string()]);
    let steps = c.child_steps();
    assert_eq!(steps.len(), 6);
    assert!(matches!(steps[0], LaunchStep::SetGroupId(200)));
    assert!(matches!(steps[1], LaunchStep::SetUserId(100)));
    assert!(matches!(&steps[2], LaunchStep::ChangeDir(d) if d == "/var"));
    assert!(
        matches!(&steps[3], LaunchStep::EnterNamespace(ns) if *ns == vec!["file", "rand"])
    );
    assert!(matches!(steps[4], LaunchStep::ClearEnv));
    assert!(matches!(&steps[5], LaunchStep::SetEnvVar(k, v) if k == "A" && v == "1"));
}

#[test]
fn command_line_joins_with_spaces() {
    let mut c = Command::new("/bin/echo".to_string());
    c.arg("one".to_string());
    c.arg("two".to_string());
    assert_eq!(c.command_line(), "/bin/echo one two");
    let bare = Command::new("/bin/true".to_string());
    assert_eq!(bare.command_line(), "/bin/true");
}

#[test]
fn child_steps_skip_unset_settings() {
    let c = Command::new("/bin/true".to_string());
    let steps = c.child_steps();
    assert!(steps.is_empty());
}

#[test]
fn env_vars_apply_in_configured_order() {
    let mut c = Command::new("/bin/true".to_string());
    c.env("K".to_string(), "first".to_string());
    c.env("K".to_string(), "second".to_string());
    let steps = c.child_steps();
    assert_eq!(steps.len(), 2);
    assert!(matches!(&steps[0], LaunchStep::SetEnvVar(k, v) if k == "K" && v == "first"));
    assert!(matches!(&steps[1], LaunchStep::SetEnvVar(k, v) if k == "K" && v == "second"));
}
