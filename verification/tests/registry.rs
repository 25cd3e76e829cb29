use init_supervisor::maps::StrMap;
use init_supervisor::service::{Method, Service};
use init_supervisor::service_tree::{ServiceGraph, StartAction, StartError};

fn method(cmd: &[&str]) -> Method {
    Method {
        cmd: cmd.iter().map(|s| s.to_string()).collect(),
        vars: None,
        cwd: None,
        user: None,
        group: None,
        namespace: None,
    }
}

fn svc(name: &str, deps: &[&str], provides: &[&str]) -> Service {
    let mut methods = StrMap::new();
    methods.insert("start".to_string(), method(&["/bin/true"]));
    Service {
        name: name.to_string(),
        dependencies: if deps.is_empty() {
            None
        } else {
            Some(deps.iter().map(|s| s.to_string()).collect())
        },
        provides: if provides.is_empty() {
            None
        } else {
            Some(provides.iter().map(|s| s.to_string()).collect())
        },
        methods,
        vars: None,
        cwd: None,
        user: None,
        group: None,
        namespace: None,
    }
}

#[test]
fn push_registers_names_and_states() {
    let mut reg = ServiceGraph::new();
    let (idxs, warnings) = reg.push_services(vec![svc("a", &[], &[]), svc("b", &[], &[])]);
    assert_eq!(idxs.len(), 2);
    assert!(warnings.is_empty());
    assert_eq!(reg.lookup("a"), Some(idxs[0]));
    assert_eq!(reg.lookup("b"), Some(idxs[1]));
    assert_eq!(reg.lookup("c"), None);
    assert!(!reg.service_state(idxs[0]).is_online());
}

#[test]
fn provide_tag_links_edge_in_same_batch() {
    // X provides "net:"; Y depends on "net:"; both in one batch: the edge
    // from Y to X is created.
    let mut reg = ServiceGraph::new();
    let (idxs, warnings) = reg.push_services(vec![
        svc("x", &[], &["net:"]),
        svc("y", &["net:"], &[]),
    ]);
    assert!(warnings.is_empty());
    let deps_of_y = reg.dependencies_of(idxs[1]).unwrap();
    assert_eq!(deps_of_y, vec![idxs[0]]);
    assert_eq!(reg.lookup("net:"), Some(idxs[0]));
}

#[test]
fn later_batch_provider_is_never_linked() {
    // Y registered in an earlier batch than X: the dependency name is not
    // resolvable at Y's edge-build time, so no edge is ever created, and the
    // drop is reported.
    let mut reg = ServiceGraph::new();
    let (first, warnings1) = reg.push_services(vec![svc("y", &["net:"], &[])]);
    assert_eq!(warnings1.len(), 1);
    assert_eq!(warnings1[0].service, "y");
    assert_eq!(warnings1[0].dependency, "net:");
    let (_second, warnings2) = reg.push_services(vec![svc("x", &[], &["net:"])]);
    assert!(warnings2.is_empty());
    assert_eq!(reg.dependencies_of(first[0]).unwrap(), vec![]);
}

#[test]
fn forward_reference_within_batch_resolves() {
    let mut reg = ServiceGraph::new();
    let (idxs, warnings) = reg.push_services(vec![
        svc("early", &["late"], &[]),
        svc("late", &[], &[]),
    ]);
    assert!(warnings.is_empty());
    assert_eq!(reg.dependencies_of(idxs[0]).unwrap(), vec![idxs[1]]);
}

#[test]
fn unresolved_dependency_warns_but_does_not_block() {
    // "b" depends on "a" (registered) and on "ghost" (never registered): the
    // missing name yields a warning, the edge is dropped, and b still
    // resolves right after a.
    let mut reg = ServiceGraph::new();
    let (idxs, warnings) = reg.push_services(vec![
        svc("a", &[], &[]),
        svc("b", &["a", "ghost"], &[]),
    ]);
    assert_eq!(warnings.len(), 1);
    assert_eq!(warnings[0].service, "b");
    assert_eq!(warnings[0].dependency, "ghost");
    assert_eq!(reg.dependencies_of(idxs[1]).unwrap(), vec![idxs[0]]);
    let groups = reg.start_order().unwrap();
    assert_eq!(groups, vec![vec![idxs[0]], vec![idxs[1]]]);
    match reg.start_service(idxs[1]) {
        Ok(StartAction::Launch(cmd, w)) => {
            assert_eq!(cmd.bin, "/bin/true");
            assert!(w.is_empty());
        }
        other => panic!("expected a launch request, got {:?}", other),
    }
}

#[test]
fn last_registered_provider_wins() {
    let mut reg = ServiceGraph::new();
    let (idxs, _) = reg.push_services(vec![
        svc("one", &[], &["cap:"]),
        svc("two", &[], &["cap:"]),
    ]);
    assert_eq!(reg.lookup("cap:"), Some(idxs[1]));
}

#[test]
fn own_name_wins_over_own_tag() {
    let mut reg = ServiceGraph::new();
    let (idxs, _) = reg.push_services(vec![svc("same", &[], &["same"])]);
    assert_eq!(reg.lookup("same"), Some(idxs[0]));
}

#[test]
fn start_twice_launches_at_most_once() {
    // A launch-counting run: the first start decision asks for one launch;
    // after the success is recorded, a second decision asks for none.
    let mut reg = ServiceGraph::new();
    let (idxs, _) = reg.push_services(vec![svc("a", &[], &[])]);
    let mut launches = 0;
    for _ in 0..2 {
        match reg.start_service(idxs[0]) {
            Ok(StartAction::Launch(_, _)) => {
                launches += 1;
                reg.note_start_result(idxs[0], true);
            }
            Ok(StartAction::AlreadyOnline) => {}
            Err(e) => panic!("unexpected start error {:?}", e),
        }
    }
    assert_eq!(launches, 1);
    assert!(reg.service_state(idxs[0]).is_online());
}

#[test]
fn failed_start_leaves_service_offline() {
    let mut reg = ServiceGraph::new();
    let (idxs, _) = reg.push_services(vec![svc("a", &[], &[])]);
    match reg.start_service(idxs[0]) {
        Ok(StartAction::Launch(_, _)) => {
            reg.note_start_result(idxs[0], false);
        }
        other => panic!("expected a launch request, got {:?}", other),
    }
    assert!(!reg.service_state(idxs[0]).is_online());
    // The next attempt asks for a launch again.
    assert!(matches!(reg.start_service(idxs[0]), Ok(StartAction::Launch(_, _))));
}

#[test]
fn start_missing_method_is_an_error() {
    let mut reg = ServiceGraph::new();
    let mut s = svc("broken", &[], &[]);
    s.methods = StrMap::new();
    let (idxs, _) = reg.push_services(vec![s]);
    match reg.start_service(idxs[0]) {
        Err(StartError::Method(e)) => {
            assert_eq!(format!("{:?}", e), "MissingMethod");
        }
        other => panic!("expected a missing-method error, got {:?}", other),
    }
    assert!(!reg.service_state(idxs[0]).is_online());
}

#[test]
fn start_unknown_handle_is_an_error() {
    let mut other = ServiceGraph::new();
    let (other_idxs, _) = other.push_services(vec![
        svc("p", &[], &[]),
        svc("q", &[], &[]),
        svc("r", &[], &[]),
    ]);
    let mut reg = ServiceGraph::new();
    reg.push_services(vec![svc("only", &[], &[])]);
    // A handle from a bigger registry names no slot of this one.
    match reg.start_service(other_idxs[2]) {
        Err(StartError::ServiceNotFound) => {}
        other => panic!("expected service-not-found, got {:?}", other),
    }
}

#[test]
fn online_transition_emits_provided_tags_once() {
    let mut reg = ServiceGraph::new();
    let (idxs, _) = reg.push_services(vec![svc("disk", &[], &["file:", "block:"])]);
    assert!(matches!(reg.start_service(idxs[0]), Ok(StartAction::Launch(_, _))));
    // A failed launch provides nothing.
    assert_eq!(reg.note_start_result(idxs[0], false), Vec::<String>::new());
    // The successful transition reports the tags, exactly once.
    assert_eq!(reg.note_start_result(idxs[0], true), vec!["file:", "block:"]);
    assert_eq!(reg.note_start_result(idxs[0], true), Vec::<String>::new());
}

#[test]
fn start_follows_group_order() {
    // Walking the start order launches a dependency strictly before its
    // dependent.
    let mut reg = ServiceGraph::new();
    let (idxs, _) = reg.push_services(vec![
        svc("b", &["a"], &[]),
        svc("a", &[], &[]),
    ]);
    let mut launched: Vec<String> = Vec::new();
    for group in reg.start_order().unwrap() {
        for index in group {
            match reg.start_service(index) {
                Ok(StartAction::Launch(_, _)) => {
                    launched.push(reg.get(index).unwrap().name.clone());
                    reg.note_start_result(index, true);
                }
                other => panic!("expected a launch request, got {:?}", other),
            }
        }
    }
    assert_eq!(launched, vec!["a", "b"]);
    assert!(reg.service_state(idxs[0]).is_online());
    assert!(reg.service_state(idxs[1]).is_online());
}

#[test]
fn start_order_reports_cycles() {
    let mut reg = ServiceGraph::new();
    let (idxs, _) = reg.push_services(vec![
        svc("a", &["b"], &[]),
        svc("b", &["a"], &[]),
    ]);
    let err = reg.start_order().unwrap_err();
    assert_eq!(err.unresolved.len(), 2);
    assert!(err.unresolved.contains(&idxs[0]));
    assert!(err.unresolved.contains(&idxs[1]));
}

#[test]
fn start_order_groups_by_dependency_depth() {
    let mut reg = ServiceGraph::new();
    let (idxs, _) = reg.push_services(vec![
        svc("base", &[], &[]),
        svc("mid1", &["base"], &[]),
        svc("mid2", &["base"], &[]),
        svc("top", &["mid1", "mid2"], &[]),
    ]);
    let groups = reg.start_order().unwrap();
    assert_eq!(groups.len(), 3);
    assert_eq!(groups[0], vec![idxs[0]]);
    assert_eq!(groups[1].len(), 2);
    assert_eq!(groups[2], vec![idxs[3]]);
}
