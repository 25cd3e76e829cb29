use init_supervisor::dep_graph::DepGraph;

#[test]
fn insert_and_get() {
    let mut g: DepGraph<u32> = DepGraph::new();
    let a = g.insert(10);
    let b = g.insert(20);
    assert_eq!(g.get(a), Some(&10));
    assert_eq!(g.get(b), Some(&20));
    assert!(g.contains(a));
    assert!(a != b);
}

#[test]
fn remove_returns_value_and_invalidates_handle() {
    let mut g: DepGraph<&str> = DepGraph::new();
    let a = g.insert("alpha");
    let b = g.insert("beta");
    assert_eq!(g.remove(a), Some("alpha"));
    assert_eq!(g.get(a), None);
    assert_eq!(g.remove(a), None);
    assert_eq!(g.get(b), Some(&"beta"));
}

#[test]
fn stale_handle_never_aliases_reused_slot() {
    let mut g: DepGraph<u32> = DepGraph::new();
    let a = g.insert(1);
    g.remove(a);
    let c = g.insert(3);
    // The slot is reused, but the old handle must not see the new occupant.
    assert_eq!(g.get(a), None);
    assert_eq!(g.get(c), Some(&3));
    assert!(a != c);
}

#[test]
fn dependency_requires_both_nodes() {
    let mut g: DepGraph<u32> = DepGraph::new();
    let a = g.insert(1);
    let b = g.insert(2);
    g.remove(b);
    assert!(g.dependency(a, b).is_err());
    assert!(g.dependency(b, a).is_err());
    let c = g.insert(3);
    assert!(g.dependency(a, c).is_ok());
}

#[test]
fn linear_resolve_orders_dependencies_first() {
    let mut g: DepGraph<&str> = DepGraph::new();
    let app = g.insert("app");
    let lib = g.insert("lib");
    let base = g.insert("base");
    g.dependency(app, lib).unwrap();
    g.dependency(lib, base).unwrap();
    let order = g.linear_resolve().unwrap();
    assert_eq!(order.len(), 3);
    let pos = |x| order.iter().position(|i| *i == x).unwrap();
    assert!(pos(base) < pos(lib));
    assert!(pos(lib) < pos(app));
}

#[test]
fn grouped_resolve_two_waves() {
    // A has no dependencies, B depends on A: the groups are [[A], [B]] and
    // A comes strictly before B in the flattened order.
    let mut g: DepGraph<&str> = DepGraph::new();
    let a = g.insert("a");
    let b = g.insert("b");
    g.dependency(b, a).unwrap();
    let groups = g.grouped_resolve().unwrap();
    assert_eq!(groups.len(), 2);
    assert_eq!(groups[0], vec![a]);
    assert_eq!(groups[1], vec![b]);
}

#[test]
fn independent_nodes_form_one_group_regardless_of_insertion_order() {
    for permutation in 0..3 {
        let mut g: DepGraph<u32> = DepGraph::new();
        let values: Vec<u32> = match permutation {
            0 => vec![1, 2, 3, 4],
            1 => vec![4, 3, 2, 1],
            _ => vec![2, 4, 1, 3],
        };
        for v in values {
            g.insert(v);
        }
        let groups = g.grouped_resolve().unwrap();
        assert_eq!(groups.len(), 1);
        assert_eq!(groups[0].len(), 4);
    }
}

#[test]
fn diamond_groups() {
    // top depends on left and right, both of which depend on bottom.
    let mut g: DepGraph<&str> = DepGraph::new();
    let top = g.insert("top");
    let left = g.insert("left");
    let right = g.insert("right");
    let bottom = g.insert("bottom");
    g.dependency(top, left).unwrap();
    g.dependency(top, right).unwrap();
    g.dependency(left, bottom).unwrap();
    g.dependency(right, bottom).unwrap();
    let groups = g.grouped_resolve().unwrap();
    assert_eq!(groups.len(), 3);
    assert_eq!(groups[0], vec![bottom]);
    assert_eq!(groups[1].len(), 2);
    assert!(groups[1].contains(&left) && groups[1].contains(&right));
    assert_eq!(groups[2], vec![top]);
}

#[test]
fn cycle_is_reported_not_looped() {
    // A depends on B and B depends on A: resolution terminates with a
    // structured error listing both nodes instead of spinning forever.
    let mut g: DepGraph<&str> = DepGraph::new();
    let a = g.insert("a");
    let b = g.insert("b");
    g.dependency(a, b).unwrap();
    g.dependency(b, a).unwrap();
    let err = g.grouped_resolve().unwrap_err();
    assert_eq!(err.unresolved.len(), 2);
    assert!(err.unresolved.contains(&a));
    assert!(err.unresolved.contains(&b));
    assert!(g.linear_resolve().is_err());
}

#[test]
fn cycle_error_spares_unblocked_nodes() {
    let mut g: DepGraph<&str> = DepGraph::new();
    let a = g.insert("a");
    let b = g.insert("b");
    let free = g.insert("free");
    let downstream = g.insert("downstream");
    g.dependency(a, b).unwrap();
    g.dependency(b, a).unwrap();
    g.dependency(downstream, a).unwrap();
    let err = g.grouped_resolve().unwrap_err();
    assert_eq!(err.unresolved.len(), 3);
    assert!(!err.unresolved.contains(&free));
}

#[test]
fn dangling_dependency_blocks_resolution() {
    let mut g: DepGraph<&str> = DepGraph::new();
    let a = g.insert("a");
    let b = g.insert("b");
    g.dependency(a, b).unwrap();
    g.remove(b);
    let err = g.grouped_resolve().unwrap_err();
    assert_eq!(err.unresolved, vec![a]);
}

#[test]
fn duplicate_edges_are_kept_and_resolved() {
    let mut g: DepGraph<&str> = DepGraph::new();
    let a = g.insert("a");
    let b = g.insert("b");
    g.dependency(a, b).unwrap();
    g.dependency(a, b).unwrap();
    let groups = g.grouped_resolve().unwrap();
    assert_eq!(groups, vec![vec![b], vec![a]]);
}

#[test]
fn flattened_groups_linearize_every_edge() {
    // Flattening the groups in group order yields an order consistent with
    // every stored edge: each dependency comes before its dependent.
    let mut g: DepGraph<u32> = DepGraph::new();
    let mut nodes = Vec::new();
    for v in 0..6u32 {
        nodes.push(g.insert(v));
    }
    let edges = [(5, 3), (5, 4), (3, 1), (4, 1), (4, 2), (1, 0), (2, 0)];
    for (parent, child) in edges {
        g.dependency(nodes[parent], nodes[child]).unwrap();
    }
    let groups = g.grouped_resolve().unwrap();
    let flat: Vec<_> = groups.into_iter().flatten().collect();
    assert_eq!(flat.len(), 6);
    let pos = |x| flat.iter().position(|i| *i == x).unwrap();
    for (parent, child) in edges {
        assert!(pos(nodes[child]) < pos(nodes[parent]));
    }
}

#[test]
fn every_edge_crosses_group_levels() {
    // For every edge, the child's group index is strictly less than the
    // parent's group index.
    let mut g: DepGraph<u32> = DepGraph::new();
    let mut nodes = Vec::new();
    for v in 0..5u32 {
        nodes.push(g.insert(v));
    }
    let edges = [(4, 2), (4, 3), (2, 0), (3, 0), (3, 1)];
    for (parent, child) in edges {
        g.dependency(nodes[parent], nodes[child]).unwrap();
    }
    let groups = g.grouped_resolve().unwrap();
    let group_of = |x| groups.iter().position(|grp| grp.contains(&x)).unwrap();
    for (parent, child) in edges {
        assert!(group_of(nodes[child]) < group_of(nodes[parent]));
    }
}

#[test]
fn reserve_keeps_contents() {
    let mut g: DepGraph<u32> = DepGraph::new();
    let a = g.insert(5);
    g.reserve(100);
    assert_eq!(g.get(a), Some(&5));
}

#[test]
fn with_capacity_starts_empty() {
    let mut g: DepGraph<u32> = DepGraph::with_capacity(8);
    let a = g.insert(1);
    assert_eq!(g.get(a), Some(&1));
}
