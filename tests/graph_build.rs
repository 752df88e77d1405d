use dependency_graph::depmap::DependencyMap;
use dependency_graph::graph::{build_graph, decimal_string, find_name, Graph};

fn strings(v: &[&str]) -> Vec<String> {
    v.iter().map(|s| s.to_string()).collect()
}

fn map_of(entries: &[(&str, &[&str])]) -> DependencyMap {
    let mut m = DependencyMap::new();
    for (name, deps) in entries {
        m.insert(name.to_string(), strings(deps));
    }
    m
}

fn names(g: &Graph) -> Vec<String> {
    g.names().clone()
}

#[test]
fn scenario_one_dependency() {
    let g = build_graph(&map_of(&[("a", &["b"]), ("b", &[])]));
    assert_eq!(names(&g), strings(&["a", "b"]));
    assert_eq!(g.edges().clone(), vec![(0, 1)]);
}

#[test]
fn scenario_dangling_dependency_dropped() {
    let g = build_graph(&map_of(&[("a", &["z"])]));
    assert_eq!(names(&g), strings(&["a"]));
    assert!(g.edges().is_empty());
}

#[test]
fn scenario_self_dependency_kept() {
    let g = build_graph(&map_of(&[("a", &["a"])]));
    assert_eq!(names(&g), strings(&["a"]));
    assert_eq!(g.edges().clone(), vec![(0, 0)]);
}

#[test]
fn scenario_empty_map() {
    let g = build_graph(&DependencyMap::new());
    assert!(names(&g).is_empty());
    assert!(g.edges().is_empty());
    assert!(g.nodes().is_empty());
    assert!(g.validate_ids().is_ok());
}

#[test]
fn nodes_sorted_whatever_the_insertion_order() {
    let g = build_graph(&map_of(&[("rustc_span", &[]), ("rustc_ast", &[]), ("rustc_a", &[]), ("rustc", &[])]));
    assert_eq!(names(&g), strings(&["rustc", "rustc_a", "rustc_ast", "rustc_span"]));
}

#[test]
fn nodes_sorted_by_bytes() {
    let g = build_graph(&map_of(&[("b", &[]), ("B", &[]), ("é", &[]), ("a", &[])]));
    assert_eq!(names(&g), strings(&["B", "a", "b", "é"]));
}

#[test]
fn edges_follow_entries_and_dependency_order() {
    let g = build_graph(&map_of(&[
        ("c", &["a", "b", "x", "a"]),
        ("a", &["b"]),
        ("b", &[]),
    ]));
    assert_eq!(names(&g), strings(&["a", "b", "c"]));
    assert_eq!(g.edges().clone(), vec![(2, 0), (2, 1), (2, 0), (0, 1)]);
}

#[test]
fn edges_are_valid_and_declared() {
    let entries: &[(&str, &[&str])] = &[("x", &["y", "q", "x"]), ("y", &["z", "x"]), ("z", &[])];
    let m = map_of(entries);
    let g = build_graph(&m);
    let n = names(&g);
    for &(s, t) in g.edges() {
        assert!(s < n.len() && t < n.len());
        let deps = m.get(&n[s]).unwrap();
        assert!(deps.contains(&n[t]));
    }
    for &(s, t) in g.edges() {
        assert_ne!(n[s], "q");
        assert_ne!(n[t], "q");
    }
}

#[test]
fn building_twice_gives_the_same_graph() {
    let m = map_of(&[("b", &["a", "c"]), ("a", &["b"]), ("c", &["c"])]);
    let g1 = build_graph(&m);
    let g2 = build_graph(&m);
    assert_eq!(names(&g1), names(&g2));
    assert_eq!(g1.edges().clone(), g2.edges().clone());
}

#[test]
fn later_insert_overwrites() {
    let mut m = DependencyMap::new();
    m.insert("a".to_string(), strings(&["b"]));
    m.insert("b".to_string(), strings(&[]));
    m.insert("a".to_string(), strings(&["c"]));
    assert_eq!(m.len(), 2);
    assert_eq!(m.key(0), "a");
    assert_eq!(m.deps(0), &strings(&["c"]));
    assert_eq!(m.position(&"b".to_string()), Some(1));
    assert_eq!(m.get(&"z".to_string()), None);
}

#[test]
fn binary_search_finds_each_name() {
    let v = strings(&["a", "ab", "b", "c", "d"]);
    for (i, s) in v.iter().enumerate() {
        assert_eq!(find_name(&v, s), Some(i));
    }
    assert_eq!(find_name(&v, "aa"), None);
    assert_eq!(find_name(&v, ""), None);
    assert_eq!(find_name(&v, "e"), None);
    assert_eq!(find_name(&Vec::new(), "a"), None);
}

#[test]
fn node_ids_and_labels() {
    let g = build_graph(&map_of(&[("b", &[]), ("a", &[])]));
    assert_eq!(g.node_id(0), "N0");
    assert_eq!(g.node_id(1234), "N1234");
    assert_eq!(g.node_id(usize::MAX), format!("N{}", usize::MAX));
    assert_eq!(g.node_label(1), "b");
    assert_eq!(g.edge_label(), "&sube;");
    assert_eq!(g.graph_id(), "example2");
    assert_eq!(g.nodes(), vec![0, 1]);
    assert_eq!(g.source(&(3, 4)), 3);
    assert_eq!(g.target(&(3, 4)), 4);
    assert!(g.validate_ids().is_ok());
}

#[test]
fn decimal_digits() {
    assert_eq!(decimal_string(0), "0");
    assert_eq!(decimal_string(9), "9");
    assert_eq!(decimal_string(10), "10");
    assert_eq!(decimal_string(907), "907");
}

#[test]
fn insertion_order_changes_edge_order_only() {
    let g1 = build_graph(&map_of(&[("b", &["a", "c"]), ("a", &["b"]), ("c", &["c"])]));
    let g2 = build_graph(&map_of(&[("c", &["c"]), ("a", &["b"]), ("b", &["a", "c"])]));
    assert_eq!(names(&g1), names(&g2));
    let mut e1 = g1.edges().clone();
    let mut e2 = g2.edges().clone();
    assert_eq!(e1, vec![(1, 0), (1, 2), (0, 1), (2, 2)]);
    assert_eq!(e2, vec![(2, 2), (0, 1), (1, 0), (1, 2)]);
    e1.sort();
    e2.sort();
    assert_eq!(e1, e2);
}
