use graph_analysis::Graph;

fn graph(decls: &[(&str, &[&str])]) -> Graph {
    let d: Vec<Vec<String>> = decls
        .iter()
        .map(|(l, n)| {
            let mut t = vec![l.to_string()];
            t.extend(n.iter().map(|s| s.to_string()));
            t.push("-1".to_string());
            t
        })
        .collect();
    Graph::from_declarations(&d)
}

#[test]
fn path_is_subgraph_of_two_edges() {
    let g = graph(&[("A", &["B", "C"]), ("B", &["A"]), ("C", &["A"])]);
    let h = graph(&[("A", &["B"]), ("B", &["A"])]);
    assert!(g.check_is_subgraph(&h));
    assert!(g.all_vertices_exist(&h));
    assert!(g.all_edges_exist(&h));
}

#[test]
fn missing_vertex_fails_containment() {
    let g = graph(&[("A", &["B"]), ("B", &["A"])]);
    let h = graph(&[("A", &["B"]), ("B", &["A"]), ("C", &["A"])]);
    assert!(!g.all_vertices_exist(&h));
    assert!(!g.check_is_subgraph(&h));
    assert!(!g.find_vertex("C"));
    assert!(g.find_vertex("A"));
}

#[test]
fn containment_is_reflexive() {
    let g = graph(&[("A", &["B", "C"]), ("B", &["C"]), ("C", &[]), ("D", &["A"])]);
    assert!(g.check_is_subgraph(&g));
    let e = Graph::new();
    assert!(e.check_is_subgraph(&e));
}

#[test]
fn empty_graph_is_contained_everywhere() {
    let g = graph(&[("A", &["B"]), ("B", &[])]);
    assert!(g.check_is_subgraph(&Graph::new()));
    assert!(!Graph::new().check_is_subgraph(&g));
}

#[test]
fn missing_edge_fails_containment() {
    let g = graph(&[("A", &["B"]), ("B", &["A"]), ("C", &[])]);
    let h = graph(&[("A", &["C"]), ("C", &["A"])]);
    assert!(g.all_vertices_exist(&h));
    assert!(!g.all_edges_exist(&h));
    assert!(!g.check_is_subgraph(&h));
}

#[test]
fn direction_matters() {
    let g = graph(&[("A", &["B"]), ("B", &[])]);
    let h = graph(&[("B", &["A"]), ("A", &[])]);
    assert!(!g.check_is_subgraph(&h));
    assert!(g.check_is_subgraph(&graph(&[("B", &[]), ("A", &["B"])])));
}

#[test]
fn labels_are_matched_not_positions() {
    let g = graph(&[("X", &[]), ("B", &["A"]), ("A", &["B"])]);
    let h = graph(&[("A", &["B"]), ("B", &["A"])]);
    assert!(g.check_is_subgraph(&h));
}

#[test]
fn edge_status_marks() {
    let g = graph(&[("A", &["B"]), ("B", &["A"]), ("C", &[])]);
    let h = graph(&[("A", &["B", "C"]), ("B", &[]), ("C", &["Q"]), ("Q", &[])]);
    assert_eq!(g.get_edge_status(&h, 0, 1), '+');
    assert_eq!(g.get_edge_status(&h, 0, 2), '-');
    assert_eq!(g.get_edge_status(&h, 2, 3), '-');
    assert!(g.check_edge_exists(&h, 0, 1));
    assert!(!g.check_edge_exists(&h, 0, 2));
    assert!(g.check_edge_exists(&h, 1, 2));
}

#[test]
fn vertex_statuses_follow_sorted_order() {
    let g = graph(&[("A", &["B"]), ("B", &["A"])]);
    let h = graph(&[("C", &["A"]), ("B", &["A"]), ("A", &["B"])]);
    let sorted = h.sort_vertices_alphabetically();
    assert_eq!(sorted, vec![2, 1, 0]);
    assert_eq!(g.vertex_statuses(&h, &sorted), vec![true, true, false]);
}

#[test]
fn edge_statuses_list_forward_edges_in_sorted_order() {
    let g = graph(&[("A", &["B"]), ("B", &["A"]), ("C", &[])]);
    let h = graph(&[("C", &["A"]), ("B", &["A"]), ("A", &["B", "C"])]);
    let sorted = h.sort_vertices_alphabetically();
    assert_eq!(g.edge_statuses(&h, &sorted), vec![(2, 1, true), (2, 0, false)]);
}
