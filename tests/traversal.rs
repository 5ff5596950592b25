use graph_analysis::traversal::TraversalError;
use graph_analysis::Graph;

fn graph(decls: &[(&str, &[&str])]) -> Graph {
    let d: Vec<Vec<String>> = decls
        .iter()
        .map(|(l, n)| {
            let mut t = vec![l.to_string()];
            t.extend(n.iter().map(|s| s.to_string()));
            t.push("-1".to_string());
            t
        })
        .collect();
    Graph::from_declarations(&d)
}

#[test]
fn bfs_sorts_siblings_by_label() {
    let g = graph(&[("A", &["C", "B"]), ("B", &["A"]), ("C", &["A"])]);
    assert_eq!(g.bfs_from("A"), Ok(vec!["A".to_string(), "B".to_string(), "C".to_string()]));
    assert_eq!(g.bfs(0), vec!["A", "B", "C"]);
}

#[test]
fn dfs_on_same_graph() {
    let g = graph(&[("A", &["C", "B"]), ("B", &["A"]), ("C", &["A"])]);
    assert_eq!(g.dfs_from("A"), Ok(vec!["A".to_string(), "B".to_string(), "C".to_string()]));
}

#[test]
fn dfs_branching_visits_shared_vertex_once() {
    let g = graph(&[("A", &["B", "C"]), ("B", &["D"]), ("C", &["D"]), ("D", &[])]);
    assert_eq!(g.dfs_from("A").unwrap(), vec!["A", "B", "D", "C"]);
    assert_eq!(g.bfs_from("A").unwrap(), vec!["A", "B", "C", "D"]);
}

#[test]
fn dfs_rechecks_marks_before_each_descent() {
    // B reaches C before A's turn for C comes.
    let g = graph(&[("A", &["B", "C"]), ("B", &["C"]), ("C", &["A"])]);
    assert_eq!(g.dfs_from("A").unwrap(), vec!["A", "B", "C"]);
}

#[test]
fn bfs_and_dfs_differ_in_order_but_agree_in_content() {
    let g = graph(&[
        ("A", &["C", "B"]),
        ("B", &["E", "D"]),
        ("C", &["F"]),
        ("D", &[]),
        ("E", &[]),
        ("F", &[]),
        ("G", &["A"]),
    ]);
    let b = g.bfs_from("A").unwrap();
    let d = g.dfs_from("A").unwrap();
    assert_eq!(b, vec!["A", "B", "C", "D", "E", "F"]);
    assert_eq!(d, vec!["A", "B", "D", "E", "C", "F"]);
    assert_eq!(b.len(), d.len());
    assert_eq!(b[0], d[0]);
    let mut bs = b.clone();
    let mut ds = d.clone();
    bs.sort();
    ds.sort();
    assert_eq!(bs, ds);
}

#[test]
fn unreachable_vertices_are_absent() {
    let g = graph(&[("A", &["B"]), ("B", &[]), ("C", &["A"])]);
    assert_eq!(g.bfs_from("A").unwrap(), vec!["A", "B"]);
    assert_eq!(g.dfs_from("A").unwrap(), vec!["A", "B"]);
    assert_eq!(g.bfs_from("C").unwrap(), vec!["C", "A", "B"]);
}

#[test]
fn single_vertex_traversal() {
    let g = graph(&[("A", &[])]);
    assert_eq!(g.bfs_from("A").unwrap(), vec!["A"]);
    assert_eq!(g.dfs_from("A").unwrap(), vec!["A"]);
}

#[test]
fn self_loop_listed_once() {
    let g = graph(&[("A", &["A", "B"]), ("B", &["B"])]);
    assert_eq!(g.bfs_from("A").unwrap(), vec!["A", "B"]);
    assert_eq!(g.dfs_from("A").unwrap(), vec!["A", "B"]);
}

#[test]
fn missing_start_is_an_error() {
    let g = graph(&[("A", &["B"]), ("B", &["A"])]);
    assert_eq!(g.bfs_from("Z"), Err(TraversalError::VertexNotFound));
    assert_eq!(g.dfs_from("Z"), Err(TraversalError::VertexNotFound));
}

#[test]
fn dfs_appends_to_result_with_given_marks() {
    let g = graph(&[("A", &["B", "C"]), ("B", &[]), ("C", &[])]);
    let mut result = vec!["X".to_string()];
    let mut visited = vec![false, true, false];
    g.dfs(0, &mut result, &mut visited);
    assert_eq!(result, vec!["X", "A", "C"]);
    assert_eq!(visited, vec![true, true, true]);
}

#[test]
fn orders_as_indices() {
    let g = graph(&[("C", &["B", "A"]), ("B", &["C"]), ("A", &["C"])]);
    assert_eq!(g.bfs_order(0), vec![0, 2, 1]);
    assert_eq!(g.dfs_order(0), vec![0, 2, 1]);
}
