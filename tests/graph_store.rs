use graph_analysis::Graph;

fn decl(label: &str, nbrs: &[&str]) -> Vec<String> {
    let mut t = vec![label.to_string()];
    for n in nbrs {
        t.push(n.to_string());
    }
    t.push("-1".to_string());
    t
}

fn graph(decls: &[(&str, &[&str])]) -> Graph {
    let d: Vec<Vec<String>> = decls.iter().map(|(l, n)| decl(l, n)).collect();
    Graph::from_declarations(&d)
}

#[test]
fn builds_labels_lists_and_degrees() {
    let g = graph(&[("A", &["B", "C"]), ("B", &["A"]), ("C", &["A"])]);
    assert_eq!(g.n_vertices, 3);
    assert_eq!(g.vertices, vec!["A", "B", "C"]);
    assert_eq!(g.adj_list[0], vec!["B", "C"]);
    assert_eq!(g.adj_count, vec![2, 1, 1]);
    assert_eq!(
        g.adj_matrix,
        vec![vec![false, true, true], vec![true, false, false], vec![true, false, false]]
    );
}

#[test]
fn neighbours_keep_declaration_order() {
    let g = graph(&[("A", &["C", "B"]), ("B", &[]), ("C", &[])]);
    assert_eq!(g.collect_adjacent_vertices(0), vec!["C", "B"]);
    assert_eq!(g.collect_adjacent_vertices(1), Vec::<String>::new());
}

#[test]
fn unknown_neighbour_is_skipped_in_matrix() {
    let g = graph(&[("A", &["Z", "B"]), ("B", &[])]);
    assert_eq!(g.adj_count[0], 2);
    assert_eq!(g.adj_matrix, vec![vec![false, true], vec![false, false]]);
}

#[test]
fn duplicate_neighbour_collapses_to_one_bit() {
    let g = graph(&[("A", &["B", "B"]), ("B", &[])]);
    assert_eq!(g.adj_count[0], 2);
    assert_eq!(g.adj_matrix[0], vec![false, true]);
}

#[test]
fn matrix_is_not_symmetrized() {
    let g = graph(&[("A", &["B"]), ("B", &[])]);
    assert!(g.adj_matrix[0][1]);
    assert!(!g.adj_matrix[1][0]);
}

#[test]
fn build_matrix_twice_equals_once() {
    let mut g = graph(&[("A", &["B", "C"]), ("B", &["A", "Q"]), ("C", &["C"])]);
    let once = g.adj_matrix.clone();
    g.make_adj_matrix();
    assert_eq!(g.adj_matrix, once);
    g.make_adj_matrix();
    assert_eq!(g.adj_matrix, once);
}

#[test]
fn find_vertex_idx_returns_first_match() {
    let g = graph(&[("A", &[]), ("B", &[]), ("A", &[])]);
    assert_eq!(g.find_vertex_idx("A"), Some(0));
    assert_eq!(g.find_vertex_idx("B"), Some(1));
    assert_eq!(g.find_vertex_idx("a"), None);
    assert_eq!(g.find_vertex_idx(""), None);
}

#[test]
fn duplicate_label_edges_resolve_to_first() {
    let g = graph(&[("A", &[]), ("B", &["A"]), ("A", &[])]);
    assert_eq!(g.adj_matrix[1], vec![true, false, false]);
}

#[test]
fn declaration_stops_at_sentinel() {
    let d = vec![vec!["A".to_string(), "B".to_string(), "-1".to_string(), "C".to_string()]];
    let g = Graph::from_declarations(&d);
    assert_eq!(g.adj_list[0], vec!["B"]);
}

#[test]
fn declaration_without_sentinel_takes_all() {
    let d = vec![vec!["A".to_string(), "B".to_string(), "C".to_string()]];
    let g = Graph::from_declarations(&d);
    assert_eq!(g.adj_list[0], vec!["B", "C"]);
    assert_eq!(g.adj_count[0], 2);
}

#[test]
fn empty_declaration_is_skipped() {
    let d = vec![
        vec!["A".to_string(), "B".to_string(), "-1".to_string()],
        vec![],
        vec!["B".to_string(), "A".to_string(), "-1".to_string()],
    ];
    let g = Graph::from_declarations(&d);
    assert_eq!(g.n_vertices, 2);
    assert_eq!(g.vertices, vec!["A", "B"]);
    assert_eq!(g.adj_matrix, vec![vec![false, true], vec![true, false]]);
}

#[test]
fn empty_graph() {
    let g = Graph::new();
    assert_eq!(g.n_vertices, 0);
    assert!(g.sort_vertices().is_empty());
    let g2 = Graph::from_declarations(&vec![]);
    assert_eq!(g2.n_vertices, 0);
}

#[test]
fn add_vertex_and_adjacency_by_hand() {
    let mut g = Graph::new();
    assert_eq!(g.add_vertex("X".to_string()), 0);
    assert_eq!(g.add_vertex("Y".to_string()), 1);
    g.add_to_adj_list(0, "Y".to_string());
    g.add_to_adj_list(0, "X".to_string());
    g.make_adj_matrix();
    assert_eq!(g.adj_count, vec![2, 0]);
    assert_eq!(g.adj_matrix, vec![vec![true, true], vec![false, false]]);
}

#[test]
fn sort_vertices_orders_by_label() {
    let g = graph(&[("D", &[]), ("B", &[]), ("C", &[]), ("A", &[])]);
    assert_eq!(g.sort_vertices(), vec![3, 1, 2, 0]);
    assert_eq!(g.sort_vertices_alphabetically(), vec![3, 1, 2, 0]);
}

#[test]
fn sort_vertices_is_stable() {
    let g = graph(&[("B", &[]), ("A", &[]), ("B", &[]), ("A", &[]), ("C", &[])]);
    assert_eq!(g.sort_vertices(), vec![1, 3, 0, 2, 4]);
}

#[test]
fn sort_vertices_uses_byte_order() {
    let g = graph(&[("b", &[]), ("B", &[]), ("AB", &[]), ("A", &[]), ("é", &[]), ("z", &[])]);
    assert_eq!(g.sort_vertices(), vec![3, 2, 1, 0, 5, 4]);
}

#[test]
fn free_adj_list_clears_lists_and_degrees() {
    let mut g = graph(&[("A", &["B"]), ("B", &["A"])]);
    g.free_adj_list();
    assert_eq!(g.adj_count, vec![0, 0]);
    assert!(g.adj_list.iter().all(|l| l.is_empty()));
    assert_eq!(g.vertices, vec!["A", "B"]);
}

#[test]
fn init_rep_clears_matrix_too() {
    let mut g = graph(&[("A", &["B"]), ("B", &["A"])]);
    g.init_rep();
    assert_eq!(g.adj_matrix, vec![vec![false, false], vec![false, false]]);
    assert_eq!(g.adj_count, vec![0, 0]);
}

#[test]
fn base_filename_strips_last_extension() {
    assert_eq!(Graph::get_base_filename("G.TXT"), "G");
    assert_eq!(Graph::get_base_filename("a.b.txt"), "a.b");
    assert_eq!(Graph::get_base_filename("noext"), "noext");
    assert_eq!(Graph::remove_file_extension("H.txt"), "H");
    assert_eq!(Graph::remove_file_extension(""), "");
}

#[test]
fn output_filenames() {
    assert_eq!(Graph::get_output_filename("G", "-SET"), "G-SET.TXT");
    assert_eq!(Graph::create_output_filename("G", "H"), "G-H-SUBGRAPH.TXT");
}
