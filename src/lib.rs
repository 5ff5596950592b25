//! A small labelled graph kept as adjacency lists and as an adjacency matrix,
//! with breadth-first and depth-first traversal and a label-based subgraph test.

use vstd::prelude::*;

pub mod graph_impl;
pub mod label;
pub mod names;
pub mod subgraph_impl;
pub mod traversal;

verus! {

/// A graph whose vertices are identified by their position in `vertices`.
///
/// `adj_list[i]` holds the neighbour labels declared for vertex `i`, in
/// declaration order; `adj_count[i]` is their number; `adj_matrix[i][j]` is set
/// when some neighbour label of `i` resolves to vertex `j` (the first vertex
/// that carries that label).
pub struct Graph {
    pub vertices: Vec<String>,
    pub n_vertices: usize,
    pub adj_matrix: Vec<Vec<bool>>,
    pub adj_list: Vec<Vec<String>>,
    pub adj_count: Vec<usize>,
}

/// `j` is the first position of its label in `labels`.
pub open spec fn is_first_occurrence(labels: Seq<Seq<char>>, j: int) -> bool {
    &&& 0 <= j < labels.len()
    &&& forall|m: int| 0 <= m < j ==> labels[m] != labels[j]
}

/// The adjacency matrix that the labels and the neighbour lists determine.
pub open spec fn matrix_of(labels: Seq<Seq<char>>, lists: Seq<Seq<Seq<char>>>) -> Seq<Seq<bool>> {
    Seq::new(
        labels.len(),
        |i: int|
            Seq::new(
                labels.len(),
                |j: int| is_first_occurrence(labels, j) && lists[i].contains(labels[j]),
            ),
    )
}

/// All labels are distinct.
pub open spec fn labels_unique(labels: Seq<Seq<char>>) -> bool {
    forall|a: int, b: int| 0 <= a < labels.len() && 0 <= b < labels.len() && a != b ==> labels[a] != labels[b]
}

impl Graph {
    pub open spec fn labels(&self) -> Seq<Seq<char>> {
        self.vertices@.map_values(|s: String| s@)
    }

    pub open spec fn lists(&self) -> Seq<Seq<Seq<char>>> {
        self.adj_list@.map_values(|l: Vec<String>| l@.map_values(|s: String| s@))
    }

    pub open spec fn matrix(&self) -> Seq<Seq<bool>> {
        self.adj_matrix@.map_values(|r: Vec<bool>| r@)
    }

    /// Number of vertices.
    pub open spec fn n(&self) -> nat {
        self.vertices@.len()
    }

    /// The shape of the store: one list and one degree per vertex, degrees
    /// equal to list lengths.
    pub open spec fn wf(&self) -> bool {
        &&& self.n_vertices == self.vertices@.len()
        &&& self.adj_list@.len() == self.n()
        &&& self.adj_count@.len() == self.n()
        &&& forall|i: int| 0 <= i < self.n() ==> #[trigger] self.adj_count@[i] == self.adj_list@[i]@.len()
    }

    /// The store is well formed and its matrix agrees with its lists.
    pub open spec fn built(&self) -> bool {
        &&& self.wf()
        &&& self.matrix() == matrix_of(self.labels(), self.lists())
    }

    /// Edge from `i` to `j` in the matrix.
    pub open spec fn edge(&self, i: int, j: int) -> bool {
        self.matrix()[i][j]
    }

    /// A built store holds an `n` by `n` matrix whose rows are those of `matrix()`.
    pub proof fn lemma_matrix_shape(&self)
        requires
            self.built(),
        ensures
            self.adj_matrix@.len() == self.n(),
            forall|i: int| 0 <= i < self.n() ==> (#[trigger] self.adj_matrix@[i])@ == self.matrix()[i],
            forall|i: int| 0 <= i < self.n() ==> (#[trigger] self.adj_matrix@[i])@.len() == self.n(),
    {
        assert(self.matrix().len() == self.adj_matrix@.len());
        assert forall|i: int| 0 <= i < self.n() implies (#[trigger] self.adj_matrix@[i])@.len() == self.n() by {
            assert(self.matrix()[i] == self.adj_matrix@[i]@);
        }
    }

    /// An empty graph.
    pub fn new() -> (g: Graph)
        ensures
            g.built(),
            g.n() == 0,
    {
        let g = Graph {
            vertices: Vec::new(),
            n_vertices: 0,
            adj_matrix: Vec::new(),
            adj_list: Vec::new(),
            adj_count: Vec::new(),
        };
        assert(g.matrix() =~= matrix_of(g.labels(), g.lists()));
        g
    }
}

} // verus!
