//! Whether one graph is contained in another, by vertex and edge labels.

use vstd::prelude::*;

use crate::label::indexes_into;
use crate::{is_first_occurrence, labels_unique, Graph};

verus! {

/// Vertex `a` of `g` is where lookups of its label land.
pub open spec fn resolves_to(g: Graph, x: Seq<char>, a: int) -> bool {
    is_first_occurrence(g.labels(), a) && g.labels()[a] == x
}

/// The edge of `h` from `i` to `j`, taken by labels, is an edge of `g`.
pub open spec fn edge_in(g: Graph, h: Graph, i: int, j: int) -> bool {
    exists|a: int, b: int|
        resolves_to(g, h.labels()[i], a) && resolves_to(g, h.labels()[j], b) && #[trigger] g.edge(a, b)
}

/// Every vertex label of `h` is a vertex label of `g`.
pub open spec fn vertices_in(g: Graph, h: Graph) -> bool {
    forall|i: int| 0 <= i < h.n() ==> g.labels().contains(#[trigger] h.labels()[i])
}

/// Every edge of `h` is, by labels, an edge of `g`.
pub open spec fn edges_in(g: Graph, h: Graph) -> bool {
    forall|i: int, j: int| 0 <= i < h.n() && 0 <= j < h.n() && #[trigger] h.edge(i, j) ==> edge_in(g, h, i, j)
}

/// `h` is a subgraph of `g` by labels.
pub open spec fn is_subgraph(g: Graph, h: Graph) -> bool {
    vertices_in(g, h) && edges_in(g, h)
}

/// For each vertex of `h` listed in `order`, whether its label is a vertex
/// label of `g`.
pub open spec fn vertex_marks(g: Graph, h: Graph, order: Seq<usize>) -> Seq<bool> {
    order.map_values(|i: usize| g.labels().contains(h.labels()[i as int]))
}

/// The entries for the edges of `h` from `order[i]` to `order[k]`, `i < k < j`:
/// both ends and whether the edge, by labels, is in `g`.
pub open spec fn edge_row_upto(g: Graph, h: Graph, order: Seq<usize>, i: int, j: int) -> Seq<(usize, usize, bool)>
    decreases j - i,
{
    if j <= i + 1 {
        Seq::empty()
    } else {
        let p = edge_row_upto(g, h, order, i, j - 1);
        let (a, b) = (order[i], order[j - 1]);
        if h.edge(a as int, b as int) {
            p.push((a, b, edge_in(g, h, a as int, b as int)))
        } else {
            p
        }
    }
}

/// The entries for the edges of `h` between vertices of `order`, earlier to
/// later, for the first `i` positions of `order`.
pub open spec fn edge_rows_upto(g: Graph, h: Graph, order: Seq<usize>, i: int) -> Seq<(usize, usize, bool)>
    decreases i,
{
    if i <= 0 {
        Seq::empty()
    } else {
        edge_rows_upto(g, h, order, i - 1) + edge_row_upto(g, h, order, i - 1, order.len() as int)
    }
}

impl Graph {
    /// Whether some vertex is labelled `vertex_name`.
    pub fn find_vertex(&self, vertex_name: &str) -> (r: bool)
        requires
            self.wf(),
        ensures
            r == self.labels().contains(vertex_name@),
    {
        self.find_vertex_idx(vertex_name).is_some()
    }

    /// Whether every vertex label of `graph_h` is a vertex label of `self`.
    pub fn all_vertices_exist(&self, graph_h: &Graph) -> (r: bool)
        requires
            self.wf(),
            graph_h.wf(),
        ensures
            r == vertices_in(*self, *graph_h),
    {
        let mut i: usize = 0;
        while i < graph_h.vertices.len()
            invariant
                self.wf(),
                graph_h.wf(),
                i <= graph_h.n(),
                forall|k: int| 0 <= k < i ==> self.labels().contains(#[trigger] graph_h.labels()[k]),
            decreases graph_h.n() - i,
        {
            if self.find_label(&graph_h.vertices[i]).is_none() {
                assert(!self.labels().contains(graph_h.labels()[i as int]));
                return false;
            }
            i = i + 1;
        }
        true
    }

    /// Looks up in `self` the labels of vertices `idx1` and `idx2` of `graph_h`
    /// and tells whether the edge between what they name is in `self`.
    fn edge_of_labels(&self, graph_h: &Graph, idx1: usize, idx2: usize) -> (r: bool)
        requires
            self.built(),
            graph_h.wf(),
            idx1 < graph_h.n(),
            idx2 < graph_h.n(),
        ensures
            r == edge_in(*self, *graph_h, idx1 as int, idx2 as int),
    {
        let a = self.find_label(&graph_h.vertices[idx1]);
        let b = self.find_label(&graph_h.vertices[idx2]);
        proof {
            self.lemma_matrix_shape();
        }
        match (a, b) {
            (Some(a), Some(b)) => {
                let r = self.adj_matrix[a][b];
                proof {
                    if edge_in(*self, *graph_h, idx1 as int, idx2 as int) {
                        let (a2, b2) = choose|a2: int, b2: int|
                            resolves_to(*self, graph_h.labels()[idx1 as int], a2) && resolves_to(
                                *self,
                                graph_h.labels()[idx2 as int],
                                b2,
                            ) && #[trigger] self.edge(a2, b2);
                        self.lemma_resolve_unique(graph_h.labels()[idx1 as int], a as int, a2);
                        self.lemma_resolve_unique(graph_h.labels()[idx2 as int], b as int, b2);
                    }
                    if r {
                        assert(self.edge(a as int, b as int));
                    }
                }
                r
            },
            _ => {
                proof {
                    if edge_in(*self, *graph_h, idx1 as int, idx2 as int) {
                        let (a2, b2) = choose|a2: int, b2: int|
                            resolves_to(*self, graph_h.labels()[idx1 as int], a2) && resolves_to(
                                *self,
                                graph_h.labels()[idx2 as int],
                                b2,
                            ) && #[trigger] self.edge(a2, b2);
                        assert(self.labels()[a2] == graph_h.labels()[idx1 as int]);
                        assert(self.labels()[b2] == graph_h.labels()[idx2 as int]);
                    }
                }
                false
            },
        }
    }

    /// `'+'` when the edge of `graph_h` from `idx1` to `idx2`, taken by labels,
    /// is an edge of `self`; `'-'` otherwise.
    pub fn get_edge_status(&self, graph_h: &Graph, idx1: usize, idx2: usize) -> (r: char)
        requires
            self.built(),
            graph_h.wf(),
            idx1 < graph_h.n(),
            idx2 < graph_h.n(),
        ensures
            r == (if edge_in(*self, *graph_h, idx1 as int, idx2 as int) { '+' } else { '-' }),
    {
        if self.edge_of_labels(graph_h, idx1, idx2) {
            '+'
        } else {
            '-'
        }
    }

    /// True when `graph_h` has no edge from `h_index1` to `h_index2`, or when
    /// that edge, taken by labels, is an edge of `self`.
    pub fn check_edge_exists(&self, graph_h: &Graph, h_index1: usize, h_index2: usize) -> (r: bool)
        requires
            self.built(),
            graph_h.built(),
            h_index1 < graph_h.n(),
            h_index2 < graph_h.n(),
        ensures
            r == (graph_h.edge(h_index1 as int, h_index2 as int) ==> edge_in(
                *self,
                *graph_h,
                h_index1 as int,
                h_index2 as int,
            )),
    {
        proof {
            graph_h.lemma_matrix_shape();
        }
        if !graph_h.adj_matrix[h_index1][h_index2] {
            return true;
        }
        self.edge_of_labels(graph_h, h_index1, h_index2)
    }

    /// Whether every edge of `graph_h`, taken by labels, is an edge of `self`.
    pub fn all_edges_exist(&self, graph_h: &Graph) -> (r: bool)
        requires
            self.built(),
            graph_h.built(),
        ensures
            r == edges_in(*self, *graph_h),
    {
        let n = graph_h.vertices.len();
        let mut i: usize = 0;
        while i < n
            invariant
                self.built(),
                graph_h.built(),
                n == graph_h.n(),
                i <= n,
                forall|a: int, b: int|
                    0 <= a < i && 0 <= b < n && #[trigger] graph_h.edge(a, b) ==> edge_in(*self, *graph_h, a, b),
            decreases n - i,
        {
            let mut j: usize = 0;
            while j < n
                invariant
                    self.built(),
                    graph_h.built(),
                    n == graph_h.n(),
                    i < n,
                    j <= n,
                    forall|a: int, b: int|
                        0 <= a < i && 0 <= b < n && #[trigger] graph_h.edge(a, b) ==> edge_in(*self, *graph_h, a, b),
                    forall|b: int| 0 <= b < j && #[trigger] graph_h.edge(i as int, b) ==> edge_in(*self, *graph_h, i as int, b),
                decreases n - j,
            {
                if !self.check_edge_exists(graph_h, i, j) {
                    return false;
                }
                j = j + 1;
            }
            i = i + 1;
        }
        true
    }

    /// Whether `graph_h` is a subgraph of `self`: every vertex label and every
    /// edge of `graph_h`, by labels, is in `self`. Edges are looked at only when
    /// all vertices were found.
    pub fn check_is_subgraph(&self, graph_h: &Graph) -> (r: bool)
        requires
            self.built(),
            graph_h.built(),
        ensures
            r == is_subgraph(*self, *graph_h),
    {
        let all_vertices_found = self.all_vertices_exist(graph_h);
        let all_edges_found = if all_vertices_found {
            self.all_edges_exist(graph_h)
        } else {
            false
        };
        all_vertices_found && all_edges_found
    }

    /// For each vertex of `graph_h` in `sorted_indices`, whether its label is
    /// a vertex label of `self`.
    pub fn vertex_statuses(&self, graph_h: &Graph, sorted_indices: &Vec<usize>) -> (r: Vec<bool>)
        requires
            self.wf(),
            graph_h.wf(),
            indexes_into(sorted_indices@, graph_h.n()),
        ensures
            r@ == vertex_marks(*self, *graph_h, sorted_indices@),
    {
        let mut r: Vec<bool> = Vec::new();
        let mut k: usize = 0;
        while k < sorted_indices.len()
            invariant
                self.wf(),
                graph_h.wf(),
                indexes_into(sorted_indices@, graph_h.n()),
                k <= sorted_indices@.len(),
                r@ == vertex_marks(*self, *graph_h, sorted_indices@.subrange(0, k as int)),
            decreases sorted_indices@.len() - k,
        {
            let i = sorted_indices[k];
            let found = self.find_label(&graph_h.vertices[i]).is_some();
            r.push(found);
            assert(sorted_indices@.subrange(0, k + 1) =~= sorted_indices@.subrange(0, k as int).push(i));
            assert(r@ =~= vertex_marks(*self, *graph_h, sorted_indices@.subrange(0, k + 1)));
            k = k + 1;
        }
        assert(sorted_indices@.subrange(0, k as int) =~= sorted_indices@);
        r
    }

    /// For each edge of `graph_h` from an earlier to a later vertex of
    /// `sorted_indices`, in that order: its ends and whether, by labels, it is
    /// an edge of `self`.
    pub fn edge_statuses(&self, graph_h: &Graph, sorted_indices: &Vec<usize>) -> (r: Vec<(usize, usize, bool)>)
        requires
            self.built(),
            graph_h.built(),
            indexes_into(sorted_indices@, graph_h.n()),
        ensures
            r@ == edge_rows_upto(*self, *graph_h, sorted_indices@, sorted_indices@.len() as int),
    {
        proof {
            graph_h.lemma_matrix_shape();
        }
        let len = sorted_indices.len();
        let mut r: Vec<(usize, usize, bool)> = Vec::new();
        let mut i: usize = 0;
        while i < len
            invariant
                self.built(),
                graph_h.built(),
                len == sorted_indices@.len(),
                indexes_into(sorted_indices@, graph_h.n()),
                i <= len,
                r@ == edge_rows_upto(*self, *graph_h, sorted_indices@, i as int),
            decreases len - i,
        {
            let mut j: usize = i + 1;
            while j < len
                invariant
                    self.built(),
                    graph_h.built(),
                    len == sorted_indices@.len(),
                    indexes_into(sorted_indices@, graph_h.n()),
                    i < len,
                    i + 1 <= j <= len,
                    r@ == edge_rows_upto(*self, *graph_h, sorted_indices@, i as int) + edge_row_upto(
                        *self,
                        *graph_h,
                        sorted_indices@,
                        i as int,
                        j as int,
                    ),
                decreases len - j,
            {
                let a = sorted_indices[i];
                let b = sorted_indices[j];
                proof {
                    graph_h.lemma_matrix_shape();
                }
                if graph_h.adj_matrix[a][b] {
                    let st = self.edge_of_labels(graph_h, a, b);
                    r.push((a, b, st));
                }
                assert(r@ =~= edge_rows_upto(*self, *graph_h, sorted_indices@, i as int) + edge_row_upto(
                    *self,
                    *graph_h,
                    sorted_indices@,
                    i as int,
                    j + 1,
                ));
                j = j + 1;
            }
            if i + 1 >= len {
                assert(edge_row_upto(*self, *graph_h, sorted_indices@, i as int, len as int) =~= Seq::empty());
            }
            i = i + 1;
        }
        r
    }

    /// Two vertices where lookups of one label land are the same.
    proof fn lemma_resolve_unique(&self, x: Seq<char>, a: int, b: int)
        requires
            resolves_to(*self, x, a),
            resolves_to(*self, x, b),
        ensures
            a == b,
    {
        if a < b {
            assert(self.labels()[a] == self.labels()[b]);
        } else if b < a {
            assert(self.labels()[b] == self.labels()[a]);
        }
    }
}

/// Containment is reflexive: a graph whose labels are distinct contains itself.
pub proof fn lemma_subgraph_reflexive(g: Graph)
    requires
        g.built(),
        labels_unique(g.labels()),
    ensures
        is_subgraph(g, g),
{
    assert forall|i: int| 0 <= i < g.n() implies g.labels().contains(#[trigger] g.labels()[i]) by {
        assert(g.labels()[i] == g.labels()[i]);
    }
    assert forall|i: int, j: int| 0 <= i < g.n() && 0 <= j < g.n() && #[trigger] g.edge(i, j) implies edge_in(
        g,
        g,
        i,
        j,
    ) by {
        assert(resolves_to(g, g.labels()[i], i));
        assert(resolves_to(g, g.labels()[j], j));
    }
}

/// A graph with a vertex label that `g` lacks is not a subgraph of `g`.
pub proof fn lemma_subgraph_needs_vertices(g: Graph, h: Graph, i: int)
    requires
        0 <= i < h.n(),
        !g.labels().contains(h.labels()[i]),
    ensures
        !is_subgraph(g, h),
{
}

} // verus!
