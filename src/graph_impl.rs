//! Building the graph store: vertices, neighbour lists, degrees, the matrix.

use vstd::prelude::*;

use crate::label::{
    increasing, indexes_into, lemma_sort_same_entries, lemma_sort_sorted_stable, sort_by_label,
    sort_indices_by_label, sorted_by_label, stable_by_label,
};
use crate::{is_first_occurrence, matrix_of, Graph};

verus! {

/// The lists with `x` appended to the list of vertex `i`.
pub open spec fn lists_with(lists: Seq<Seq<Seq<char>>>, i: int, x: Seq<char>) -> Seq<Seq<Seq<char>>> {
    lists.update(i, lists[i].push(x))
}

/// `after` is `before` with the matrix recomputed from the lists.
pub open spec fn rebuilt_from(after: Graph, before: Graph) -> bool {
    &&& after.n_vertices == before.n_vertices
    &&& after.vertices == before.vertices
    &&& after.adj_list == before.adj_list
    &&& after.adj_count == before.adj_count
    &&& after.matrix() == matrix_of(before.labels(), before.lists())
}

/// The indices `0, 1, ..., n - 1`.
pub open spec fn index_seq(n: nat) -> Seq<usize> {
    Seq::new(n, |i: int| i as usize)
}

/// The label that ends a list of neighbours in a declaration.
pub open spec fn sentinel() -> Seq<char> {
    seq!['-', '1']
}

/// Position of the first sentinel at or after `j`, or the length.
pub open spec fn end_from(toks: Seq<Seq<char>>, j: int) -> int
    decreases toks.len() - j,
{
    if j >= toks.len() {
        toks.len() as int
    } else if toks[j] == sentinel() {
        j
    } else {
        end_from(toks, j + 1)
    }
}

/// The neighbours that a declaration `label n1 n2 ... -1` lists.
pub open spec fn declared_neighbors(toks: Seq<Seq<char>>) -> Seq<Seq<char>> {
    toks.subrange(1, end_from(toks, 1))
}

/// The vertex labels that a run of declarations gives; empty ones are skipped.
pub open spec fn declared_labels(d: Seq<Seq<Seq<char>>>) -> Seq<Seq<char>>
    decreases d.len(),
{
    if d.len() == 0 {
        Seq::empty()
    } else if d.last().len() == 0 {
        declared_labels(d.drop_last())
    } else {
        declared_labels(d.drop_last()).push(d.last()[0])
    }
}

/// The neighbour lists that a run of declarations gives.
pub open spec fn declared_lists(d: Seq<Seq<Seq<char>>>) -> Seq<Seq<Seq<char>>>
    decreases d.len(),
{
    if d.len() == 0 {
        Seq::empty()
    } else if d.last().len() == 0 {
        declared_lists(d.drop_last())
    } else {
        declared_lists(d.drop_last()).push(declared_neighbors(d.last()))
    }
}

/// Views of the strings of one declaration.
pub open spec fn tokens_view(t: Vec<String>) -> Seq<Seq<char>> {
    t@.map_values(|s: String| s@)
}

/// The end of `end_from` lies in `[j, len]`.
proof fn lemma_end_from_range(toks: Seq<Seq<char>>, j: int)
    requires
        0 <= j <= toks.len(),
    ensures
        j <= end_from(toks, j) <= toks.len(),
    decreases toks.len() - j,
{
    if j < toks.len() && toks[j] != sentinel() {
        lemma_end_from_range(toks, j + 1);
    }
}

/// Whether `t` is the sentinel `-1`.
fn is_sentinel(t: &String) -> (r: bool)
    ensures
        r == (t@ == sentinel()),
{
    let s = t.as_str();
    if s.unicode_len() != 2 {
        return false;
    }
    let a = s.get_char(0);
    let b = s.get_char(1);
    proof {
        if t@ == sentinel() {
            assert(t@[0] == '-' && t@[1] == '1');
        }
        if a == '-' && b == '1' {
            assert(t@ =~= sentinel());
        }
    }
    a == '-' && b == '1'
}

/// Position of the sentinel that ends the neighbours of a declaration, or
/// its length.
fn neighbors_end(tokens: &Vec<String>) -> (e: usize)
    requires
        tokens@.len() >= 1,
    ensures
        e == end_from(tokens_view(*tokens), 1),
        1 <= e <= tokens@.len(),
{
    let ghost toks = tokens_view(*tokens);
    let mut end: usize = 1;
    while end < tokens.len() && !is_sentinel(&tokens[end])
        invariant
            1 <= end <= tokens@.len(),
            toks == tokens_view(*tokens),
            end_from(toks, end as int) == end_from(toks, 1),
        decreases tokens@.len() - end,
    {
        end = end + 1;
    }
    proof {
        lemma_end_from_range(toks, 1);
    }
    end
}

/// A row of `n` unset entries.
pub(crate) fn false_row(n: usize) -> (r: Vec<bool>)
    ensures
        r@ == Seq::new(n as nat, |j: int| false),
{
    let mut r: Vec<bool> = Vec::new();
    let mut j: usize = 0;
    while j < n
        invariant
            j <= n,
            r@ == Seq::new(j as nat, |k: int| false),
        decreases n - j,
    {
        r.push(false);
        j = j + 1;
    }
    r
}

impl Graph {
    /// Adds a vertex with `label` and no neighbours; returns its index.
    pub fn add_vertex(&mut self, label: String) -> (idx: usize)
        requires
            old(self).wf(),
            old(self).n() < usize::MAX,
        ensures
            final(self).wf(),
            idx == old(self).n(),
            final(self).labels() == old(self).labels().push(label@),
            final(self).lists() == old(self).lists().push(Seq::empty()),
            final(self).adj_count@ == old(self).adj_count@.push(0),
            final(self).adj_matrix == old(self).adj_matrix,
    {
        let idx = self.vertices.len();
        self.vertices.push(label);
        self.adj_list.push(Vec::new());
        self.adj_count.push(0);
        self.n_vertices = idx + 1;
        assert(self.labels() =~= old(self).labels().push(label@));
        assert(self.adj_list@[idx as int]@.map_values(|s: String| s@) =~= Seq::<Seq<char>>::empty());
        assert(self.lists() =~= old(self).lists().push(Seq::empty()));
        idx
    }

    /// Appends `adj_vertex` to the neighbours of vertex `vertex_idx` and counts it.
    pub fn add_to_adj_list(&mut self, vertex_idx: usize, adj_vertex: String)
        requires
            old(self).wf(),
            vertex_idx < old(self).n(),
            old(self).adj_count@[vertex_idx as int] < usize::MAX,
        ensures
            final(self).wf(),
            final(self).labels() == old(self).labels(),
            final(self).lists() == lists_with(old(self).lists(), vertex_idx as int, adj_vertex@),
            final(self).adj_count@ == old(self).adj_count@.update(
                vertex_idx as int,
                (old(self).adj_count@[vertex_idx as int] + 1) as usize,
            ),
            final(self).adj_matrix == old(self).adj_matrix,
    {
        let ghost x = adj_vertex@;
        self.adj_list[vertex_idx].push(adj_vertex);
        let c = self.adj_count[vertex_idx];
        self.adj_count[vertex_idx] = c + 1;
        assert(self.lists() =~= lists_with(old(self).lists(), vertex_idx as int, x)) by {
            assert(self.adj_list@[vertex_idx as int]@ == old(self).adj_list@[vertex_idx as int]@.push(
                adj_vertex,
            ));
            assert(self.adj_list@[vertex_idx as int]@.map_values(|s: String| s@) =~= old(
                self,
            ).adj_list@[vertex_idx as int]@.map_values(|s: String| s@).push(x));
        }
    }

    /// Position of the first vertex labelled `str_vertex`.
    pub fn find_vertex_idx(&self, str_vertex: &str) -> (r: Option<usize>)
        requires
            self.wf(),
        ensures
            match r {
                Some(j) => j < self.n() && self.labels()[j as int] == str_vertex@
                    && is_first_occurrence(self.labels(), j as int),
                None => !self.labels().contains(str_vertex@),
            },
    {
        let target = str_vertex.to_owned();
        self.find_label(&target)
    }

    /// Position of the first vertex labelled `target`.
    pub fn find_label(&self, target: &String) -> (r: Option<usize>)
        requires
            self.wf(),
        ensures
            match r {
                Some(j) => j < self.n() && self.labels()[j as int] == target@
                    && is_first_occurrence(self.labels(), j as int),
                None => !self.labels().contains(target@),
            },
    {
        let mut i: usize = 0;
        while i < self.vertices.len()
            invariant
                self.wf(),
                i <= self.n(),
                forall|m: int| 0 <= m < i ==> self.labels()[m] != target@,
            decreases self.n() - i,
        {
            if self.vertices[i] == *target {
                return Some(i);
            }
            i = i + 1;
        }
        proof {
            if self.labels().contains(target@) {
                let k = choose|k: int| 0 <= k < self.labels().len() && self.labels()[k] == target@;
                assert(self.labels()[k] != target@);
            }
        }
        None
    }

    /// Recomputes the adjacency matrix from the neighbour lists: entry `(i, j)`
    /// is set when a neighbour label of `i` resolves to `j`. Labels that name
    /// no vertex are skipped.
    pub fn make_adj_matrix(&mut self)
        requires
            old(self).wf(),
        ensures
            final(self).built(),
            rebuilt_from(*final(self), *old(self)),
    {
        let n = self.vertices.len();
        let ghost target = matrix_of(self.labels(), self.lists());
        let mut m: Vec<Vec<bool>> = Vec::new();
        let mut i: usize = 0;
        while i < n
            invariant
                self.wf(),
                n == self.n(),
                i <= n,
                target == matrix_of(self.labels(), self.lists()),
                m@.len() == i,
                forall|a: int| 0 <= a < i ==> (#[trigger] m@[a])@ == target[a],
            decreases n - i,
        {
            let row = self.matrix_row(i);
            m.push(row);
            i = i + 1;
        }
        self.adj_matrix = m;
        assert(self.matrix() =~= target);
    }

    /// Row `i` of the matrix that the lists determine.
    fn matrix_row(&self, i: usize) -> (row: Vec<bool>)
        requires
            self.wf(),
            i < self.n(),
        ensures
            row@ == matrix_of(self.labels(), self.lists())[i as int],
    {
        let n = self.vertices.len();
        let ghost labels = self.labels();
        let ghost nbrs = self.lists()[i as int];
        let list = &self.adj_list[i];
        let mut row = false_row(n);
        let mut k: usize = 0;
        while k < list.len()
            invariant
                self.wf(),
                n == self.n(),
                i < n,
                labels == self.labels(),
                nbrs == self.lists()[i as int],
                list == self.adj_list@[i as int],
                nbrs.len() == list@.len(),
                k <= list@.len(),
                row@.len() == n,
                forall|j: int|
                    0 <= j < n ==> #[trigger] row@[j] == (is_first_occurrence(labels, j)
                        && nbrs.subrange(0, k as int).contains(labels[j])),
            decreases list@.len() - k,
        {
            let found = self.find_label(&list[k]);
            let ghost x = nbrs[k as int];
            let ghost before = row@;
            assert(x == list@[k as int]@);
            match found {
                Some(j) => {
                    row[j] = true;
                },
                None => {},
            }
            assert forall|j: int| 0 <= j < n implies #[trigger] row@[j] == (is_first_occurrence(
                labels,
                j,
            ) && nbrs.subrange(0, k + 1).contains(labels[j])) by {
                let pre = nbrs.subrange(0, k as int);
                let post = nbrs.subrange(0, k + 1);
                assert(post.contains(labels[j]) <==> (pre.contains(labels[j]) || x == labels[j])) by {
                    if pre.contains(labels[j]) {
                        let w = choose|w: int| 0 <= w < pre.len() && pre[w] == labels[j];
                        assert(post[w] == labels[j]);
                    }
                    if x == labels[j] {
                        assert(post[k as int] == x);
                    }
                    if post.contains(labels[j]) {
                        let w = choose|w: int| 0 <= w < post.len() && post[w] == labels[j];
                        if w < k {
                            assert(pre[w] == labels[j]);
                        }
                    }
                }
                match found {
                    Some(j2) => {
                        if j == j2 {
                        } else {
                            assert(row@[j] == before[j]);
                            if is_first_occurrence(labels, j) && labels[j] == x {
                                if j2 < j {
                                    assert(labels[j2 as int] == labels[j]);
                                } else {
                                    assert(labels[j] == labels[j2 as int]);
                                }
                            }
                        }
                    },
                    None => {
                        if labels[j] == x {
                            assert(labels.contains(x));
                        }
                    },
                }
            }
            k = k + 1;
        }
        assert(nbrs.subrange(0, k as int) =~= nbrs);
        assert(row@ =~= matrix_of(labels, self.lists())[i as int]);
        row
    }
}

impl Graph {
    /// Vertex indices ordered by label; vertices with equal labels keep their
    /// order of declaration.
    pub fn sort_vertices(&self) -> (r: Vec<usize>)
        requires
            self.wf(),
        ensures
            r@ == sort_by_label(self.labels(), index_seq(self.n())),
            r@.len() == self.n(),
            r@.no_duplicates(),
            indexes_into(r@, self.n()),
            forall|i: usize| i < self.n() ==> #[trigger] r@.contains(i),
            sorted_by_label(self.labels(), r@),
            stable_by_label(self.labels(), r@),
    {
        let n = self.vertices.len();
        let mut idx: Vec<usize> = Vec::new();
        let mut i: usize = 0;
        while i < n
            invariant
                n == self.n(),
                i <= n,
                idx@ == index_seq(i as nat),
            decreases n - i,
        {
            idx.push(i);
            i = i + 1;
            assert(idx@ =~= index_seq(i as nat));
        }
        proof {
            assert(self.vertices@.map_values(|s: String| s@) == self.labels());
            lemma_sort_same_entries(self.labels(), idx@, n as nat);
            lemma_sort_sorted_stable(self.labels(), idx@, n as nat);
            assert forall|i: usize| i < n implies #[trigger] idx@.contains(i) by {
                assert(idx@[i as int] == i);
            }
        }
        sort_indices_by_label(&self.vertices, &idx)
    }

    /// The vertex indices ordered by label, as `sort_vertices` orders them.
    pub fn sort_vertices_alphabetically(&self) -> (r: Vec<usize>)
        requires
            self.wf(),
        ensures
            r@ == sort_by_label(self.labels(), index_seq(self.n())),
            r@.len() == self.n(),
            r@.no_duplicates(),
            forall|i: usize| i < self.n() ==> #[trigger] r@.contains(i),
            sorted_by_label(self.labels(), r@),
            stable_by_label(self.labels(), r@),
    {
        self.sort_vertices()
    }

    /// Empties every neighbour list and sets every degree to zero.
    pub fn free_adj_list(&mut self)
        requires
            old(self).wf(),
        ensures
            final(self).wf(),
            final(self).vertices == old(self).vertices,
            final(self).adj_matrix == old(self).adj_matrix,
            final(self).lists() == Seq::new(old(self).n(), |i: int| Seq::<Seq<char>>::empty()),
            final(self).adj_count@ == Seq::new(old(self).n(), |i: int| 0usize),
    {
        let n = self.vertices.len();
        let mut lists: Vec<Vec<String>> = Vec::new();
        let mut counts: Vec<usize> = Vec::new();
        let mut i: usize = 0;
        while i < n
            invariant
                i <= n,
                lists@.len() == i,
                counts@ == Seq::new(i as nat, |k: int| 0usize),
                forall|k: int| 0 <= k < i ==> (#[trigger] lists@[k])@.len() == 0,
            decreases n - i,
        {
            lists.push(Vec::new());
            counts.push(0);
            i = i + 1;
            assert(counts@ =~= Seq::new(i as nat, |k: int| 0usize));
        }
        self.adj_list = lists;
        self.adj_count = counts;
        assert(self.lists() =~= Seq::new(n as nat, |i: int| Seq::<Seq<char>>::empty())) by {
            assert forall|k: int| 0 <= k < n implies #[trigger] self.lists()[k] == Seq::<Seq<char>>::empty() by {
                assert(self.adj_list@[k]@.map_values(|s: String| s@) =~= Seq::<Seq<char>>::empty());
            }
        }
    }

    /// Resets the store to no edges: empty neighbour lists, zero degrees and an
    /// unset matrix.
    pub fn init_rep(&mut self)
        requires
            old(self).wf(),
        ensures
            final(self).built(),
            final(self).vertices == old(self).vertices,
            final(self).lists() == Seq::new(old(self).n(), |i: int| Seq::<Seq<char>>::empty()),
            final(self).adj_count@ == Seq::new(old(self).n(), |i: int| 0usize),
            forall|i: int, j: int| 0 <= i < old(self).n() && 0 <= j < old(self).n() ==> !#[trigger] final(self).edge(i, j),
    {
        self.free_adj_list();
        self.make_adj_matrix();
    }

    /// Copies of the neighbour labels of vertex `vertex_idx`, in declaration order.
    pub fn collect_adjacent_vertices(&self, vertex_idx: usize) -> (r: Vec<String>)
        requires
            self.wf(),
            vertex_idx < self.n(),
        ensures
            r@.map_values(|s: String| s@) == self.lists()[vertex_idx as int],
    {
        let list = &self.adj_list[vertex_idx];
        let mut r: Vec<String> = Vec::new();
        let mut k: usize = 0;
        while k < list.len()
            invariant
                k <= list@.len(),
                r@.map_values(|s: String| s@) == list@.subrange(0, k as int).map_values(|s: String| s@),
            decreases list@.len() - k,
        {
            let ghost before = r@;
            let x = list[k].clone();
            r.push(x);
            assert(list@.subrange(0, k + 1) =~= list@.subrange(0, k as int).push(list@[k as int]));
            assert(r@ =~= before.push(x));
            assert(r@.map_values(|s: String| s@) =~= before.map_values(|s: String| s@).push(x@));
            k = k + 1;
            assert(r@.map_values(|s: String| s@) =~= list@.subrange(0, k as int).map_values(|s: String| s@));
        }
        assert(list@.subrange(0, k as int) =~= list@);
        r
    }

    /// Adds the vertex that one declaration `label n1 n2 ... -1` describes:
    /// the first token is its label, the tokens after it up to the first `-1`
    /// (or the end) its neighbours. An empty declaration adds nothing.
    pub fn add_declaration(&mut self, tokens: &Vec<String>)
        requires
            old(self).wf(),
            old(self).n() < usize::MAX,
        ensures
            final(self).wf(),
            final(self).adj_matrix == old(self).adj_matrix,
            tokens@.len() == 0 ==> final(self).labels() == old(self).labels() && final(self).lists()
                == old(self).lists(),
            tokens@.len() > 0 ==> final(self).labels() == old(self).labels().push(tokens@[0]@)
                && final(self).lists() == old(self).lists().push(declared_neighbors(tokens_view(*tokens))),
    {
        let ghost toks = tokens_view(*tokens);
        if tokens.len() == 0 {
            return;
        }
        let end = neighbors_end(tokens);
        let idx = self.add_vertex(tokens[0].clone());
        let ghost base = self.lists();
        assert(toks.subrange(1, 1) =~= Seq::<Seq<char>>::empty());
        assert(base.update(idx as int, toks.subrange(1, 1)) =~= base);
        let mut j: usize = 1;
        while j < end
            invariant
                self.wf(),
                idx == self.n() - 1,
                1 <= j <= end <= tokens@.len(),
                end == end_from(toks, 1),
                toks == tokens_view(*tokens),
                self.labels() == old(self).labels().push(tokens@[0]@),
                self.lists() == base.update(idx as int, toks.subrange(1, j as int)),
                base.len() == self.n(),
                self.adj_count@[idx as int] == j - 1,
                self.adj_matrix == old(self).adj_matrix,
            decreases end - j,
        {
            self.add_to_adj_list(idx, tokens[j].clone());
            assert(toks.subrange(1, j + 1) =~= toks.subrange(1, j as int).push(tokens@[j as int]@));
            assert(self.lists() =~= base.update(idx as int, toks.subrange(1, j + 1)));
            j = j + 1;
        }
        assert(base.update(idx as int, toks.subrange(1, j as int)) =~= old(self).lists().push(
            declared_neighbors(toks),
        ));
    }

    /// The built graph that a run of declarations describes.
    pub fn from_declarations(decls: &Vec<Vec<String>>) -> (g: Graph)
        ensures
            g.built(),
            g.labels() == declared_labels(decls@.map_values(|t: Vec<String>| tokens_view(t))),
            g.lists() == declared_lists(decls@.map_values(|t: Vec<String>| tokens_view(t))),
    {
        let ghost d = decls@.map_values(|t: Vec<String>| tokens_view(t));
        let mut g = Graph::new();
        let mut k: usize = 0;
        while k < decls.len()
            invariant
                g.wf(),
                k <= decls@.len(),
                g.n() <= k,
                d == decls@.map_values(|t: Vec<String>| tokens_view(t)),
                g.labels() == declared_labels(d.subrange(0, k as int)),
                g.lists() == declared_lists(d.subrange(0, k as int)),
            decreases decls@.len() - k,
        {
            g.add_declaration(&decls[k]);
            assert(g.labels().len() == g.n());
            assert(d.subrange(0, k + 1).drop_last() =~= d.subrange(0, k as int));
            k = k + 1;
        }
        assert(d.subrange(0, k as int) =~= d);
        g.make_adj_matrix();
        g
    }
}

/// Building the matrix twice in a row gives the matrix that building once gave.
pub proof fn lemma_make_adj_matrix_idempotent(g0: Graph, g1: Graph, g2: Graph)
    requires
        g0.wf(),
        rebuilt_from(g1, g0),
        rebuilt_from(g2, g1),
    ensures
        g2.matrix() == g1.matrix(),
        g2.built(),
{
}

} // verus!
