//! Breadth-first and depth-first traversal over the adjacency matrix, with
//! siblings taken in label order.

use vstd::prelude::*;

use crate::graph_impl::false_row;
use crate::label::{indexes_into, lemma_sort_same_entries, sort_by_label, sort_indices_by_label};
use crate::{is_first_occurrence, Graph};

verus! {

/// Why a traversal could not start.
#[derive(Debug, Clone, Copy, PartialEq, Eq, Structural)]
pub enum TraversalError {
    /// No vertex carries the requested start label.
    VertexNotFound,
}

/// `n` unset marks.
pub open spec fn no_marks(n: nat) -> Seq<bool> {
    Seq::new(n, |i: int| false)
}

/// The count of unset entries is at most the length, and below it when
/// entry `v` is set.
proof fn lemma_count_bound(s: Seq<bool>, v: int)
    requires
        0 <= v < s.len(),
    ensures
        unvisited_count(s) + (if s[v] { 1nat } else { 0nat }) <= s.len(),
    decreases s.len(),
{
    if v < s.len() - 1 {
        lemma_count_bound(s.drop_last(), v);
    } else {
        lemma_count_le(s.drop_last());
    }
}

/// The count of unset entries is at most the length.
proof fn lemma_count_le(s: Seq<bool>)
    ensures
        unvisited_count(s) <= s.len(),
    decreases s.len(),
{
    if s.len() > 0 {
        lemma_count_le(s.drop_last());
    }
}

/// `n` marks, only the one at `s` set.
pub open spec fn only_marked(n: nat, s: int) -> Seq<bool> {
    Seq::new(n, |i: int| i == s)
}

/// `vis` with the entries listed in `s` set.
pub open spec fn mark_all(vis: Seq<bool>, s: Seq<usize>) -> Seq<bool> {
    Seq::new(vis.len(), |i: int| vis[i] || s.contains(i as usize))
}

/// Number of unset entries.
pub open spec fn unvisited_count(s: Seq<bool>) -> nat
    decreases s.len(),
{
    if s.len() == 0 {
        0
    } else {
        unvisited_count(s.drop_last()) + if s.last() {
            0nat
        } else {
            1nat
        }
    }
}

/// A sequence of unset entries counts its length.
proof fn lemma_all_unvisited(n: nat)
    ensures
        unvisited_count(Seq::new(n, |j: int| false)) == n,
    decreases n,
{
    if n > 0 {
        assert(Seq::new(n, |j: int| false).drop_last() =~= Seq::new((n - 1) as nat, |j: int| false));
        lemma_all_unvisited((n - 1) as nat);
    }
}

/// Setting one unset entry lowers the count by one.
proof fn lemma_mark_one(s: Seq<bool>, i: int)
    requires
        0 <= i < s.len(),
        !s[i],
    ensures
        unvisited_count(s.update(i, true)) + 1 == unvisited_count(s),
    decreases s.len(),
{
    let t = s.update(i, true);
    if i < s.len() - 1 {
        assert(t.drop_last() =~= s.drop_last().update(i, true));
        lemma_mark_one(s.drop_last(), i);
    } else {
        assert(t.drop_last() =~= s.drop_last());
    }
}

impl Graph {
    /// `p` is a walk along edges of the matrix.
    pub open spec fn is_path(&self, p: Seq<int>) -> bool {
        &&& p.len() >= 1
        &&& forall|k: int| 0 <= k < p.len() ==> 0 <= #[trigger] p[k] < self.n()
        &&& forall|k: int| 0 <= k < p.len() - 1 ==> #[trigger] self.edge(p[k], p[k + 1])
    }

    /// Vertex `v` can be reached from `s` along edges.
    pub open spec fn reaches(&self, s: int, v: int) -> bool {
        exists|p: Seq<int>| #[trigger] self.is_path(p) && p[0] == s && p.last() == v
    }

    /// `o` lists each vertex reachable from `s` exactly once, starting with `s`.
    pub open spec fn is_traversal(&self, s: int, o: Seq<usize>) -> bool {
        &&& o.len() >= 1
        &&& o[0] == s
        &&& o.no_duplicates()
        &&& indexes_into(o, self.n())
        &&& forall|v: usize| v < self.n() ==> (#[trigger] o.contains(v) <==> self.reaches(s, v as int))
    }

    /// Vertices below `i` that are neighbours of `u` and unmarked in `vis`,
    /// in index order.
    pub open spec fn fresh_upto(&self, u: int, vis: Seq<bool>, i: nat) -> Seq<usize>
        decreases i,
    {
        if i == 0 {
            Seq::empty()
        } else {
            let p = self.fresh_upto(u, vis, (i - 1) as nat);
            if self.edge(u, i - 1) && !vis[i - 1] {
                p.push((i - 1) as usize)
            } else {
                p
            }
        }
    }

    /// The unmarked neighbours of `u` sorted by label, ties in index order:
    /// the order in which a traversal takes them up.
    pub open spec fn next_siblings(&self, u: int, vis: Seq<bool>) -> Seq<usize> {
        sort_by_label(self.labels(), self.fresh_upto(u, vis, self.n()))
    }

    /// Breadth-first run from `queue` with marks `vis`, for at most `fuel`
    /// dequeues: each dequeued vertex is listed, and its unmarked neighbours
    /// are marked and queued in sibling order.
    pub open spec fn bfs_run(&self, queue: Seq<usize>, vis: Seq<bool>, fuel: nat) -> Seq<usize>
        decreases fuel,
    {
        if fuel == 0 || queue.len() == 0 {
            Seq::empty()
        } else {
            let c = self.next_siblings(queue[0] as int, vis);
            seq![queue[0]] + self.bfs_run(queue.drop_first() + c, mark_all(vis, c), (fuel - 1) as nat)
        }
    }

    /// The breadth-first order from `s`.
    pub open spec fn bfs_spec(&self, s: int) -> Seq<usize> {
        self.bfs_run(seq![s as usize], only_marked(self.n(), s), self.n())
    }

    /// Depth-first visit of `v` with marks `vis`, nested at most `fuel` deep:
    /// the vertices it lists and the marks after it. `v` is marked and listed,
    /// then each of its sibling-ordered unmarked neighbours is visited if it is
    /// still unmarked when its turn comes.
    pub open spec fn dfs_run(&self, v: int, vis: Seq<bool>, fuel: nat) -> (Seq<usize>, Seq<bool>)
        decreases fuel, 0nat,
    {
        let vis1 = vis.update(v, true);
        if fuel == 0 {
            (seq![v as usize], vis1)
        } else {
            let r = self.dfs_list(self.next_siblings(v, vis1), vis1, (fuel - 1) as nat);
            (seq![v as usize] + r.0, r.1)
        }
    }

    /// Depth-first visits of the still unmarked vertices of `cands`, in turn.
    pub open spec fn dfs_list(&self, cands: Seq<usize>, vis: Seq<bool>, fuel: nat) -> (Seq<usize>, Seq<bool>)
        decreases fuel, cands.len() + 1,
    {
        if cands.len() == 0 {
            (Seq::empty(), vis)
        } else if vis[cands[0] as int] {
            self.dfs_list(cands.drop_first(), vis, fuel)
        } else {
            let a = self.dfs_run(cands[0] as int, vis, fuel);
            let b = self.dfs_list(cands.drop_first(), a.1, fuel);
            (a.0 + b.0, b.1)
        }
    }

    /// The depth-first order from `s` with no vertex marked.
    pub open spec fn dfs_spec(&self, s: int) -> Seq<usize> {
        self.dfs_run(s, no_marks(self.n()), self.n() + 1).0
    }

    /// The labels of the vertices listed in `o`.
    pub open spec fn labels_of(&self, o: Seq<usize>) -> Seq<Seq<char>> {
        o.map_values(|i: usize| self.labels()[i as int])
    }

    /// Neighbours of `u` not yet marked in `visited`, in index order.
    fn unvisited_neighbors(&self, u: usize, visited: &Vec<bool>) -> (c: Vec<usize>)
        requires
            self.built(),
            u < self.n(),
            visited@.len() == self.n(),
        ensures
            c@ == self.fresh_upto(u as int, visited@, self.n()),
            indexes_into(c@, self.n()),
    {
        let n = self.vertices.len();
        proof {
            self.lemma_matrix_shape();
        }
        let row = &self.adj_matrix[u];
        let mut c: Vec<usize> = Vec::new();
        let mut i: usize = 0;
        while i < n
            invariant
                self.built(),
                n == self.n(),
                u < n,
                row@ == self.matrix()[u as int],
                row@.len() == n,
                visited@.len() == n,
                i <= n,
                c@ == self.fresh_upto(u as int, visited@, i as nat),
            decreases n - i,
        {
            if row[i] && !visited[i] {
                c.push(i);
            }
            i = i + 1;
        }
        proof {
            self.lemma_fresh_upto(u as int, visited@, n as nat);
        }
        c
    }

    /// Breadth-first order of the vertices reachable from `starting_index`:
    /// each dequeued vertex marks its unmarked neighbours at once and queues
    /// them sorted by label.
    pub fn bfs_order(&self, starting_index: usize) -> (o: Vec<usize>)
        requires
            self.built(),
            starting_index < self.n(),
        ensures
            o@ == self.bfs_spec(starting_index as int),
            self.is_traversal(starting_index as int, o@),
    {
        let n = self.vertices.len();
        let s = starting_index;
        let mut visited = false_row(n);
        let mut order: Vec<usize> = Vec::new();
        proof {
            lemma_all_unvisited(n as nat);
            lemma_mark_one(visited@, s as int);
            assert(self.is_path(seq![s as int]));
        }
        visited[s] = true;
        order.push(s);
        proof {
            assert forall|i: usize| i < n implies (#[trigger] visited@[i as int] <==> order@.contains(i)) by {
                if i == s {
                    assert(order@[0] == s);
                }
            }
            assert(visited@ =~= only_marked(self.n(), s as int));
            assert(order@.skip(0) =~= seq![s]);
            assert(self.bfs_spec(s as int) == self.bfs_run(order@.skip(0), visited@, (n - 0) as nat));
            assert(order@.subrange(0, 0) + self.bfs_spec(s as int) =~= self.bfs_spec(s as int));
            assert(self.bfs_state(s as int, order@, 0, visited@));
            self.lemma_bfs_spec_traversal(s as int);
        }
        let mut head: usize = 0;
        while head < order.len()
            invariant
                self.built(),
                n == self.n(),
                s < n,
                self.bfs_state(s as int, order@, head as int, visited@),
                self.bfs_spec(s as int) == order@.subrange(0, head as int) + self.bfs_run(
                    order@.skip(head as int),
                    visited@,
                    (n - head) as nat,
                ),
            decreases n - head,
        {
            let u = order[head];
            let cands = self.unvisited_neighbors(u, &visited);
            let sorted = sort_indices_by_label(&self.vertices, &cands);
            let ghost order0 = order@;
            let ghost visited0 = visited@;
            proof {
                assert(self.vertices@.map_values(|s: String| s@) == self.labels());
                assert(sorted@ == self.next_siblings(u as int, visited0));
                self.lemma_next_siblings(u as int, visited0);
                assert(order@ =~= order0 + sorted@.subrange(0, 0));
                assert(visited@ =~= mark_all(visited0, sorted@.subrange(0, 0)));
            }
            let mut k: usize = 0;
            while k < sorted.len()
                invariant
                    n == self.n(),
                    visited0.len() == n,
                    indexes_into(sorted@, n as nat),
                    k <= sorted@.len(),
                    order@ == order0 + sorted@.subrange(0, k as int),
                    visited@ == mark_all(visited0, sorted@.subrange(0, k as int)),
                decreases sorted@.len() - k,
            {
                let c = sorted[k];
                let ghost t = sorted@.subrange(0, k as int);
                visited[c] = true;
                order.push(c);
                proof {
                    let t2 = t.push(c);
                    assert(sorted@.subrange(0, k + 1) =~= t2);
                    assert forall|i: int| 0 <= i < n implies visited@[i] == mark_all(visited0, t2)[i] by {
                        let iu = i as usize;
                        if t2.contains(iu) && iu != c {
                            let w = choose|w: int| 0 <= w < t2.len() && t2[w] == iu;
                            assert(t[w] == iu);
                        }
                        if t.contains(iu) {
                            let w = choose|w: int| 0 <= w < t.len() && t[w] == iu;
                            assert(t2[w] == iu);
                        }
                        if iu == c {
                            assert(t2[k as int] == c);
                        }
                    }
                    assert(visited@ =~= mark_all(visited0, t2));
                }
                k = k + 1;
            }
            proof {
                assert(sorted@.subrange(0, k as int) =~= sorted@);
                self.lemma_bfs_step(s as int, order0, head as int, visited0);
                self.lemma_bfs_run_unfold(s as int, order0, head as int, visited0);
            }
            head = head + 1;
        }
        proof {
            assert(order@.subrange(0, head as int) =~= order@);
            assert(order@.skip(head as int) =~= Seq::<usize>::empty());
            assert(self.bfs_spec(s as int) =~= order@);
        }
        order
    }

    /// What one depth-first visit from `v` did: `before` and `after` are the
    /// marks around it, `new` the vertices it listed, `v` first, then every
    /// vertex it newly marked, each once, all of them closed under edges.
    pub open spec fn dfs_segment(&self, v: int, before: Seq<bool>, after: Seq<bool>, new: Seq<usize>) -> bool {
        &&& new.len() >= 1
        &&& new[0] == v
        &&& new.no_duplicates()
        &&& indexes_into(new, self.n())
        &&& after.len() == before.len()
        &&& after[v]
        &&& forall|i: int| 0 <= i < before.len() && before[i] ==> #[trigger] after[i]
        &&& forall|k: int| 1 <= k < new.len() ==> !before[#[trigger] new[k] as int]
        &&& forall|i: usize|
            i < self.n() && i != v ==> (#[trigger] new.contains(i) <==> (after[i as int] && !before[i as int]))
        &&& forall|k: int, w: int|
            0 <= k < new.len() && 0 <= w < self.n() && #[trigger] self.edge(new[k] as int, w) ==> after[w]
        &&& forall|k: int| 0 <= k < new.len() ==> self.reaches(v, #[trigger] new[k] as int)
    }

    /// Depth-first visit of `v`: marks and lists it, then visits in label order
    /// each neighbour that was unmarked when `v` was reached and is still
    /// unmarked when its turn comes.
    fn dfs_visit(&self, v: usize, order: &mut Vec<usize>, visited: &mut Vec<bool>, Ghost(fuel): Ghost<nat>)
        requires
            self.built(),
            v < self.n(),
            old(visited)@.len() == self.n(),
            fuel > unvisited_count(old(visited)@) + if old(visited)@[v as int] { 1nat } else { 0nat },
        ensures
            (final(order)@.skip(old(order)@.len() as int), final(visited)@) == self.dfs_run(v as int, old(visited)@, fuel),
            final(order)@.len() > old(order)@.len(),
            final(order)@.subrange(0, old(order)@.len() as int) == old(order)@,
        decreases fuel,
    {
        let n = self.vertices.len();
        let ghost vis_in = visited@;
        let ghost ord_in = order@;
        let ghost len_in = order@.len() as int;
        let ghost was: nat = if visited@[v as int] { 1nat } else { 0nat };
        proof {
            if !visited@[v as int] {
                lemma_mark_one(visited@, v as int);
            } else {
                assert(visited@.update(v as int, true) =~= visited@);
            }
        }
        visited[v] = true;
        order.push(v);
        let ghost vis1 = visited@;
        let cands = self.unvisited_neighbors(v, visited);
        let sorted = sort_indices_by_label(&self.vertices, &cands);
        proof {
            assert(self.vertices@.map_values(|s: String| s@) == self.labels());
            self.lemma_next_siblings(v as int, vis1);
            assert(order@.subrange(0, len_in) =~= ord_in);
            assert(order@.skip(len_in + 1) =~= Seq::<usize>::empty());
            assert(sorted@.skip(0) =~= sorted@);
        }
        let mut k: usize = 0;
        while k < sorted.len()
            invariant
                self.built(),
                n == self.n(),
                v < n,
                vis_in.len() == n,
                vis_in == old(visited)@,
                was == (if vis_in[v as int] { 1nat } else { 0nat }),
                fuel > unvisited_count(vis_in) + was,
                vis1 == vis_in.update(v as int, true),
                sorted@ == self.next_siblings(v as int, vis1),
                indexes_into(sorted@, n as nat),
                k <= sorted@.len(),
                visited@.len() == n,
                len_in == ord_in.len(),
                order@.len() > len_in,
                order@.subrange(0, len_in) == ord_in,
                order@[len_in] == v,
                unvisited_count(visited@) + order@.len() == unvisited_count(vis_in) + was + len_in,
                self.dfs_list(sorted@, vis1, (fuel - 1) as nat) == (order@.skip(len_in + 1) + self.dfs_list(
                    sorted@.skip(k as int),
                    visited@,
                    (fuel - 1) as nat,
                ).0, self.dfs_list(sorted@.skip(k as int), visited@, (fuel - 1) as nat).1),
            decreases sorted@.len() - k,
        {
            let c = sorted[k];
            proof {
                assert(sorted@.skip(k as int).drop_first() =~= sorted@.skip(k + 1));
                assert(sorted@.skip(k as int)[0] == c);
            }
            if !visited[c] {
                let ghost vis_b = visited@;
                let ghost ord_b = order@;
                self.dfs_visit(c, order, visited, Ghost((fuel - 1) as nat));
                proof {
                    self.lemma_dfs_run_segment(c as int, vis_b, (fuel - 1) as nat);
                    let sub = order@.skip(ord_b.len() as int);
                    assert(order@.len() == ord_b.len() + sub.len());
                    assert forall|j: int| 0 <= j < ord_b.len() implies #[trigger] order@[j] == ord_b[j] by {
                        assert(order@.subrange(0, ord_b.len() as int)[j] == order@[j]);
                    }
                    assert(order@.subrange(0, len_in) =~= ord_in) by {
                        assert forall|j: int| 0 <= j < len_in implies order@[j] == ord_in[j] by {
                            assert(ord_b.subrange(0, len_in)[j] == ord_b[j]);
                        }
                    }
                    assert(order@[len_in] == ord_b[len_in]);
                    assert(order@.skip(len_in + 1) =~= ord_b.skip(len_in + 1) + sub);
                }
            }
            k = k + 1;
        }
        proof {
            assert(sorted@.skip(k as int) =~= Seq::<usize>::empty());
            assert(order@.skip(len_in) =~= seq![v] + order@.skip(len_in + 1));
        }
    }

    /// Appending the segment of a nested visit from a neighbour `c` keeps the
    /// facts of `dfs_acc`.
    proof fn lemma_dfs_compose(
        &self,
        v: usize,
        c: usize,
        vis_in: Seq<bool>,
        vis1: Seq<bool>,
        vis_b: Seq<bool>,
        vis_a: Seq<bool>,
        old_new: Seq<usize>,
        sub: Seq<usize>,
        was: nat,
    )
        requires
            self.built(),
            v < self.n(),
            c < self.n(),
            self.edge(v as int, c as int),
            !vis_b[c as int],
            vis_in.len() == self.n(),
            vis1 == vis_in.update(v as int, true),
            vis_b.len() == self.n(),
            forall|i: int| 0 <= i < self.n() && vis1[i] ==> #[trigger] vis_b[i],
            self.dfs_acc(v as int, vis_in, was, old_new, vis_b),
            self.dfs_segment(c as int, vis_b, vis_a, sub),
            unvisited_count(vis_a) + sub.len() == unvisited_count(vis_b),
        ensures
            forall|i: int| 0 <= i < self.n() && vis1[i] ==> #[trigger] vis_a[i],
            self.dfs_acc(v as int, vis_in, was, old_new + sub, vis_a),
    {
        let new = old_new + sub;
        assert forall|j: int| 0 <= j < new.len() implies vis_a[#[trigger] new[j] as int] by {
            if j < old_new.len() {
                assert(new[j] == old_new[j]);
                assert(vis_b[old_new[j] as int]);
            } else {
                assert(new[j] == sub[j - old_new.len()]);
                if j - old_new.len() == 0 {
                } else {
                    let kk = j - old_new.len();
                    assert(sub.contains(sub[kk]));
                }
            }
        }
        assert forall|j: int| 1 <= j < new.len() implies !vis_in[#[trigger] new[j] as int] by {
            if j < old_new.len() {
                assert(new[j] == old_new[j]);
            } else {
                let kk = j - old_new.len();
                assert(new[j] == sub[kk]);
                if kk >= 1 {
                    assert(!vis_b[sub[kk] as int]);
                }
                assert(!vis_b[sub[kk] as int]);
                assert(!vis1[sub[kk] as int]);
            }
        }
        assert(new.no_duplicates()) by {
            assert forall|a: int, b: int| 0 <= a < b < new.len() implies new[a] != new[b] by {
                if b >= old_new.len() && a < old_new.len() {
                    let kb = b - old_new.len();
                    assert(new[b] == sub[kb]);
                    assert(new[a] == old_new[a]);
                    assert(vis_b[old_new[a] as int]);
                    if kb >= 1 {
                        assert(!vis_b[sub[kb] as int]);
                    }
                } else if a >= old_new.len() {
                    assert(new[a] == sub[a - old_new.len()]);
                    assert(new[b] == sub[b - old_new.len()]);
                } else {
                    assert(new[a] == old_new[a]);
                    assert(new[b] == old_new[b]);
                }
            }
        }
        assert forall|i: usize|
            i < self.n() && i != v implies (#[trigger] new.contains(i) <==> (vis_a[i as int] && !vis_in[i as int])) by {
            if new.contains(i) {
                let j = choose|j: int| 0 <= j < new.len() && new[j] == i;
                if j < old_new.len() {
                    assert(old_new[j] == i);
                    assert(old_new.contains(i));
                } else {
                    assert(sub[j - old_new.len()] == i);
                    assert(sub.contains(i));
                    if i != c {
                        assert(!vis_b[i as int]);
                    }
                    assert(!vis1[i as int]);
                }
            }
            if vis_a[i as int] && !vis_in[i as int] {
                if vis_b[i as int] {
                    assert(old_new.contains(i));
                    let j = choose|j: int| 0 <= j < old_new.len() && old_new[j] == i;
                    assert(new[j] == i);
                } else {
                    if i != c {
                        assert(sub.contains(i));
                    } else {
                        assert(sub[0] == c);
                    }
                    let j = choose|j: int| 0 <= j < sub.len() && sub[j] == i;
                    assert(new[old_new.len() + j] == i);
                }
            }
        }
        assert forall|j: int, w: int|
            1 <= j < new.len() && 0 <= w < self.n() && #[trigger] self.edge(new[j] as int, w) implies vis_a[w] by {
            if j < old_new.len() {
                assert(new[j] == old_new[j]);
                assert(self.edge(old_new[j] as int, w));
                assert(vis_b[w]);
            } else {
                assert(new[j] == sub[j - old_new.len()]);
                assert(self.edge(sub[j - old_new.len()] as int, w));
            }
        }
        assert forall|j: int| 0 <= j < new.len() implies self.reaches(v as int, #[trigger] new[j] as int) by {
            if j < old_new.len() {
                assert(new[j] == old_new[j]);
            } else {
                let kk = j - old_new.len();
                assert(new[j] == sub[kk]);
                assert(self.reaches(c as int, sub[kk] as int));
                self.lemma_reach_prepend(v as int, c as int, sub[kk] as int);
            }
        }
        assert forall|i: int| 0 <= i < self.n() && vis1[i] implies #[trigger] vis_a[i] by {
            assert(vis_b[i]);
        }
    }

    /// An edge in front of a path from `c` gives a path from `v`.
    proof fn lemma_reach_prepend(&self, v: int, c: int, x: int)
        requires
            0 <= v < self.n(),
            self.edge(v, c),
            self.reaches(c, x),
        ensures
            self.reaches(v, x),
    {
        let p = choose|p: Seq<int>| #[trigger] self.is_path(p) && p[0] == c && p.last() == x;
        let q = seq![v] + p;
        assert forall|k: int| 0 <= k < q.len() - 1 implies #[trigger] self.edge(q[k], q[k + 1]) by {
            if k > 0 {
                assert(q[k] == p[k - 1] && q[k + 1] == p[(k - 1) + 1]);
            }
        }
        assert forall|k: int| 0 <= k < q.len() implies 0 <= #[trigger] q[k] < self.n() by {
            if k > 0 {
                assert(q[k] == p[k - 1]);
            }
        }
        assert(self.is_path(q));
        assert(q.last() == p.last());
    }

    /// Depth-first order of the vertices reachable from `starting_index`.
    pub fn dfs_order(&self, starting_index: usize) -> (o: Vec<usize>)
        requires
            self.built(),
            starting_index < self.n(),
        ensures
            self.is_traversal(starting_index as int, o@),
            o@ == self.dfs_spec(starting_index as int),
    {
        let n = self.vertices.len();
        let mut visited = false_row(n);
        let mut order: Vec<usize> = Vec::new();
        proof {
            lemma_all_unvisited(n as nat);
            assert(visited@ =~= no_marks(n as nat));
        }
        self.dfs_visit(starting_index, &mut order, &mut visited, Ghost((n + 1) as nat));
        proof {
            assert(order@.skip(0) =~= order@);
            self.lemma_dfs_spec_traversal(starting_index as int);
        }
        order
    }

    /// Appends the labels of the vertices in `o` to `result`.
    fn push_labels(&self, o: &Vec<usize>, result: &mut Vec<String>)
        requires
            self.wf(),
            indexes_into(o@, self.n()),
        ensures
            final(result)@.map_values(|x: String| x@) == old(result)@.map_values(|x: String| x@)
                + self.labels_of(o@),
    {
        let ghost start = old(result)@.map_values(|x: String| x@);
        let mut k: usize = 0;
        while k < o.len()
            invariant
                self.wf(),
                indexes_into(o@, self.n()),
                k <= o@.len(),
                result@.map_values(|x: String| x@) == start + self.labels_of(o@.subrange(0, k as int)),
            decreases o@.len() - k,
        {
            let label = self.vertices[o[k]].clone();
            let ghost before = result@;
            result.push(label);
            assert(result@.map_values(|x: String| x@) =~= before.map_values(|x: String| x@).push(label@));
            assert(self.labels_of(o@.subrange(0, k + 1)) =~= self.labels_of(o@.subrange(0, k as int)).push(
                label@,
            ));
            k = k + 1;
        }
        assert(o@.subrange(0, k as int) =~= o@);
    }

    /// Breadth-first traversal from `starting_index`, as labels.
    pub fn bfs(&self, starting_index: usize) -> (r: Vec<String>)
        requires
            self.built(),
            starting_index < self.n(),
        ensures
            r@.map_values(|x: String| x@) == self.labels_of(self.bfs_spec(starting_index as int)),
            self.is_traversal(starting_index as int, self.bfs_spec(starting_index as int)),
    {
        let o = self.bfs_order(starting_index);
        let mut r: Vec<String> = Vec::new();
        self.push_labels(&o, &mut r);
        assert(r@.map_values(|x: String| x@) =~= self.labels_of(o@));
        r
    }

    /// Depth-first visit of `previous_index` with the marks in `visited`:
    /// appends to `result` the labels of the vertices it lists.
    pub fn dfs(&self, previous_index: usize, result: &mut Vec<String>, visited: &mut Vec<bool>)
        requires
            self.built(),
            previous_index < self.n(),
            old(visited)@.len() == self.n(),
        ensures
            ({
                let run = self.dfs_run(previous_index as int, old(visited)@, self.n() + 1);
                &&& final(result)@.map_values(|x: String| x@) == old(result)@.map_values(|x: String| x@)
                    + self.labels_of(run.0)
                &&& final(visited)@ == run.1
                &&& self.dfs_segment(previous_index as int, old(visited)@, run.1, run.0)
            }),
    {
        let mut order: Vec<usize> = Vec::new();
        proof {
            lemma_count_bound(visited@, previous_index as int);
        }
        self.dfs_visit(previous_index, &mut order, visited, Ghost((self.n() + 1) as nat));
        assert(order@.skip(0) =~= order@);
        proof {
            self.lemma_dfs_run_segment(previous_index as int, old(visited)@, self.n() + 1);
        }
        self.push_labels(&order, result);
    }

    /// Depth-first traversal from `starting_index`, as labels.
    pub fn dfs_labels(&self, starting_index: usize) -> (r: Vec<String>)
        requires
            self.built(),
            starting_index < self.n(),
        ensures
            r@.map_values(|x: String| x@) == self.labels_of(self.dfs_spec(starting_index as int)),
            self.is_traversal(starting_index as int, self.dfs_spec(starting_index as int)),
    {
        let o = self.dfs_order(starting_index);
        let mut r: Vec<String> = Vec::new();
        self.push_labels(&o, &mut r);
        assert(r@.map_values(|x: String| x@) =~= self.labels_of(o@));
        r
    }

    /// Breadth-first traversal from the first vertex labelled `start`.
    pub fn bfs_from(&self, start: &str) -> (r: Result<Vec<String>, TraversalError>)
        requires
            self.built(),
        ensures
            r is Err <==> !self.labels().contains(start@),
            r == Err::<Vec<String>, TraversalError>(TraversalError::VertexNotFound) <==> r is Err,
            r is Ok ==> exists|s: int|
                is_first_occurrence(self.labels(), s) && self.labels()[s] == start@
                    && r->Ok_0@.map_values(|x: String| x@) == self.labels_of(self.bfs_spec(s)),
    {
        match self.find_vertex_idx(start) {
            Some(s) => Ok(self.bfs(s)),
            None => Err(TraversalError::VertexNotFound),
        }
    }

    /// Depth-first traversal from the first vertex labelled `start`.
    pub fn dfs_from(&self, start: &str) -> (r: Result<Vec<String>, TraversalError>)
        requires
            self.built(),
        ensures
            r is Err <==> !self.labels().contains(start@),
            r == Err::<Vec<String>, TraversalError>(TraversalError::VertexNotFound) <==> r is Err,
            r is Ok ==> exists|s: int|
                is_first_occurrence(self.labels(), s) && self.labels()[s] == start@
                    && r->Ok_0@.map_values(|x: String| x@) == self.labels_of(self.dfs_spec(s)),
    {
        match self.find_vertex_idx(start) {
            Some(s) => Ok(self.dfs_labels(s)),
            None => Err(TraversalError::VertexNotFound),
        }
    }

    /// The vertices reachable from `s`.
    pub open spec fn reachable_set(&self, s: int) -> Set<usize> {
        Set::new(|v: usize| v < self.n() && self.reaches(s, v as int))
    }

    /// Two traversals from one start, such as the breadth-first and the
    /// depth-first one, list as many vertices as are reachable, begin with the
    /// start, and list the same vertices and labels, possibly in another order.
    pub proof fn lemma_traversals_agree(&self, s: usize, b: Seq<usize>, d: Seq<usize>)
        requires
            self.built(),
            s < self.n(),
            self.is_traversal(s as int, b),
            self.is_traversal(s as int, d),
        ensures
            b.len() == d.len(),
            b.len() == self.reachable_set(s as int).len(),
            b[0] == d[0],
            b[0] == s,
            self.labels_of(b)[0] == self.labels()[s as int],
            self.labels_of(d)[0] == self.labels()[s as int],
            b.to_set() == d.to_set(),
            b.to_set() == self.reachable_set(s as int),
            self.labels_of(b).to_set() == self.labels_of(d).to_set(),
    {
        assert forall|v: usize| #[trigger] b.to_set().contains(v) <==> self.reachable_set(s as int).contains(v) by {
            if b.contains(v) {
                let k = choose|k: int| 0 <= k < b.len() && b[k] == v;
                assert(b[k] < self.n());
            }
        }
        assert forall|v: usize| #[trigger] d.to_set().contains(v) <==> self.reachable_set(s as int).contains(v) by {
            if d.contains(v) {
                let k = choose|k: int| 0 <= k < d.len() && d[k] == v;
                assert(d[k] < self.n());
            }
        }
        assert(b.to_set() =~= self.reachable_set(s as int));
        assert(d.to_set() =~= self.reachable_set(s as int));
        b.unique_seq_to_set();
        d.unique_seq_to_set();
        let lb = self.labels_of(b);
        let ld = self.labels_of(d);
        assert forall|x: Seq<char>| #[trigger] lb.to_set().contains(x) <==> ld.to_set().contains(x) by {
            if lb.contains(x) {
                let k = choose|k: int| 0 <= k < lb.len() && lb[k] == x;
                assert(b.to_set().contains(b[k]));
                assert(d.contains(b[k]));
                let j = choose|j: int| 0 <= j < d.len() && d[j] == b[k];
                assert(ld[j] == x);
            }
            if ld.contains(x) {
                let k = choose|k: int| 0 <= k < ld.len() && ld[k] == x;
                assert(d.to_set().contains(d[k]));
                assert(b.contains(d[k]));
                let j = choose|j: int| 0 <= j < b.len() && b[j] == d[k];
                assert(lb[j] == x);
            }
        }
        assert(lb.to_set() =~= ld.to_set());
    }

    /// What `fresh_upto` lists: no repeats, indices below `i`, exactly the
    /// unmarked neighbours of `u` below `i`.
    proof fn lemma_fresh_upto(&self, u: int, vis: Seq<bool>, i: nat)
        requires
            i <= self.n(),
            self.n() <= usize::MAX,
        ensures
            self.fresh_upto(u, vis, i).no_duplicates(),
            forall|k: int| 0 <= k < self.fresh_upto(u, vis, i).len() ==> #[trigger] self.fresh_upto(u, vis, i)[k] < i,
            forall|x: usize|
                x < i ==> (#[trigger] self.fresh_upto(u, vis, i).contains(x) <==> (self.edge(u, x as int)
                    && !vis[x as int])),
            forall|x: usize| #[trigger] self.fresh_upto(u, vis, i).contains(x) ==> x < i,
        decreases i,
    {
        if i > 0 {
            self.lemma_fresh_upto(u, vis, (i - 1) as nat);
            let p = self.fresh_upto(u, vis, (i - 1) as nat);
            let f = self.fresh_upto(u, vis, i);
            if self.edge(u, i - 1) && !vis[i - 1] {
                assert(f == p.push((i - 1) as usize));
                assert forall|x: usize| #[trigger] f.contains(x) implies x < i by {
                    let k = choose|k: int| 0 <= k < f.len() && f[k] == x;
                    if k < p.len() {
                        assert(p[k] == x);
                    }
                }
                assert forall|x: usize| x < i implies (#[trigger] f.contains(x) <==> (self.edge(u, x as int)
                    && !vis[x as int])) by {
                    if x < i - 1 {
                        if f.contains(x) {
                            let k = choose|k: int| 0 <= k < f.len() && f[k] == x;
                            if k < p.len() {
                                assert(p[k] == x);
                                assert(p.contains(x));
                            }
                        }
                        if p.contains(x) {
                            let k = choose|k: int| 0 <= k < p.len() && p[k] == x;
                            assert(f[k] == x);
                        }
                    } else {
                        assert(f[p.len() as int] == x);
                    }
                }
                assert forall|a: int, b: int| 0 <= a < b < f.len() implies f[a] != f[b] by {
                    assert(f[a] == p[a]);
                    if b == p.len() {
                        assert(f[b] == (i - 1) as usize);
                        assert(p[a] < i - 1);
                    } else {
                        assert(f[b] == p[b]);
                    }
                }
            } else {
                assert(f == p);
                assert forall|x: usize| x < i implies (#[trigger] f.contains(x) <==> (self.edge(u, x as int)
                    && !vis[x as int])) by {
                    if x == i - 1 && p.contains(x) {
                        let k = choose|k: int| 0 <= k < p.len() && p[k] == x;
                        assert(p[k] < i - 1);
                    }
                }
            }
        }
    }

    /// The siblings of `u`: indices in range, no repeats, exactly the
    /// unmarked neighbours of `u`.
    pub proof fn lemma_next_siblings(&self, u: int, vis: Seq<bool>)
        requires
            self.wf(),
        ensures
            indexes_into(self.next_siblings(u, vis), self.n()),
            self.next_siblings(u, vis).no_duplicates(),
            forall|x: usize|
                x < self.n() ==> (#[trigger] self.next_siblings(u, vis).contains(x) <==> (self.edge(u, x as int)
                    && !vis[x as int])),
    {
        let f = self.fresh_upto(u, vis, self.n());
        self.lemma_fresh_upto(u, vis, self.n());
        lemma_sort_same_entries(self.labels(), f, self.n());
    }

    /// The facts that hold at each dequeue of a breadth-first run from `s`:
    /// `order` lists the marked vertices, its first `head` are done.
    pub open spec fn bfs_state(&self, s: int, order: Seq<usize>, head: int, vis: Seq<bool>) -> bool {
        &&& vis.len() == self.n()
        &&& 0 <= head <= order.len()
        &&& order.len() >= 1
        &&& order[0] == s
        &&& order.no_duplicates()
        &&& indexes_into(order, self.n())
        &&& forall|i: usize| i < self.n() ==> (#[trigger] vis[i as int] <==> order.contains(i))
        &&& forall|k: int, w: int|
            0 <= k < head && 0 <= w < self.n() && #[trigger] self.edge(order[k] as int, w) ==> vis[w]
        &&& forall|k: int| 0 <= k < order.len() ==> self.reaches(s, #[trigger] order[k] as int)
        &&& unvisited_count(vis) + order.len() == self.n()
    }

    /// Marking distinct unmarked entries lowers the count by their number.
    proof fn lemma_mark_all_count(vis: Seq<bool>, c: Seq<usize>)
        requires
            c.no_duplicates(),
            vis.len() <= usize::MAX,
            indexes_into(c, vis.len()),
            forall|k: int| 0 <= k < c.len() ==> !vis[#[trigger] c[k] as int],
        ensures
            unvisited_count(mark_all(vis, c)) + c.len() == unvisited_count(vis),
        decreases c.len(),
    {
        if c.len() == 0 {
            assert(mark_all(vis, c) =~= vis);
        } else {
            let d = c.drop_last();
            let x = c.last();
            Self::lemma_mark_all_count(vis, d);
            assert(!d.contains(x)) by {
                if d.contains(x) {
                    let k = choose|k: int| 0 <= k < d.len() && d[k] == x;
                    assert(c[k] == c[c.len() - 1]);
                }
            }
            assert(!vis[x as int]) by {
                assert(c[c.len() - 1] == x);
            }
            lemma_mark_one(mark_all(vis, d), x as int);
            assert(mark_all(vis, c) =~= mark_all(vis, d).update(x as int, true)) by {
                assert forall|i: int| 0 <= i < vis.len() implies mark_all(vis, c)[i] == mark_all(vis, d).update(
                    x as int,
                    true,
                )[i] by {
                    let iu = i as usize;
                    if d.contains(iu) {
                        let k = choose|k: int| 0 <= k < d.len() && d[k] == iu;
                        assert(c[k] == iu);
                    }
                    if c.contains(iu) && iu != x {
                        let k = choose|k: int| 0 <= k < c.len() && c[k] == iu;
                        assert(d[k] == iu);
                    }
                    if iu == x {
                        assert(c[c.len() - 1] == x);
                    }
                }
            }
        }
    }

    /// A breadth-first run from a state of `bfs_state` finishes as a traversal.
    proof fn lemma_bfs_run_traversal(&self, s: int, order: Seq<usize>, head: int, vis: Seq<bool>)
        requires
            self.built(),
            0 <= s < self.n(),
            self.bfs_state(s, order, head, vis),
        ensures
            self.is_traversal(
                s,
                order.subrange(0, head) + self.bfs_run(order.skip(head), vis, (self.n() - head) as nat),
            ),
        decreases self.n() - head,
    {
        let n = self.n();
        if head == order.len() {
            assert(order.skip(head) =~= Seq::<usize>::empty());
            assert(order.subrange(0, head) + self.bfs_run(order.skip(head), vis, (n - head) as nat) =~= order);
            self.lemma_closed_has_reachable(s, order, vis);
        } else {
            let u = order[head];
            let c = self.next_siblings(u as int, vis);
            let order2 = order + c;
            let vis2 = mark_all(vis, c);
            self.lemma_bfs_step(s, order, head, vis);
            self.lemma_bfs_run_traversal(s, order2, head + 1, vis2);
            self.lemma_bfs_run_unfold(s, order, head, vis);
        }
    }

    /// One dequeue of a breadth-first run: the state after it is again a
    /// state of `bfs_state`.
    proof fn lemma_bfs_step(&self, s: int, order: Seq<usize>, head: int, vis: Seq<bool>)
        requires
            self.built(),
            0 <= s < self.n(),
            self.bfs_state(s, order, head, vis),
            head < order.len(),
        ensures
            self.bfs_state(
                s,
                order + self.next_siblings(order[head] as int, vis),
                head + 1,
                mark_all(vis, self.next_siblings(order[head] as int, vis)),
            ),
    {
        let n = self.n();
            let u = order[head];
            let c = self.next_siblings(u as int, vis);
            self.lemma_next_siblings(u as int, vis);
            let order2 = order + c;
            let vis2 = mark_all(vis, c);
            assert(order.len() <= n);
            assert forall|k: int| 0 <= k < c.len() implies !vis[#[trigger] c[k] as int] by {
                assert(c.contains(c[k]));
            }
            Self::lemma_mark_all_count(vis, c);
            assert(order2.no_duplicates()) by {
                assert forall|a: int, b: int| 0 <= a < b < order2.len() implies order2[a] != order2[b] by {
                    if a < order.len() && b >= order.len() {
                        assert(order2[a] == order[a]);
                        assert(order.contains(order[a]));
                        assert(order2[b] == c[b - order.len()]);
                    } else if a >= order.len() {
                        assert(order2[a] == c[a - order.len()]);
                        assert(order2[b] == c[b - order.len()]);
                    } else {
                        assert(order2[a] == order[a] && order2[b] == order[b]);
                    }
                }
            }
            assert forall|i: usize| i < n implies (#[trigger] vis2[i as int] <==> order2.contains(i)) by {
                if order2.contains(i) {
                    let w = choose|w: int| 0 <= w < order2.len() && order2[w] == i;
                    if w < order.len() {
                        assert(order[w] == i);
                    } else {
                        assert(c[w - order.len()] == i);
                    }
                }
                if c.contains(i) {
                    let w = choose|w: int| 0 <= w < c.len() && c[w] == i;
                    assert(order2[order.len() + w] == i);
                }
                if vis[i as int] {
                    let w = choose|w: int| 0 <= w < order.len() && order[w] == i;
                    assert(order2[w] == i);
                }
            }
            assert forall|k: int, w: int|
                0 <= k < head + 1 && 0 <= w < n && #[trigger] self.edge(order2[k] as int, w) implies vis2[w] by {
                assert(order2[k] == order[k]);
                if k == head && !vis[w] {
                    assert(c.contains(w as usize));
                }
            }
            assert forall|k: int| 0 <= k < order2.len() implies self.reaches(s, #[trigger] order2[k] as int) by {
                if k < order.len() {
                    assert(order2[k] == order[k]);
                } else {
                    assert(order2[k] == c[k - order.len()]);
                    assert(c.contains(c[k - order.len()]));
                    assert(self.reaches(s, order[head] as int));
                    self.lemma_reach_step(s, u as int, c[k - order.len()] as int);
                }
            }
            assert(indexes_into(order2, n));
            assert(self.bfs_state(s, order2, head + 1, vis2));
    }

    /// One dequeue of a breadth-first run, on the listed result.
    proof fn lemma_bfs_run_unfold(&self, s: int, order: Seq<usize>, head: int, vis: Seq<bool>)
        requires
            self.built(),
            self.bfs_state(s, order, head, vis),
            head < order.len(),
        ensures
            ({
                let c = self.next_siblings(order[head] as int, vis);
                order.subrange(0, head) + self.bfs_run(order.skip(head), vis, (self.n() - head) as nat)
                    == (order + c).subrange(0, head + 1) + self.bfs_run(
                    (order + c).skip(head + 1),
                    mark_all(vis, c),
                    (self.n() - (head + 1)) as nat,
                )
            }),
    {
        let n = self.n();
        let u = order[head];
        let c = self.next_siblings(u as int, vis);
        let order2 = order + c;
        let vis2 = mark_all(vis, c);
        assert(order.len() <= n);
        assert(order.skip(head).drop_first() + c =~= order2.skip(head + 1));
        assert(order2.subrange(0, head + 1) =~= order.subrange(0, head) + seq![u]);
        assert(order.skip(head)[0] == u);
        assert(order.subrange(0, head) + self.bfs_run(order.skip(head), vis, (n - head) as nat)
            =~= order2.subrange(0, head + 1) + self.bfs_run(order2.skip(head + 1), vis2, (n - (head + 1)) as nat));
    }

    /// The breadth-first order lists each vertex reachable from `s` once,
    /// starting with `s`.
    pub proof fn lemma_bfs_spec_traversal(&self, s: int)
        requires
            self.built(),
            0 <= s < self.n(),
        ensures
            self.is_traversal(s, self.bfs_spec(s)),
    {
        let n = self.n();
        let order = seq![s as usize];
        let vis = only_marked(n, s);
        lemma_all_unvisited(n);
        lemma_mark_one(no_marks(n), s);
        assert(no_marks(n).update(s, true) =~= vis);
        assert(Seq::new(n, |j: int| false) =~= no_marks(n));
        assert forall|i: usize| i < n implies (#[trigger] vis[i as int] <==> order.contains(i)) by {
            if i == s {
                assert(order[0] == i);
            }
        }
        let p = seq![s];
        assert(self.is_path(p));
        assert(self.bfs_state(s, order, 0, vis));
        self.lemma_bfs_run_traversal(s, order, 0, vis);
        assert(order.skip(0) =~= order);
        assert(order.subrange(0, 0) + self.bfs_run(order, vis, n) =~= self.bfs_spec(s));
    }

    /// The facts that hold part way through the depth-first visit of `v`
    /// begun with marks `vis_in`: `acc` lists `v` and the vertices marked since,
    /// `vis` are the marks now, and all but `v` are closed under edges.
    pub open spec fn dfs_acc(&self, v: int, vis_in: Seq<bool>, was: nat, acc: Seq<usize>, vis: Seq<bool>) -> bool {
        &&& acc.len() >= 1
        &&& acc[0] == v
        &&& acc.no_duplicates()
        &&& indexes_into(acc, self.n())
        &&& forall|j: int| 0 <= j < acc.len() ==> vis[#[trigger] acc[j] as int]
        &&& forall|j: int| 1 <= j < acc.len() ==> !vis_in[#[trigger] acc[j] as int]
        &&& forall|i: usize|
            i < self.n() && i != v ==> (#[trigger] acc.contains(i) <==> (vis[i as int] && !vis_in[i as int]))
        &&& forall|j: int, w: int|
            1 <= j < acc.len() && 0 <= w < self.n() && #[trigger] self.edge(acc[j] as int, w) ==> vis[w]
        &&& forall|j: int| 0 <= j < acc.len() ==> self.reaches(v, #[trigger] acc[j] as int)
        &&& unvisited_count(vis) + acc.len() == unvisited_count(vis_in) + was
    }

    /// A depth-first visit with enough fuel lists what `dfs_segment` says
    /// and lowers the unmarked count by the number it newly marks.
    proof fn lemma_dfs_run_segment(&self, v: int, vis: Seq<bool>, fuel: nat)
        requires
            self.built(),
            0 <= v < self.n(),
            vis.len() == self.n(),
            fuel > unvisited_count(vis) + if vis[v] { 1nat } else { 0nat },
        ensures
            self.dfs_segment(v, vis, self.dfs_run(v, vis, fuel).1, self.dfs_run(v, vis, fuel).0),
            unvisited_count(self.dfs_run(v, vis, fuel).1) + self.dfs_run(v, vis, fuel).0.len()
                == unvisited_count(vis) + if vis[v] { 1nat } else { 0nat },
        decreases fuel, 0nat,
    {
        let n = self.n();
        let was: nat = if vis[v] { 1nat } else { 0nat };
        let vis1 = vis.update(v, true);
        if !vis[v] {
            lemma_mark_one(vis, v);
        } else {
            assert(vis1 =~= vis);
        }
        let c = self.next_siblings(v, vis1);
        self.lemma_next_siblings(v, vis1);
        let acc = seq![v as usize];
        assert(self.is_path(seq![v]));
        assert forall|i: usize| i < n && i != v implies (#[trigger] acc.contains(i) <==> (vis1[i as int]
            && !vis[i as int])) by {
            if acc.contains(i) {
                assert(acc[0] == i);
            }
        }
        assert(self.dfs_acc(v, vis, was, acc, vis1));
        assert(c.skip(0) =~= c);
        self.lemma_dfs_list_acc(v, vis, was, c, 0, acc, vis1, (fuel - 1) as nat);
        let r = self.dfs_list(c, vis1, (fuel - 1) as nat);
        let new = acc + r.0;
        assert(self.dfs_run(v, vis, fuel).0 == new);
        assert(new =~= seq![v as usize] + r.0);
        assert forall|j: int, w: int|
            0 <= j < new.len() && 0 <= w < n && #[trigger] self.edge(new[j] as int, w) implies r.1[w] by {
            if j == 0 && !vis1[w] {
                assert(c.contains(w as usize));
                let jj = choose|jj: int| 0 <= jj < c.len() && c[jj] == w as usize;
                assert(r.1[c[jj] as int]);
            }
        }
        assert forall|i: int| 0 <= i < vis.len() && vis[i] implies #[trigger] r.1[i] by {
            assert(vis1[i]);
        }
        assert(r.1[v]) by {
            assert(vis1[v]);
        }
    }

    /// Depth-first visits of the candidates from position `k` on keep the
    /// facts of `dfs_acc`, and leave every candidate marked.
    proof fn lemma_dfs_list_acc(
        &self,
        v: int,
        vis_in: Seq<bool>,
        was: nat,
        cands: Seq<usize>,
        k: int,
        acc: Seq<usize>,
        vis: Seq<bool>,
        fuel: nat,
    )
        requires
            self.built(),
            0 <= v < self.n(),
            vis_in.len() == self.n(),
            was == (if vis_in[v] { 1nat } else { 0nat }),
            fuel + 1 > unvisited_count(vis_in) + was,
            cands == self.next_siblings(v, vis_in.update(v, true)),
            0 <= k <= cands.len(),
            vis.len() == self.n(),
            forall|j: int| 0 <= j < k ==> vis[#[trigger] cands[j] as int],
            forall|i: int| 0 <= i < self.n() && vis_in.update(v, true)[i] ==> #[trigger] vis[i],
            self.dfs_acc(v, vis_in, was, acc, vis),
        ensures
            ({
                let r = self.dfs_list(cands.skip(k), vis, fuel);
                &&& self.dfs_acc(v, vis_in, was, acc + r.0, r.1)
                &&& r.1.len() == self.n()
                &&& forall|j: int| 0 <= j < cands.len() ==> r.1[#[trigger] cands[j] as int]
                &&& forall|i: int| 0 <= i < self.n() && vis_in.update(v, true)[i] ==> #[trigger] r.1[i]
            }),
        decreases fuel, cands.len() - k + 1,
    {
        let n = self.n();
        let vis1 = vis_in.update(v, true);
        self.lemma_next_siblings(v, vis1);
        let rest = cands.skip(k);
        if k == cands.len() {
            assert(rest =~= Seq::<usize>::empty());
            assert(acc + Seq::<usize>::empty() =~= acc);
        } else {
            let c = cands[k];
            assert(rest[0] == c);
            assert(rest.drop_first() =~= cands.skip(k + 1));
            if vis[c as int] {
                self.lemma_dfs_list_acc(v, vis_in, was, cands, k + 1, acc, vis, fuel);
            } else {
                assert(cands.contains(c));
                assert(self.edge(v, c as int));
                assert(unvisited_count(vis) < fuel);
                self.lemma_dfs_run_segment(c as int, vis, fuel);
                let a = self.dfs_run(c as int, vis, fuel);
                let ord_a = acc + a.0;
                self.lemma_dfs_compose(v as usize, c, vis_in, vis1, vis, a.1, acc, a.0, was);
                assert(self.dfs_acc(v, vis_in, was, ord_a, a.1));
                assert forall|j: int| 0 <= j < k + 1 implies a.1[#[trigger] cands[j] as int] by {
                    if j < k {
                        assert(vis[cands[j] as int]);
                    }
                }
                self.lemma_dfs_list_acc(v, vis_in, was, cands, k + 1, ord_a, a.1, fuel);
                let b = self.dfs_list(cands.skip(k + 1), a.1, fuel);
                assert(acc + (a.0 + b.0) =~= ord_a + b.0);
            }
        }
    }

    /// The depth-first order lists each vertex reachable from `s` once,
    /// starting with `s`.
    pub proof fn lemma_dfs_spec_traversal(&self, s: int)
        requires
            self.built(),
            0 <= s < self.n(),
        ensures
            self.is_traversal(s, self.dfs_spec(s)),
    {
        let n = self.n();
        let vis = no_marks(n);
        lemma_all_unvisited(n);
        assert(Seq::new(n, |j: int| false) =~= vis);
        self.lemma_dfs_run_segment(s, vis, n + 1);
        let run = self.dfs_run(s, vis, n + 1);
        let o = run.0;
        assert forall|i: usize| i < n implies (#[trigger] run.1[i as int] <==> o.contains(i)) by {
            if i == s {
                assert(o[0] == i);
            }
        }
        self.lemma_closed_has_reachable(s, o, run.1);
    }

    /// Breadth-first and depth-first traversal from one start list as many
    /// vertices as are reachable from it, begin with the start's label, and
    /// list the same vertices and labels, in general in another order.
    pub proof fn lemma_bfs_dfs_agree(&self, s: int)
        requires
            self.built(),
            0 <= s < self.n(),
        ensures
            self.bfs_spec(s).len() == self.dfs_spec(s).len(),
            self.bfs_spec(s).len() == self.reachable_set(s).len(),
            self.labels_of(self.bfs_spec(s))[0] == self.labels()[s],
            self.labels_of(self.dfs_spec(s))[0] == self.labels()[s],
            self.bfs_spec(s).to_set() == self.dfs_spec(s).to_set(),
            self.labels_of(self.bfs_spec(s)).to_set() == self.labels_of(self.dfs_spec(s)).to_set(),
    {
        self.lemma_bfs_spec_traversal(s);
        self.lemma_dfs_spec_traversal(s);
        self.lemma_traversals_agree(s as usize, self.bfs_spec(s), self.dfs_spec(s));
    }

    /// An edge extends a reachable vertex.
    proof fn lemma_reach_step(&self, s: int, u: int, w: int)
        requires
            self.reaches(s, u),
            0 <= w < self.n(),
            self.edge(u, w),
        ensures
            self.reaches(s, w),
    {
        let p = choose|p: Seq<int>| #[trigger] self.is_path(p) && p[0] == s && p.last() == u;
        let q = p.push(w);
        assert forall|k: int| 0 <= k < q.len() - 1 implies #[trigger] self.edge(q[k], q[k + 1]) by {
            if k < p.len() - 1 {
                assert(q[k] == p[k] && q[k + 1] == p[k + 1]);
            }
        }
        assert(self.is_path(q));
    }

    /// When every listed vertex has all its neighbours marked, and the marks
    /// are the listed vertices, everything reachable from the first is listed.
    proof fn lemma_closed_has_reachable(&self, s: int, o: Seq<usize>, visited: Seq<bool>)
        requires
            self.built(),
            o.len() >= 1,
            o[0] == s,
            visited.len() == self.n(),
            indexes_into(o, self.n()),
            forall|i: usize| i < self.n() ==> (#[trigger] visited[i as int] <==> o.contains(i)),
            forall|k: int, w: int|
                0 <= k < o.len() && 0 <= w < self.n() && #[trigger] self.edge(o[k] as int, w)
                    ==> visited[w],
        ensures
            forall|v: usize| v < self.n() && self.reaches(s, v as int) ==> #[trigger] o.contains(v),
    {
        assert forall|v: usize| v < self.n() && self.reaches(s, v as int) implies #[trigger] o.contains(v) by {
            let p = choose|p: Seq<int>| #[trigger] self.is_path(p) && p[0] == s && p.last() == v as int;
            self.lemma_path_stays(s, o, visited, p, p.len() - 1);
        }
    }

    /// Induction along a path: each of its vertices is marked.
    proof fn lemma_path_stays(&self, s: int, o: Seq<usize>, visited: Seq<bool>, p: Seq<int>, m: int)
        requires
            self.built(),
            o.len() >= 1,
            o[0] == s,
            visited.len() == self.n(),
            indexes_into(o, self.n()),
            forall|i: usize| i < self.n() ==> (#[trigger] visited[i as int] <==> o.contains(i)),
            forall|k: int, w: int|
                0 <= k < o.len() && 0 <= w < self.n() && #[trigger] self.edge(o[k] as int, w)
                    ==> visited[w],
            self.is_path(p),
            p[0] == s,
            0 <= m < p.len(),
        ensures
            o.contains(p[m] as usize),
        decreases m,
    {
        if m == 0 {
            assert(o[0] == p[0]);
        } else {
            self.lemma_path_stays(s, o, visited, p, m - 1);
            let u = p[m - 1];
            assert(self.edge(p[m - 1], p[(m - 1) + 1]));
            let k = choose|k: int| 0 <= k < o.len() && o[k] == u as usize;
            assert(0 <= p[m] < self.n());
            assert(self.edge(o[k] as int, p[m]));
            assert(visited[p[m]]);
            assert(visited[(p[m] as usize) as int]);
        }
    }
}

} // verus!
