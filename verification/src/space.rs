//! The spatial side of the scheduler: a dense view of the entanglement graph
//! that tracks which qubits are live in memory, which are measured, and the
//! peak number of simultaneously live qubits.

use vstd::prelude::*;

verus! {

/// The state of a single qubit during the execution of a schedule.
///
/// A qubit starts `Uninitialized`; it becomes `Live` when it or a neighbor is
/// first mentioned in a measurement step, and `Measured` when it appears in a
/// step itself.  Once `Measured` it never becomes `Live` again.
#[derive(Clone, Copy, Debug, PartialEq, Eq, Structural)]
pub enum NodeStatus {
    Uninitialized,
    Live,
    Measured,
}

/// The entanglement graph, as a list of neighbors for each node.
#[derive(Debug)]
pub struct SpacialGraph(pub Vec<Vec<usize>>);

impl SpacialGraph {
    /// The neighbor lists as a sequence of sequences.
    pub open spec fn view(self) -> Seq<Seq<usize>> {
        adj_view(self.0@)
    }

    /// All neighbor entries name nodes of the graph.
    pub open spec fn wf(self) -> bool {
        adj_wf(self.view())
    }

    /// The number of nodes.
    pub fn len(&self) -> (r: usize)
        ensures
            r == self.view().len(),
    {
        self.0.len()
    }

    /// Checks that every neighbor entry names a node of the graph; reports
    /// the first that does not.
    pub fn check(&self) -> (r: Result<(), usize>)
        ensures
            r is Ok <==> self.wf(),
            r matches Err(v) ==> bad_neighbor(self.view(), v),
    {
        let n = self.0.len();
        for i in 0..n
            invariant
                n == self.view().len(),
                forall|k: int| 0 <= k < i ==> nbrs_in_bounds(#[trigger] self.view()[k], n as nat),
        {
            let row = &self.0[i];
            let row_len = row.len();
            for j in 0..row_len
                invariant
                    n == self.view().len(),
                    0 <= i < n,
                    row_len == self.view()[i as int].len(),
                    row@ == self.view()[i as int],
                    forall|k: int| 0 <= k < i ==> nbrs_in_bounds(#[trigger] self.view()[k], n as nat),
                    forall|k: int| 0 <= k < j ==> self.view()[i as int][k] < n,
            {
                if row[j] >= n {
                    proof {
                        assert(self.view()[i as int][j as int] == row@[j as int]);
                        assert(bad_neighbor(self.view(), row@[j as int]));
                    }
                    return Err(row[j]);
                }
            }
            assert(nbrs_in_bounds(self.view()[i as int], n as nat));
        }
        Ok(())
    }
}

/// The neighbor lists of `edges`, viewed abstractly.
pub open spec fn adj_view(edges: Seq<Vec<usize>>) -> Seq<Seq<usize>> {
    Seq::new(edges.len(), |i: int| edges[i]@)
}

/// All entries of a single neighbor list are below `n`.
pub open spec fn nbrs_in_bounds(nbrs: Seq<usize>, n: nat) -> bool {
    forall|j: int| 0 <= j < nbrs.len() ==> nbrs[j] < n
}

/// All neighbor entries of the adjacency are below its length.
pub open spec fn adj_wf(adj: Seq<Seq<usize>>) -> bool {
    forall|i: int| 0 <= i < adj.len() ==> nbrs_in_bounds(#[trigger] adj[i], adj.len())
}

/// `v` stands in some neighbor list but is not a node of the graph.
pub open spec fn bad_neighbor(adj: Seq<Seq<usize>>, v: usize) -> bool {
    exists|i: int, j: int|
        0 <= i < adj.len() && 0 <= j < adj[i].len() && #[trigger] adj[i][j] == v && v >= adj.len()
}

/// The number of `Live` entries of a status sequence.
pub open spec fn count_live(s: Seq<NodeStatus>) -> int
    decreases s.len(),
{
    if s.len() == 0 {
        0
    } else {
        count_live(s.drop_last()) + if s.last() == NodeStatus::Live {
            1int
        } else {
            0int
        }
    }
}

/// The number of `Measured` entries of a status sequence.
pub open spec fn count_measured(s: Seq<NodeStatus>) -> int
    decreases s.len(),
{
    if s.len() == 0 {
        0
    } else {
        count_measured(s.drop_last()) + if s.last() == NodeStatus::Measured {
            1int
        } else {
            0int
        }
    }
}

/// The status of node `u` after measuring node `v` whose neighbor list is
/// `nbrs`, when only the first `j` neighbors have been initialized yet.
pub open spec fn status_after_partial(
    st: Seq<NodeStatus>,
    nbrs: Seq<usize>,
    v: int,
    j: int,
    u: int,
) -> NodeStatus {
    if u == v {
        NodeStatus::Measured
    } else if st[u] == NodeStatus::Uninitialized && nbrs.take(j).contains(u as usize) {
        NodeStatus::Live
    } else {
        st[u]
    }
}

/// The statuses after measuring node `v`, with only its first `j` neighbors
/// initialized yet.
pub open spec fn measure_partial(st: Seq<NodeStatus>, nbrs: Seq<usize>, v: int, j: int) -> Seq<
    NodeStatus,
> {
    Seq::new(st.len(), |u: int| status_after_partial(st, nbrs, v, j, u))
}

/// The statuses after measuring node `v`: `v` becomes `Measured` and every
/// `Uninitialized` neighbor of `v` becomes `Live`.
pub open spec fn measure_one(st: Seq<NodeStatus>, adj: Seq<Seq<usize>>, v: int) -> Seq<NodeStatus> {
    measure_partial(st, adj[v], v, adj[v].len() as int)
}

/// The statuses after measuring the nodes of `s` in order.
pub open spec fn measure_seq(st: Seq<NodeStatus>, adj: Seq<Seq<usize>>, s: Seq<usize>) -> Seq<
    NodeStatus,
>
    decreases s.len(),
{
    if s.len() == 0 {
        st
    } else {
        measure_seq(measure_one(st, adj, s[0] as int), adj, s.drop_first())
    }
}

/// A measurement step is addressable by the graph: each named node exists, is
/// named only once in the step, and is not measured yet.
pub open spec fn step_admissible(st: Seq<NodeStatus>, s: Seq<usize>) -> bool {
    forall|i: int|
        0 <= i < s.len() ==> #[trigger] s[i] < st.len() && st[s[i] as int] != NodeStatus::Measured
            && !s.take(i).contains(s[i])
}

pub proof fn lemma_count_live_update(s: Seq<NodeStatus>, i: int, x: NodeStatus)
    requires
        0 <= i < s.len(),
    ensures
        count_live(s.update(i, x)) == count_live(s) - (if s[i] == NodeStatus::Live {
            1int
        } else {
            0int
        }) + (if x == NodeStatus::Live {
            1int
        } else {
            0int
        }),
    decreases s.len(),
{
    if i == s.len() - 1 {
        assert(s.update(i, x).drop_last() =~= s.drop_last());
    } else {
        assert(s.update(i, x).drop_last() =~= s.drop_last().update(i, x));
        lemma_count_live_update(s.drop_last(), i, x);
    }
}

pub proof fn lemma_count_measured_update(s: Seq<NodeStatus>, i: int, x: NodeStatus)
    requires
        0 <= i < s.len(),
    ensures
        count_measured(s.update(i, x)) == count_measured(s) - (if s[i] == NodeStatus::Measured {
            1int
        } else {
            0int
        }) + (if x == NodeStatus::Measured {
            1int
        } else {
            0int
        }),
    decreases s.len(),
{
    if i == s.len() - 1 {
        assert(s.update(i, x).drop_last() =~= s.drop_last());
    } else {
        assert(s.update(i, x).drop_last() =~= s.drop_last().update(i, x));
        lemma_count_measured_update(s.drop_last(), i, x);
    }
}

/// The number of `Uninitialized` entries of a status sequence.
pub open spec fn count_uninit(s: Seq<NodeStatus>) -> int
    decreases s.len(),
{
    if s.len() == 0 {
        0
    } else {
        count_uninit(s.drop_last()) + if s.last() == NodeStatus::Uninitialized {
            1int
        } else {
            0int
        }
    }
}

pub proof fn lemma_counts_bounded(s: Seq<NodeStatus>)
    ensures
        0 <= count_live(s),
        0 <= count_measured(s),
        0 <= count_uninit(s),
        count_live(s) + count_measured(s) + count_uninit(s) == s.len(),
    decreases s.len(),
{
    if s.len() > 0 {
        lemma_counts_bounded(s.drop_last());
    }
}

/// A status sequence with an `Uninitialized` entry has a positive
/// `Uninitialized` count.
pub proof fn lemma_count_uninit_pos(s: Seq<NodeStatus>, i: int)
    requires
        0 <= i < s.len(),
        s[i] == NodeStatus::Uninitialized,
    ensures
        count_uninit(s) >= 1,
    decreases s.len(),
{
    if i < s.len() - 1 {
        lemma_count_uninit_pos(s.drop_last(), i);
    } else {
        lemma_counts_bounded(s.drop_last());
    }
}

/// The view of the spatial graph during an execution.
///
/// Pairs the immutable adjacency with the per-node statuses, the count of
/// currently live nodes and the peak of that count.
#[derive(Debug)]
pub struct Graph {
    /// Neighbor list per node; never changes after construction.
    pub edges: Vec<Vec<usize>>,
    /// Execution status per node.
    pub status: Vec<NodeStatus>,
    /// Number of nodes with status `Live`.
    pub current_memory: usize,
    /// Running maximum of `current_memory`, sampled inside each step while the
    /// measured nodes of the step still count as in memory.
    pub max_memory: usize,
}

impl Graph {
    /// The adjacency, viewed abstractly.
    pub open spec fn adj(self) -> Seq<Seq<usize>> {
        adj_view(self.edges@)
    }

    /// Structural invariant: statuses cover the nodes, neighbor entries are in
    /// bounds, `current_memory` counts the live nodes and `max_memory` never
    /// lags behind it.
    pub open spec fn wf(self) -> bool {
        &&& self.status@.len() == self.adj().len()
        &&& adj_wf(self.adj())
        &&& self.current_memory == count_live(self.status@)
        &&& self.max_memory >= self.current_memory
    }

    /// Creates the initial view of `graph`: all nodes uninitialized, no memory
    /// used yet.
    pub fn new(graph: &SpacialGraph) -> (r: Graph)
        requires
            graph.wf(),
        ensures
            r.wf(),
            r.adj() == graph.view(),
            r.status@ == Seq::new(graph.view().len(), |i: int| NodeStatus::Uninitialized),
            r.current_memory == 0,
            r.max_memory == 0,
    {
        let n = graph.0.len();
        let mut status: Vec<NodeStatus> = Vec::new();
        let mut edges: Vec<Vec<usize>> = Vec::new();
        let mut i: usize = 0;
        while i < n
            invariant
                i <= n,
                n == graph.view().len(),
                status@ =~= Seq::new(i as nat, |k: int| NodeStatus::Uninitialized),
                edges@.len() == i,
                forall|k: int| 0 <= k < i ==> edges@[k]@ == graph.view()[k],
            decreases n - i,
        {
            status.push(NodeStatus::Uninitialized);
            edges.push(clone_usize_vec(&graph.0[i]));
            i += 1;
        }
        proof {
            lemma_counts_bounded(status@);
            assert(count_live(status@) == 0) by {
                lemma_count_all_uninitialized(status@);
            }
            assert(adj_view(edges@) =~= graph.view());
        }
        Graph { edges, status, current_memory: 0, max_memory: 0 }
    }

    /// The number of nodes.
    pub fn nodes(&self) -> (r: usize)
        ensures
            r == self.adj().len(),
    {
        self.edges.len()
    }

    /// The peak number of simultaneously live nodes seen so far.
    pub fn max_memory(&self) -> (r: usize)
        ensures
            r == self.max_memory,
    {
        self.max_memory
    }

    /// The number of currently live nodes.
    pub fn current_memory(&self) -> (r: usize)
        ensures
            r == self.current_memory,
    {
        self.current_memory
    }

    /// An identical, independently owned view.
    pub fn duplicate(&self) -> (r: Graph)
        ensures
            r.edges@.len() == self.edges@.len(),
            r.adj() == self.adj(),
            r.status@ == self.status@,
            r.current_memory == self.current_memory,
            r.max_memory == self.max_memory,
    {
        let n = self.edges.len();
        let mut edges: Vec<Vec<usize>> = Vec::new();
        let mut status: Vec<NodeStatus> = Vec::new();
        let mut i: usize = 0;
        while i < n
            invariant
                i <= n,
                n == self.edges@.len(),
                edges@.len() == i,
                forall|k: int| 0 <= k < i ==> edges@[k]@ == self.adj()[k],
            decreases n - i,
        {
            edges.push(clone_usize_vec(&self.edges[i]));
            i += 1;
        }
        let m = self.status.len();
        let mut j: usize = 0;
        while j < m
            invariant
                j <= m,
                m == self.status@.len(),
                status@ =~= self.status@.take(j as int),
            decreases m - j,
        {
            status.push(self.status[j]);
            j += 1;
        }
        proof {
            assert(adj_view(edges@) =~= self.adj());
            assert(status@ =~= self.status@);
        }
        Graph {
            edges,
            status,
            current_memory: self.current_memory,
            max_memory: self.max_memory,
        }
    }

    /// Marks every node of `measure_set` as measured, making the uninitialized
    /// neighbors of each live, and updates the live count and its peak.  The
    /// caller must already have validated the step (normally through the time
    /// order); see `focus_inplace` for the validating variant.
    pub fn focus_inplace_unchecked(&mut self, measure_set: &Vec<usize>)
        requires
            old(self).wf(),
            step_admissible(old(self).status@, measure_set@),
        ensures
            final(self).wf(),
            final(self).edges@ == old(self).edges@,
            final(self).adj() == old(self).adj(),
            final(self).status@ == measure_seq(old(self).status@, old(self).adj(), measure_set@),
            final(self).current_memory == count_live(final(self).status@),
            final(self).max_memory == max_int(
                old(self).max_memory as int,
                count_live(final(self).status@) + measure_set@.len(),
            ),
    {
        let ghost orig_st = self.status@;
        let ghost adj = self.adj();
        let ghost set = measure_set@;
        let n_nodes_exec = self.status.len();
        let ghost n_nodes = self.status@.len();
        let n_set = measure_set.len();
        let mut k: usize = 0;
        proof {
            assert(n_nodes == n_nodes_exec);
            assert(set.take(0) =~= Seq::<usize>::empty());
            assert(measure_seq(orig_st, adj, set.take(0)) == orig_st);
            lemma_counts_bounded(self.status@);
        }
        while k < n_set
            invariant
                k <= n_set,
                n_set == set.len(),
                set == measure_set@,
                adj == old(self).adj(),
                adj == adj_view(self.edges@),
                adj_wf(adj),
                orig_st == old(self).status@,
                orig_st.len() == n_nodes,
                self.status@.len() == n_nodes,
                adj.len() == n_nodes,
                n_nodes <= usize::MAX,
                self.edges@ == old(self).edges@,
                self.max_memory == old(self).max_memory,
                step_admissible(orig_st, set),
                self.status@ == measure_seq(orig_st, adj, set.take(k as int)),
                self.current_memory == count_live(self.status@) + k,
                count_measured(self.status@) == count_measured(orig_st) + k,
                count_measured(orig_st) >= 0,
            decreases n_set - k,
        {
            let ghost st_k = self.status@;
            let v = measure_set[k];
            proof {
                lemma_counts_bounded(st_k);
                lemma_measure_seq_measured(orig_st, adj, set.take(k as int));
                // v is unmeasured in st_k: it is unmeasured initially and not
                // among the k nodes already measured
                assert(v == set[k as int] && !set.take(k as int).contains(set[k as int]));
                assert(st_k[v as int] != NodeStatus::Measured);
            }
            // initialize the measured node itself if needed
            if self.status[v] == NodeStatus::Uninitialized {
                proof {
                    lemma_count_uninit_pos(st_k, v as int);
                }
                self.current_memory += 1;
            }
            proof {
                lemma_count_live_update(st_k, v as int, NodeStatus::Measured);
                lemma_count_measured_update(st_k, v as int, NodeStatus::Measured);
            }
            self.status.set(v, NodeStatus::Measured);
            // after marking v, the live count plus the k + 1 processed nodes
            // is the running counter, whatever v's previous status was
            proof {
                assert(self.status@ =~= measure_partial(st_k, adj[v as int], v as int, 0));
                lemma_counts_bounded(self.status@);
            }
            let nbr_count = self.edges[v].len();
            assert(nbr_count == adj[v as int].len());
            let mut j: usize = 0;
            while j < nbr_count
                invariant
                    j <= nbr_count,
                    0 <= v < n_nodes,
                    st_k.len() == n_nodes,
                    self.status@.len() == n_nodes,
                    adj.len() == n_nodes,
                    n_nodes <= usize::MAX,
                    self.edges@ == old(self).edges@,
                    adj == adj_view(self.edges@),
                    adj_wf(adj),
                    self.max_memory == old(self).max_memory,
                    self.current_memory == count_live(self.status@) + k + 1,
                    k < n_set <= usize::MAX,
                    nbr_count == adj[v as int].len(),
                    self.status@ == measure_partial(st_k, adj[v as int], v as int, j as int),
                    count_measured(self.status@) == count_measured(st_k) + 1,
                    count_measured(st_k) == count_measured(orig_st) + k,
                    count_measured(orig_st) >= 0,
                decreases nbr_count - j,
            {
                let ghost st_j = self.status@;
                proof {
                    assert(self.edges@[v as int]@ == adj[v as int]);
                }
                let u = self.edges[v][j];
                proof {
                    assert(u == adj[v as int][j as int]);
                    assert(nbrs_in_bounds(adj[v as int], n_nodes as nat));
                    assert(u < n_nodes);
                    lemma_measure_partial_step(st_k, adj[v as int], v as int, j as int);
                }
                if self.status[u] == NodeStatus::Uninitialized {
                    proof {
                        lemma_counts_bounded(st_j);
                        lemma_count_uninit_pos(st_j, u as int);
                        lemma_count_live_update(st_j, u as int, NodeStatus::Live);
                        lemma_count_measured_update(st_j, u as int, NodeStatus::Live);
                    }
                    self.status.set(u, NodeStatus::Live);
                    self.current_memory += 1;
                    proof {
                        assert(self.status@ == st_j.update(u as int, NodeStatus::Live));
                        assert(self.status@ =~= measure_partial(
                            st_k,
                            adj[v as int],
                            v as int,
                            j as int + 1,
                        ));
                    }
                } else {
                    proof {
                        assert(self.status@ =~= measure_partial(
                            st_k,
                            adj[v as int],
                            v as int,
                            j as int + 1,
                        ));
                    }
                }
                j += 1;
            }
            proof {
                assert(adj[v as int].take(adj[v as int].len() as int) =~= adj[v as int]);
                assert(self.status@ =~= measure_one(st_k, adj, v as int));
                assert(set.take(k as int + 1) =~= set.take(k as int).push(v));
                lemma_measure_seq_push(orig_st, adj, set.take(k as int), v);
                assert(self.status@ == measure_seq(orig_st, adj, set.take(k as int + 1)));
            }
            k += 1;
        }
        proof {
            assert(set.take(n_set as int) =~= set);
            lemma_counts_bounded(self.status@);
        }
        if self.current_memory > self.max_memory {
            self.max_memory = self.current_memory;
        }
        self.current_memory -= n_set;
    }

    /// The validating variant of `focus_inplace_unchecked`: succeeds exactly
    /// when the step is admissible, and reports the first node that is named
    /// twice or already measured.  On failure the view is unchanged.
    pub fn focus_inplace(&mut self, measure_set: &Vec<usize>) -> (r: Result<(), usize>)
        requires
            old(self).wf(),
            forall|i: int| 0 <= i < measure_set@.len() ==> #[trigger] measure_set@[i] < old(self).status@.len(),
        ensures
            final(self).wf(),
            final(self).edges@ == old(self).edges@,
            r matches Ok(()) <==> step_admissible(old(self).status@, measure_set@),
            r matches Ok(()) ==> final(self).status@ == measure_seq(
                old(self).status@,
                old(self).adj(),
                measure_set@,
            ) && final(self).current_memory == count_live(final(self).status@)
                && final(self).max_memory == max_int(
                old(self).max_memory as int,
                count_live(final(self).status@) + measure_set@.len(),
            ),
            r matches Err(v) ==> *final(self) == *old(self) && exists|i: int|
                0 <= i < measure_set@.len() && measure_set@[i] == v && bad_at(
                    old(self).status@,
                    measure_set@,
                    i,
                ) && forall|h: int| 0 <= h < i ==> !bad_at(old(self).status@, measure_set@, h),
    {
        let n_set = measure_set.len();
        let mut i: usize = 0;
        while i < n_set
            invariant
                *self == *old(self),
                self.wf(),
                i <= n_set,
                n_set == measure_set@.len(),
                forall|h: int| 0 <= h < n_set ==> #[trigger] measure_set@[h] < self.status@.len(),
                forall|h: int| 0 <= h < i ==> !bad_at(self.status@, measure_set@, h),
            decreases n_set - i,
        {
            let v = measure_set[i];
            if self.status[v] == NodeStatus::Measured {
                assert(bad_at(self.status@, measure_set@, i as int));
                return Err(v);
            }
            let mut h: usize = 0;
            while h < i
                invariant
                    *self == *old(self),
                    self.wf(),
                    h <= i < n_set,
                    n_set == measure_set@.len(),
                    v == measure_set@[i as int],
                    v < self.status@.len(),
                    self.status@[v as int] != NodeStatus::Measured,
                    forall|g: int| 0 <= g < i ==> !bad_at(self.status@, measure_set@, g),
                    forall|g: int| 0 <= g < h ==> measure_set@[g] != v,
                decreases i - h,
            {
                if measure_set[h] == v {
                    proof {
                        assert(measure_set@.take(i as int)[h as int] == v);
                        assert(measure_set@.take(i as int).contains(v));
                        assert(bad_at(self.status@, measure_set@, i as int));
                    }
                    return Err(v);
                }
                h += 1;
            }
            proof {
                assert forall|g: int| 0 <= g < i implies measure_set@.take(i as int)[g] != v by {
                    assert(measure_set@.take(i as int)[g] == measure_set@[g]);
                }
                assert(!measure_set@.take(i as int).contains(v));
                assert(!bad_at(self.status@, measure_set@, i as int));
            }
            i += 1;
        }
        proof {
            assert forall|h: int| 0 <= h < n_set implies #[trigger] measure_set@[h]
                < self.status@.len() && self.status@[measure_set@[h] as int]
                != NodeStatus::Measured && !measure_set@.take(h).contains(measure_set@[h]) by {
                assert(!bad_at(self.status@, measure_set@, h));
            }
            assert(step_admissible(self.status@, measure_set@));
        }
        self.focus_inplace_unchecked(measure_set);
        Ok(())
    }

    /// As `focus_inplace`, but returns the focused view and leaves `self`
    /// untouched; this is the branching variant used by the search.
    pub fn focus(&self, measure_set: &Vec<usize>) -> (r: Result<Graph, usize>)
        requires
            self.wf(),
            forall|i: int| 0 <= i < measure_set@.len() ==> #[trigger] measure_set@[i] < self.status@.len(),
        ensures
            r matches Ok(g) ==> step_admissible(self.status@, measure_set@) && g.wf() && g.adj()
                == self.adj() && g.status@ == measure_seq(self.status@, self.adj(), measure_set@)
                && g.current_memory == count_live(g.status@) && g.max_memory == max_int(
                self.max_memory as int,
                count_live(g.status@) + measure_set@.len(),
            ),
            r matches Err(v) ==> !step_admissible(self.status@, measure_set@),
    {
        let mut g = self.duplicate();
        match g.focus_inplace(measure_set) {
            Ok(()) => Ok(g),
            Err(v) => Err(v),
        }
    }

    /// As `focus_inplace_unchecked`, but returns the focused view and leaves
    /// `self` untouched.
    pub fn focus_unchecked(&self, measure_set: &Vec<usize>) -> (r: Graph)
        requires
            self.wf(),
            step_admissible(self.status@, measure_set@),
        ensures
            r.wf(),
            r.adj() == self.adj(),
            r.status@ == measure_seq(self.status@, self.adj(), measure_set@),
            r.current_memory == count_live(r.status@),
            r.max_memory == max_int(
                self.max_memory as int,
                count_live(r.status@) + measure_set@.len(),
            ),
    {
        let mut g = self.duplicate();
        g.focus_inplace_unchecked(measure_set);
        g
    }
}

/// Index `i` of the step cannot be measured: the node is named a second time
/// or was measured before the step.
pub open spec fn bad_at(st: Seq<NodeStatus>, s: Seq<usize>, i: int) -> bool {
    st[s[i] as int] == NodeStatus::Measured || s.take(i).contains(s[i])
}

/// The larger of two integers.
pub open spec fn max_int(a: int, b: int) -> int {
    if a >= b {
        a
    } else {
        b
    }
}

/// A sequence of `Uninitialized` statuses has no live entry.
pub proof fn lemma_count_all_uninitialized(s: Seq<NodeStatus>)
    requires
        forall|i: int| 0 <= i < s.len() ==> s[i] == NodeStatus::Uninitialized,
    ensures
        count_live(s) == 0,
        count_measured(s) == 0,
    decreases s.len(),
{
    if s.len() > 0 {
        lemma_count_all_uninitialized(s.drop_last());
    }
}

/// Unrolling `measure_seq` at the back.
pub proof fn lemma_measure_seq_push(
    st: Seq<NodeStatus>,
    adj: Seq<Seq<usize>>,
    s: Seq<usize>,
    v: usize,
)
    ensures
        measure_seq(st, adj, s.push(v)) == measure_one(measure_seq(st, adj, s), adj, v as int),
    decreases s.len(),
{
    if s.len() == 0 {
        assert(s.push(v).len() == 1);
        assert(s.push(v)[0] == v);
        assert(s.push(v).drop_first() =~= Seq::<usize>::empty());
        assert(measure_seq(st, adj, s.push(v)) == measure_seq(
            measure_one(st, adj, v as int),
            adj,
            s.push(v).drop_first(),
        ));
        assert(measure_seq(measure_one(st, adj, v as int), adj, Seq::<usize>::empty())
            == measure_one(st, adj, v as int));
        assert(measure_seq(st, adj, s) == st);
    } else {
        assert(s.push(v)[0] == s[0]);
        assert(s.push(v).drop_first() =~= s.drop_first().push(v));
        let st1 = measure_one(st, adj, s[0] as int);
        lemma_measure_seq_push(st1, adj, s.drop_first(), v);
        assert(measure_seq(st, adj, s.push(v)) == measure_seq(st1, adj, s.drop_first().push(v)));
        assert(measure_seq(st, adj, s) == measure_seq(st1, adj, s.drop_first()));
    }
}

/// A node is measured after a sequence of measurements exactly when it was
/// measured before or is part of the sequence.
pub proof fn lemma_measure_seq_measured(st: Seq<NodeStatus>, adj: Seq<Seq<usize>>, s: Seq<usize>)
    requires
        forall|i: int| 0 <= i < s.len() ==> #[trigger] s[i] < st.len(),
    ensures
        measure_seq(st, adj, s).len() == st.len(),
        forall|u: usize|
            u < st.len() ==> (measure_seq(st, adj, s)[u as int] == NodeStatus::Measured <==> (
            st[u as int] == NodeStatus::Measured || s.contains(u))),
    decreases s.len(),
{
    if s.len() > 0 {
        let st1 = measure_one(st, adj, s[0] as int);
        assert(st1.len() == st.len());
        assert(forall|i: int|
            0 <= i < s.drop_first().len() ==> #[trigger] s.drop_first()[i] < st1.len());
        lemma_measure_seq_measured(st1, adj, s.drop_first());
        assert forall|u: usize| u < st.len() implies (measure_seq(st, adj, s)[u as int]
            == NodeStatus::Measured <==> (st[u as int] == NodeStatus::Measured || s.contains(
            u,
        ))) by {
            assert(measure_seq(st, adj, s) == measure_seq(st1, adj, s.drop_first()));
            assert(st1[u as int] == status_after_partial(
                st,
                adj[s[0] as int],
                s[0] as int,
                adj[s[0] as int].len() as int,
                u as int,
            ));
            if s.contains(u) {
                let w = choose|w: int| 0 <= w < s.len() && s[w] == u;
                if w == 0 {
                    assert(u as int == s[0] as int);
                    assert(st1[u as int] == NodeStatus::Measured);
                } else {
                    assert(s.drop_first()[w - 1] == u);
                    assert(s.drop_first().contains(u));
                }
            }
            if s.drop_first().contains(u) {
                let w = choose|w: int| 0 <= w < s.drop_first().len() && s.drop_first()[w] == u;
                assert(s[w + 1] == u);
                assert(s.contains(u));
            }
            if u as int == s[0] as int {
                assert(s[0] == u);
                assert(s.contains(u));
            }
        }
    }
}

/// Initializing the next neighbor either turns exactly one `Uninitialized`
/// node `Live` or changes nothing.
pub proof fn lemma_measure_partial_step(st: Seq<NodeStatus>, nbrs: Seq<usize>, v: int, j: int)
    requires
        0 <= j < nbrs.len(),
        st.len() <= usize::MAX,
        0 <= v < st.len(),
        nbrs[j] < st.len(),
    ensures
        measure_partial(st, nbrs, v, j)[nbrs[j] as int] == NodeStatus::Uninitialized
            ==> measure_partial(st, nbrs, v, j + 1) =~= measure_partial(st, nbrs, v, j).update(
            nbrs[j] as int,
            NodeStatus::Live,
        ),
        measure_partial(st, nbrs, v, j)[nbrs[j] as int] != NodeStatus::Uninitialized
            ==> measure_partial(st, nbrs, v, j + 1) =~= measure_partial(st, nbrs, v, j),
{
    let u = nbrs[j];
    assert(nbrs.take(j + 1) =~= nbrs.take(j).push(u));
    assert forall|x: usize| x < st.len() implies nbrs.take(j + 1).contains(x) == (nbrs.take(
        j,
    ).contains(x) || x == u) by {
        if nbrs.take(j + 1).contains(x) {
            let w = choose|w: int| 0 <= w < j + 1 && #[trigger] nbrs.take(j + 1)[w] == x;
            if w < j {
                assert(nbrs.take(j)[w] == x);
                assert(nbrs.take(j).contains(x));
            } else {
                assert(nbrs.take(j + 1)[j] == u);
            }
        }
        if nbrs.take(j).contains(x) {
            let w = choose|w: int| 0 <= w < j && #[trigger] nbrs.take(j)[w] == x;
            assert(nbrs.take(j + 1)[w] == x);
        }
        if x == u {
            assert(nbrs.take(j + 1)[j] == x);
        }
    }
    if measure_partial(st, nbrs, v, j)[u as int] == NodeStatus::Uninitialized {
        assert forall|x: int| 0 <= x < st.len() implies measure_partial(st, nbrs, v, j + 1)[x]
            == measure_partial(st, nbrs, v, j).update(u as int, NodeStatus::Live)[x] by {
            if x == u as int {
                assert(st[x] == NodeStatus::Uninitialized);
            } else {
                assert(x as usize != u);
            }
        }
    } else {
        assert forall|x: int| 0 <= x < st.len() implies measure_partial(st, nbrs, v, j + 1)[x]
            == measure_partial(st, nbrs, v, j)[x] by {
            if x == u as int {
            } else {
                assert(x as usize != u);
            }
        }
    }
}

/// Copies a vector of node indices.
pub fn clone_usize_vec(v: &Vec<usize>) -> (r: Vec<usize>)
    ensures
        r@ == v@,
{
    let n = v.len();
    let mut r: Vec<usize> = Vec::new();
    let mut i: usize = 0;
    while i < n
        invariant
            i <= n,
            n == v@.len(),
            r@ =~= v@.take(i as int),
        decreases n - i,
    {
        r.push(v[i]);
        i += 1;
    }
    proof {
        assert(v@.take(n as int) =~= v@);
    }
    r
}

} // verus!
