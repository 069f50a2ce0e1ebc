//! The temporal side of the scheduler: the partial order over measurements,
//! kept as a front of currently measurable nodes together with per-node
//! counters of unmet predecessors.

use vstd::prelude::*;

use crate::scheduler::InstructionError;

verus! {

/// Where a node stands relative to the partial order during an execution.
#[derive(Clone, Copy, Debug, PartialEq, Eq, Structural)]
pub enum OrderStatus {
    /// The node does not appear in the partial order; it is never measured.
    Excluded,
    /// Some predecessor of the node is not measured yet.
    Pending,
    /// All predecessors are measured, the node itself is not.
    Measurable,
    /// The node is measured.
    Measured,
}

/// The layered partial order over measurements, as handed in by the caller:
/// each layer lists pairs of a node and the predecessors that must be
/// measured before it, and every predecessor belongs to an earlier layer.
#[derive(Debug)]
pub struct PartialOrderGraph(pub Vec<Vec<(usize, Vec<usize>)>>);

impl PartialOrderGraph {
    /// The layers, viewed abstractly.
    pub open spec fn view(self) -> Seq<Seq<(usize, Vec<usize>)>> {
        Seq::new(self.0@.len(), |l: int| self.0@[l]@)
    }

    /// The number of layers.
    pub fn len(&self) -> (r: usize)
        ensures
            r == self.view().len(),
    {
        self.0.len()
    }
}

/// An error in the layered partial order handed in by the caller.
#[derive(Clone, Copy, Debug, PartialEq, Eq, Structural)]
pub enum InputError {
    /// A node or predecessor lies outside the graph, or a predecessor is not
    /// listed in an earlier layer.
    MissingInput(usize),
    /// A node is listed twice, or a predecessor repeats within one list.
    DuplicateNode(usize),
}

/// The node of entry `i` of layer `l`.
pub open spec fn node_at(order: Seq<Seq<(usize, Vec<usize>)>>, l: int, i: int) -> usize {
    order[l][i].0
}

/// The predecessor list of entry `i` of layer `l`.
pub open spec fn deps_at(order: Seq<Seq<(usize, Vec<usize>)>>, l: int, i: int) -> Seq<usize> {
    order[l][i].1@
}

/// `x` is the node of an entry lexicographically before `(l, i)`: in an
/// earlier layer, or earlier within layer `l`.
pub open spec fn mentioned_before(
    order: Seq<Seq<(usize, Vec<usize>)>>,
    l: int,
    i: int,
    x: usize,
) -> bool {
    exists|l2: int, i2: int|
        ((0 <= l2 < l && 0 <= i2 < order[l2].len()) || (l2 == l && 0 <= i2 < i)) && #[trigger] node_at(
            order,
            l2,
            i2,
        ) == x
}

/// Entry `(l, i)` is well-formed: its node exists and is fresh, and each of
/// its predecessors exists, appears in an earlier layer, and is not repeated.
pub open spec fn entry_valid(order: Seq<Seq<(usize, Vec<usize>)>>, n: nat, l: int, i: int) -> bool {
    &&& node_at(order, l, i) < n
    &&& !mentioned_before(order, l, i, node_at(order, l, i))
    &&& forall|k: int|
        0 <= k < deps_at(order, l, i).len() ==> (#[trigger] deps_at(order, l, i)[k]) < n
            && mentioned_before(order, l, 0, deps_at(order, l, i)[k]) && !deps_at(
            order,
            l,
            i,
        ).take(k).contains(deps_at(order, l, i)[k])
}

/// The whole layered order is well-formed over `n` nodes.
pub open spec fn valid_order(order: Seq<Seq<(usize, Vec<usize>)>>, n: nat) -> bool {
    forall|l: int, i: int|
        0 <= l < order.len() && 0 <= i < order[l].len() ==> #[trigger] entry_valid(order, n, l, i)
}

/// The mathematical state of the time order.
pub ghost struct OrderModel {
    /// For each node, the nodes that wait on it, in the order in which the
    /// layers list them.
    pub succs: Seq<Seq<usize>>,
    /// For each node, the number of unmet predecessors.
    pub deps: Seq<int>,
    /// Where each node stands.
    pub status: Seq<OrderStatus>,
    /// The measurable front, in discovery order.
    pub measurable: Seq<usize>,
    /// How many mentioned nodes are unmeasured.
    pub remaining: int,
    /// How many nodes are `Pending`.
    pub pending: int,
}

/// The number of `Pending` entries.
pub open spec fn count_pending(s: Seq<OrderStatus>) -> int
    decreases s.len(),
{
    if s.len() == 0 {
        0
    } else {
        count_pending(s.drop_last()) + if s.last() == OrderStatus::Pending {
            1int
        } else {
            0int
        }
    }
}

/// The number of `Pending` or `Measurable` entries.
pub open spec fn count_unmeasured(s: Seq<OrderStatus>) -> int
    decreases s.len(),
{
    if s.len() == 0 {
        0
    } else {
        count_unmeasured(s.drop_last()) + if s.last() == OrderStatus::Pending || s.last()
            == OrderStatus::Measurable {
            1int
        } else {
            0int
        }
    }
}

pub proof fn lemma_count_pending_update(s: Seq<OrderStatus>, i: int, x: OrderStatus)
    requires
        0 <= i < s.len(),
    ensures
        count_pending(s.update(i, x)) == count_pending(s) - (if s[i] == OrderStatus::Pending {
            1int
        } else {
            0int
        }) + (if x == OrderStatus::Pending {
            1int
        } else {
            0int
        }),
    decreases s.len(),
{
    if i == s.len() - 1 {
        assert(s.update(i, x).drop_last() =~= s.drop_last());
    } else {
        assert(s.update(i, x).drop_last() =~= s.drop_last().update(i, x));
        lemma_count_pending_update(s.drop_last(), i, x);
    }
}

pub proof fn lemma_count_unmeasured_update(s: Seq<OrderStatus>, i: int, x: OrderStatus)
    requires
        0 <= i < s.len(),
    ensures
        count_unmeasured(s.update(i, x)) == count_unmeasured(s) - (if s[i] == OrderStatus::Pending
            || s[i] == OrderStatus::Measurable {
            1int
        } else {
            0int
        }) + (if x == OrderStatus::Pending || x == OrderStatus::Measurable {
            1int
        } else {
            0int
        }),
    decreases s.len(),
{
    if i == s.len() - 1 {
        assert(s.update(i, x).drop_last() =~= s.drop_last());
    } else {
        assert(s.update(i, x).drop_last() =~= s.drop_last().update(i, x));
        lemma_count_unmeasured_update(s.drop_last(), i, x);
    }
}

pub proof fn lemma_order_counts_bounded(s: Seq<OrderStatus>)
    ensures
        0 <= count_pending(s) <= count_unmeasured(s) <= s.len(),
    decreases s.len(),
{
    if s.len() > 0 {
        lemma_order_counts_bounded(s.drop_last());
    }
}

/// `s` with the first occurrence of `v` removed, if any.
pub open spec fn remove_first(s: Seq<usize>, v: usize) -> Seq<usize>
    decreases s.len(),
{
    if s.len() == 0 {
        s
    } else if s[0] == v {
        s.drop_first()
    } else {
        seq![s[0]] + remove_first(s.drop_first(), v)
    }
}

impl OrderModel {
    /// The number of nodes.
    pub open spec fn n(self) -> nat {
        self.status.len()
    }

    /// Structural invariant of the model.
    pub open spec fn wf(self) -> bool {
        &&& self.succs.len() == self.n()
        &&& self.deps.len() == self.n()
        &&& forall|v: int, j: int|
            0 <= v < self.n() && 0 <= j < self.succs[v].len() ==> #[trigger] self.succs[v][j]
                < self.n()
        &&& forall|i: int| 0 <= i < self.measurable.len() ==> #[trigger] self.measurable[i] < self.n()
        &&& forall|i: int|
            0 <= i < self.measurable.len() ==> self.status[#[trigger] self.measurable[i] as int]
                == OrderStatus::Measurable
        &&& forall|v: usize|
            v < self.n() && self.status[v as int] == OrderStatus::Measurable
                ==> self.measurable.contains(v)
        &&& forall|i: int, j: int|
            0 <= i < j < self.measurable.len() ==> self.measurable[i] != self.measurable[j]
        &&& forall|v: int|
            0 <= v < self.n() ==> ((self.status[v] == OrderStatus::Pending ==> self.deps[v] > 0) && (
            self.status[v] == OrderStatus::Measurable ==> self.deps[v] == 0))
        &&& self.remaining == count_unmeasured(self.status)
        &&& self.pending == count_pending(self.status)
    }

    /// A single predecessor of `t` has been measured: the counter of `t`
    /// drops, and `t` joins the measurable front when it reaches zero.
    pub open spec fn release_one(self, t: usize) -> OrderModel {
        if t < self.n() && self.deps[t as int] > 0 {
            let deps = self.deps.update(t as int, self.deps[t as int] - 1);
            if deps[t as int] == 0 && self.status[t as int] == OrderStatus::Pending {
                OrderModel {
                    deps,
                    status: self.status.update(t as int, OrderStatus::Measurable),
                    measurable: self.measurable.push(t),
                    pending: self.pending - 1,
                    ..self
                }
            } else {
                OrderModel { deps, ..self }
            }
        } else {
            self
        }
    }

    /// Releases the first `j` successors of the list `succ`.
    pub open spec fn release_list(self, succ: Seq<usize>, j: int) -> OrderModel
        decreases j,
    {
        if j <= 0 {
            self
        } else {
            self.release_list(succ, j - 1).release_one(succ[j - 1])
        }
    }

    /// Measures node `s`: it leaves the measurable front, and each of its
    /// successors loses one unmet predecessor.
    pub open spec fn measure_node(self, s: usize) -> OrderModel {
        let m = OrderModel {
            status: self.status.update(s as int, OrderStatus::Measured),
            measurable: remove_first(self.measurable, s),
            remaining: self.remaining - 1,
            ..self
        };
        m.release_list(self.succs[s as int], self.succs[s as int].len() as int)
    }

    /// Measures the first `k` nodes of the step `s` in order.
    pub open spec fn focus(self, s: Seq<usize>, k: int) -> OrderModel
        decreases k,
    {
        if k <= 0 {
            self
        } else {
            self.focus(s, k - 1).measure_node(s[k - 1])
        }
    }

    /// Measures a whole sequence of steps, each in full.
    pub open spec fn focus_all(self, steps: Seq<Seq<usize>>) -> OrderModel
        decreases steps.len(),
    {
        if steps.len() == 0 {
            self
        } else {
            self.focus_all(steps.drop_last()).focus(steps.last(), steps.last().len() as int)
        }
    }

    /// Every node of the step is measurable and no node is named twice.
    pub open spec fn step_admissible(self, s: Seq<usize>) -> bool {
        forall|i: int|
            0 <= i < s.len() ==> #[trigger] s[i] < self.n() && self.status[s[i] as int]
                == OrderStatus::Measurable && !s.take(i).contains(s[i])
    }

    /// The error that a validating focus reports for index `i` of step `s`,
    /// if any: a measured or repeated node is `AlreadyMeasured`, any other
    /// inadmissible node is `NotMeasurable`.
    pub open spec fn step_error_at(self, s: Seq<usize>, i: int) -> Option<InstructionError> {
        if s[i] < self.n() && self.status[s[i] as int] == OrderStatus::Measured || s.take(
            i,
        ).contains(s[i]) {
            Some(InstructionError::AlreadyMeasured(s[i]))
        } else if !(s[i] < self.n() && self.status[s[i] as int] == OrderStatus::Measurable) {
            Some(InstructionError::NotMeasurable(s[i]))
        } else {
            None
        }
    }

    /// Index `i` is the first of the step that a validating focus rejects.
    pub open spec fn is_first_step_error(self, s: Seq<usize>, i: int) -> bool {
        &&& 0 <= i < s.len()
        &&& self.step_error_at(s, i) is Some
        &&& forall|h: int| 0 <= h < i ==> self.step_error_at(s, h) is None
    }
}

/// The position of the first occurrence of `x` in `v`.
pub fn find_first_index(v: &Vec<usize>, x: usize) -> (r: usize)
    requires
        v@.contains(x),
    ensures
        r < v@.len(),
        v@[r as int] == x,
        forall|g: int| 0 <= g < r ==> v@[g] != x,
{
    let n = v.len();
    let mut i: usize = 0;
    while i < n
        invariant
            i <= n,
            n == v@.len(),
            v@.contains(x),
            forall|g: int| 0 <= g < i ==> v@[g] != x,
        decreases n - i,
    {
        if v[i] == x {
            return i;
        }
        i += 1;
    }
    proof {
        let w = choose|w: int| 0 <= w < v@.len() && #[trigger] v@[w] == x;
        assert(false);
    }
    0
}

/// Removing the first occurrence of `v`, located at `idx`, is removing the
/// element at `idx`.
pub proof fn lemma_remove_first_at(s: Seq<usize>, idx: int, v: usize)
    requires
        0 <= idx < s.len(),
        s[idx] == v,
        forall|g: int| 0 <= g < idx ==> s[g] != v,
    ensures
        remove_first(s, v) =~= s.remove(idx),
    decreases idx,
{
    if idx == 0 {
        assert(remove_first(s, v) == s.drop_first());
        assert(s.drop_first() =~= s.remove(0));
    } else {
        assert(s[0] != v);
        let tail = s.drop_first();
        assert(tail[idx - 1] == v);
        assert forall|g: int| 0 <= g < idx - 1 implies #[trigger] tail[g] != v by {
            assert(tail[g] == s[g + 1]);
        }
        lemma_remove_first_at(tail, idx - 1, v);
        assert(remove_first(s, v) == seq![s[0]] + remove_first(tail, v));
        assert(seq![s[0]] + tail.remove(idx - 1) =~= s.remove(idx));
    }
}

/// The model before any entry is processed: `n` nodes, all excluded.
pub open spec fn init_model(n: nat) -> OrderModel {
    OrderModel {
        succs: Seq::new(n, |v: int| Seq::<usize>::empty()),
        deps: Seq::new(n, |v: int| 0int),
        status: Seq::new(n, |v: int| OrderStatus::Excluded),
        measurable: Seq::<usize>::empty(),
        remaining: 0,
        pending: 0,
    }
}

/// Registers the first `j` predecessors of `node`: each predecessor gains
/// `node` as successor, and `node`'s counter grows.
pub open spec fn add_deps(m: OrderModel, node: usize, ds: Seq<usize>, j: int) -> OrderModel
    decreases j,
{
    if j <= 0 {
        m
    } else {
        let m1 = add_deps(m, node, ds, j - 1);
        let d = ds[j - 1];
        OrderModel {
            succs: m1.succs.update(d as int, m1.succs[d as int].push(node)),
            deps: m1.deps.update(node as int, m1.deps[node as int] + 1),
            ..m1
        }
    }
}

/// Registers one entry of the order: its predecessors, then the node itself,
/// measurable at once when it has no predecessors.
pub open spec fn add_entry(m: OrderModel, e: (usize, Vec<usize>)) -> OrderModel {
    let node = e.0;
    let ds = e.1@;
    let m1 = add_deps(m, node, ds, ds.len() as int);
    if ds.len() == 0 {
        OrderModel {
            status: m1.status.update(node as int, OrderStatus::Measurable),
            measurable: m1.measurable.push(node),
            remaining: m1.remaining + 1,
            ..m1
        }
    } else {
        OrderModel {
            status: m1.status.update(node as int, OrderStatus::Pending),
            remaining: m1.remaining + 1,
            pending: m1.pending + 1,
            ..m1
        }
    }
}

/// Registers the first `i` entries of a layer.
pub open spec fn add_layer(m: OrderModel, layer: Seq<(usize, Vec<usize>)>, i: int) -> OrderModel
    decreases i,
{
    if i <= 0 {
        m
    } else {
        add_entry(add_layer(m, layer, i - 1), layer[i - 1])
    }
}

/// The model after the first `l` layers of the order.
pub open spec fn build_upto(order: Seq<Seq<(usize, Vec<usize>)>>, n: nat, l: int) -> OrderModel
    decreases l,
{
    if l <= 0 {
        init_model(n)
    } else {
        add_layer(build_upto(order, n, l - 1), order[l - 1], order[l - 1].len() as int)
    }
}

/// The initial state of the time order for a well-formed layered order.
pub open spec fn build_model(order: Seq<Seq<(usize, Vec<usize>)>>, n: nat) -> OrderModel {
    build_upto(order, n, order.len() as int)
}

/// What registering predecessors does: only `node`'s counter and the
/// predecessors' successor lists change, and only by appending `node`.
pub proof fn lemma_add_deps_props(m: OrderModel, node: usize, ds: Seq<usize>, j: int)
    requires
        0 <= j <= ds.len(),
        node < m.n(),
        m.succs.len() == m.n(),
        m.deps.len() == m.n(),
        forall|k: int| 0 <= k < ds.len() ==> #[trigger] ds[k] < m.n(),
    ensures
        add_deps(m, node, ds, j).status == m.status,
        add_deps(m, node, ds, j).measurable == m.measurable,
        add_deps(m, node, ds, j).remaining == m.remaining,
        add_deps(m, node, ds, j).pending == m.pending,
        add_deps(m, node, ds, j).succs.len() == m.n(),
        add_deps(m, node, ds, j).deps.len() == m.n(),
        add_deps(m, node, ds, j).deps[node as int] == m.deps[node as int] + j,
        forall|x: int|
            0 <= x < m.n() && x != node as int ==> add_deps(m, node, ds, j).deps[x] == m.deps[x],
        forall|x: int, q: int|
            0 <= x < m.n() && 0 <= q < add_deps(m, node, ds, j).succs[x].len()
                ==> #[trigger] add_deps(m, node, ds, j).succs[x][q] == (if q < m.succs[x].len() {
                m.succs[x][q]
            } else {
                node
            }),
        forall|x: int|
            0 <= x < m.n() ==> m.succs[x].len() <= add_deps(m, node, ds, j).succs[x].len(),
    decreases j,
{
    if j > 0 {
        lemma_add_deps_props(m, node, ds, j - 1);
    }
}
/// A front with nothing left to measure is empty.
pub proof fn lemma_no_remaining_no_front(m: OrderModel)
    requires
        m.wf(),
        m.remaining == 0,
    ensures
        m.measurable.len() == 0,
{
    if m.measurable.len() > 0 {
        let x = m.measurable[0];
        assert(m.status[x as int] == OrderStatus::Measurable);
        lemma_count_unmeasured_pos(m.status, x as int);
    }
}

/// The counters of a well-formed model stay within the node count.
pub proof fn lemma_remaining_bounds(m: OrderModel)
    requires
        m.wf(),
    ensures
        0 <= m.pending <= m.remaining <= m.n(),
{
    lemma_order_counts_bounded(m.status);
}

pub proof fn lemma_count_unmeasured_pos(s: Seq<OrderStatus>, i: int)
    requires
        0 <= i < s.len(),
        s[i] == OrderStatus::Pending || s[i] == OrderStatus::Measurable,
    ensures
        count_unmeasured(s) >= 1,
    decreases s.len(),
{
    if i < s.len() - 1 {
        lemma_count_unmeasured_pos(s.drop_last(), i);
    } else {
        lemma_order_counts_bounded(s.drop_last());
    }
}

/// A `Pending` entry makes the pending count positive.
pub proof fn lemma_count_pending_pos(s: Seq<OrderStatus>, i: int)
    requires
        0 <= i < s.len(),
        s[i] == OrderStatus::Pending,
    ensures
        count_pending(s) >= 1,
    decreases s.len(),
{
    if i < s.len() - 1 {
        lemma_count_pending_pos(s.drop_last(), i);
    } else {
        lemma_order_counts_bounded(s.drop_last());
    }
}

/// What removing the first occurrence of `v` does to a duplicate-free
/// sequence.
pub proof fn lemma_remove_first(s: Seq<usize>, v: usize)
    requires
        forall|i: int, j: int| 0 <= i < j < s.len() ==> s[i] != s[j],
    ensures
        s.contains(v) ==> remove_first(s, v).len() == s.len() - 1,
        !s.contains(v) ==> remove_first(s, v) == s,
        forall|x: usize| remove_first(s, v).contains(x) <==> (s.contains(x) && x != v),
        forall|i: int, j: int|
            0 <= i < j < remove_first(s, v).len() ==> remove_first(s, v)[i] != remove_first(
                s,
                v,
            )[j],
        forall|i: int|
            0 <= i < remove_first(s, v).len() ==> s.contains(#[trigger] remove_first(s, v)[i]),
    decreases s.len(),
{
    let r = remove_first(s, v);
    if s.len() == 0 {
        assert forall|x: usize| r.contains(x) <==> (s.contains(x) && x != v) by {
            if s.contains(x) {
                let w = choose|w: int| 0 <= w < s.len() && s[w] == x;
            }
        }
    } else if s[0] == v {
        assert(r =~= s.drop_first());
        assert forall|x: usize| r.contains(x) <==> (s.contains(x) && x != v) by {
            if r.contains(x) {
                let w = choose|w: int| 0 <= w < r.len() && #[trigger] r[w] == x;
                assert(s[w + 1] == x);
                assert(s.contains(x));
                assert(s[0] != s[w + 1]);
            }
            if s.contains(x) && x != v {
                let w = choose|w: int| 0 <= w < s.len() && #[trigger] s[w] == x;
                assert(w != 0);
                assert(r[w - 1] == x);
                assert(r.contains(x));
            }
        }
        assert forall|i: int| 0 <= i < r.len() implies s.contains(#[trigger] r[i]) by {
            assert(s[i + 1] == r[i]);
        }
    } else {
        let tail = s.drop_first();
        assert(forall|i: int, j: int| 0 <= i < j < tail.len() ==> tail[i] != tail[j]) by {
            assert(forall|i: int, j: int|
                0 <= i < j < tail.len() ==> tail[i] == s[i + 1] && tail[j] == s[j + 1]);
        }
        lemma_remove_first(tail, v);
        let rt = remove_first(tail, v);
        assert(r =~= seq![s[0]] + rt);
        assert(r[0] == s[0]);
        assert(forall|i: int| 0 <= i < rt.len() ==> r[i + 1] == rt[i]);
        if s.contains(v) {
            let w = choose|w: int| 0 <= w < s.len() && #[trigger] s[w] == v;
            assert(w != 0);
            assert(tail[w - 1] == v);
            assert(tail.contains(v));
        }
        if tail.contains(v) {
            let w = choose|w: int| 0 <= w < tail.len() && #[trigger] tail[w] == v;
            assert(s[w + 1] == v);
            assert(s.contains(v));
        }
        if !s.contains(v) {
            assert(!tail.contains(v));
            assert(r =~= s);
        }
        assert forall|x: usize| r.contains(x) <==> (s.contains(x) && x != v) by {
            if r.contains(x) {
                let w = choose|w: int| 0 <= w < r.len() && #[trigger] r[w] == x;
                if w == 0 {
                    assert(s[0] == x);
                    assert(s.contains(x));
                    assert(x != v);
                } else {
                    assert(rt[w - 1] == x);
                    assert(rt.contains(x));
                    assert(tail.contains(x));
                    let y = choose|y: int| 0 <= y < tail.len() && #[trigger] tail[y] == x;
                    assert(s[y + 1] == x);
                    assert(s.contains(x));
                }
            }
            if s.contains(x) && x != v {
                let w = choose|w: int| 0 <= w < s.len() && #[trigger] s[w] == x;
                if w == 0 {
                    assert(r[0] == x);
                    assert(r.contains(x));
                } else {
                    assert(tail[w - 1] == x);
                    assert(tail.contains(x));
                    assert(rt.contains(x));
                    let y = choose|y: int| 0 <= y < rt.len() && #[trigger] rt[y] == x;
                    assert(r[y + 1] == x);
                    assert(r.contains(x));
                }
            }
        }
        assert forall|i: int, j: int| 0 <= i < j < r.len() implies r[i] != r[j] by {
            if i == 0 {
                assert(r[j] == rt[j - 1]);
                assert(rt.contains(rt[j - 1]));
                assert(tail.contains(r[j]));
                let y = choose|y: int| 0 <= y < tail.len() && #[trigger] tail[y] == r[j];
                assert(s[y + 1] == r[j]);
                assert(s[0] != s[y + 1]);
            } else {
                assert(r[i] == rt[i - 1] && r[j] == rt[j - 1]);
            }
        }
        assert forall|i: int| 0 <= i < r.len() implies s.contains(#[trigger] r[i]) by {
            if i == 0 {
                assert(s[0] == r[0]);
            } else {
                assert(rt[i - 1] == r[i]);
                assert(rt.contains(r[i]));
                assert(tail.contains(r[i]));
                let y = choose|y: int| 0 <= y < tail.len() && #[trigger] tail[y] == r[i];
                assert(s[y + 1] == r[i]);
            }
        }
    }
}

/// What a single release does: counters never grow, the measured set is
/// untouched, and measurable nodes stay measurable.
pub proof fn lemma_release_one_props(m: OrderModel, t: usize)
    requires
        m.wf(),
    ensures
        m.release_one(t).wf(),
        m.release_one(t).n() == m.n(),
        m.release_one(t).succs == m.succs,
        m.release_one(t).remaining == m.remaining,
        forall|x: int|
            0 <= x < m.n() ==> (m.release_one(t).status[x] == m.status[x] || (m.status[x]
                == OrderStatus::Pending && m.release_one(t).status[x] == OrderStatus::Measurable)),
        forall|i: int| 0 <= i < m.measurable.len() ==> m.release_one(t).measurable[i] == m.measurable[i],
        m.measurable.len() <= m.release_one(t).measurable.len(),
{
    let r = m.release_one(t);
    if t < m.n() && m.deps[t as int] > 0 {
        let deps = m.deps.update(t as int, m.deps[t as int] - 1);
        if deps[t as int] == 0 && m.status[t as int] == OrderStatus::Pending {
            lemma_count_pending_pos(m.status, t as int);
            lemma_count_pending_update(m.status, t as int, OrderStatus::Measurable);
            lemma_count_unmeasured_update(m.status, t as int, OrderStatus::Measurable);
            assert forall|v: usize|
                v < r.n() && r.status[v as int] == OrderStatus::Measurable implies r
                .measurable
                .contains(v) by {
                if v == t {
                    assert(r.measurable[r.measurable.len() - 1] == t);
                } else {
                    assert(m.status[v as int] == OrderStatus::Measurable);
                    let w = choose|w: int|
                        0 <= w < m.measurable.len() && #[trigger] m.measurable[w] == v;
                    assert(r.measurable[w] == v);
                }
            }
            assert forall|i: int, j: int|
                0 <= i < j < r.measurable.len() implies r.measurable[i] != r.measurable[j] by {
                if j == r.measurable.len() - 1 {
                    assert(r.measurable[j] == t);
                    assert(r.measurable[i] == m.measurable[i]);
                    assert(m.status[m.measurable[i] as int] == OrderStatus::Measurable);
                }
            }
        }
    }
}

/// `lemma_release_one_props` extended over a successor list.
pub proof fn lemma_release_list_props(m: OrderModel, succ: Seq<usize>, j: int)
    requires
        m.wf(),
        0 <= j <= succ.len(),
    ensures
        m.release_list(succ, j).wf(),
        m.release_list(succ, j).n() == m.n(),
        m.release_list(succ, j).succs == m.succs,
        m.release_list(succ, j).remaining == m.remaining,
        forall|x: int|
            0 <= x < m.n() ==> (m.release_list(succ, j).status[x] == m.status[x] || (m.status[x]
                == OrderStatus::Pending && m.release_list(succ, j).status[x]
                == OrderStatus::Measurable)),
        forall|i: int|
            0 <= i < m.measurable.len() ==> m.release_list(succ, j).measurable[i]
                == m.measurable[i],
        m.measurable.len() <= m.release_list(succ, j).measurable.len(),
    decreases j,
{
    if j > 0 {
        lemma_release_list_props(m, succ, j - 1);
        lemma_release_one_props(m.release_list(succ, j - 1), succ[j - 1]);
    }
}

/// What measuring one measurable node does to the model.
pub proof fn lemma_measure_node_props(m: OrderModel, v: usize)
    requires
        m.wf(),
        v < m.n(),
        m.status[v as int] == OrderStatus::Measurable,
    ensures
        m.measure_node(v).wf(),
        m.measure_node(v).n() == m.n(),
        m.measure_node(v).succs == m.succs,
        m.measure_node(v).remaining == m.remaining - 1,
        forall|x: usize|
            x < m.n() ==> (m.measure_node(v).status[x as int] == OrderStatus::Measured <==> (x == v
                || m.status[x as int] == OrderStatus::Measured)),
        forall|x: usize|
            x < m.n() && x != v && m.status[x as int] == OrderStatus::Measurable
                ==> m.measure_node(v).status[x as int] == OrderStatus::Measurable,
        forall|x: usize|
            x < m.n() ==> ((#[trigger] m.measure_node(v).status[x as int]) == m.status[x as int]
                || m.measure_node(v).status[x as int] == OrderStatus::Measured || (m.status[
            x as int] == OrderStatus::Pending && m.measure_node(v).status[x as int]
                == OrderStatus::Measurable)),
{
    let mid = OrderModel {
        status: m.status.update(v as int, OrderStatus::Measured),
        measurable: remove_first(m.measurable, v),
        remaining: m.remaining - 1,
        ..m
    };
    lemma_count_unmeasured_pos(m.status, v as int);
    lemma_count_unmeasured_update(m.status, v as int, OrderStatus::Measured);
    lemma_count_pending_update(m.status, v as int, OrderStatus::Measured);
    lemma_remove_first(m.measurable, v);
    assert(mid.wf()) by {
        assert forall|i: int|
            0 <= i < mid.measurable.len() implies #[trigger] mid.measurable[i] < mid.n()
                && mid.status[mid.measurable[i] as int] == OrderStatus::Measurable by {
            assert(m.measurable.contains(mid.measurable[i]));
            assert(mid.measurable.contains(mid.measurable[i]));
            assert(mid.measurable[i] != v);
        }
        assert forall|x: usize|
            x < mid.n() && mid.status[x as int] == OrderStatus::Measurable implies mid
            .measurable
            .contains(x) by {
            assert(x != v);
            assert(m.status[x as int] == OrderStatus::Measurable);
            assert(m.measurable.contains(x));
        }
    }
    lemma_release_list_props(mid, m.succs[v as int], m.succs[v as int].len() as int);
    let r = m.measure_node(v);
    assert forall|x: usize| x < m.n() implies (r.status[x as int] == OrderStatus::Measured <==> (x
        == v || m.status[x as int] == OrderStatus::Measured)) by {
        assert(r.status[x as int] == mid.status[x as int] || (mid.status[x as int]
            == OrderStatus::Pending && r.status[x as int] == OrderStatus::Measurable));
    }
    assert forall|x: usize|
        x < m.n() && x != v && m.status[x as int] == OrderStatus::Measurable implies r.status[
        x as int] == OrderStatus::Measurable by {
        assert(mid.status[x as int] == OrderStatus::Measurable);
        assert(r.status[x as int] == mid.status[x as int] || (mid.status[x as int]
            == OrderStatus::Pending && r.status[x as int] == OrderStatus::Measurable));
    }
    assert forall|x: usize|
        x < m.n() implies ((#[trigger] r.status[x as int]) == m.status[x as int] || r.status[
        x as int] == OrderStatus::Measured || (m.status[x as int] == OrderStatus::Pending
        && r.status[x as int] == OrderStatus::Measurable)) by {
        assert(r.status[x as int] == mid.status[x as int] || (mid.status[x as int]
            == OrderStatus::Pending && r.status[x as int] == OrderStatus::Measurable));
    }
}

/// What measuring an admissible step prefix does to the model: the named
/// nodes become measured, the rest of the step stays measurable, and the
/// remaining count drops by the prefix length.
pub proof fn lemma_focus_props(m: OrderModel, s: Seq<usize>, k: int)
    requires
        m.wf(),
        m.step_admissible(s),
        0 <= k <= s.len(),
    ensures
        m.focus(s, k).wf(),
        m.focus(s, k).n() == m.n(),
        m.focus(s, k).succs == m.succs,
        m.focus(s, k).remaining == m.remaining - k,
        forall|x: usize|
            x < m.n() ==> (m.focus(s, k).status[x as int] == OrderStatus::Measured <==> (s.take(
                k,
            ).contains(x) || m.status[x as int] == OrderStatus::Measured)),
        forall|x: usize|
            x < m.n() && m.status[x as int] == OrderStatus::Measurable && !s.take(k).contains(x)
                ==> m.focus(s, k).status[x as int] == OrderStatus::Measurable,
        forall|x: usize|
            x < m.n() ==> ((#[trigger] m.focus(s, k).status[x as int]) == m.status[x as int]
                || m.focus(s, k).status[x as int] == OrderStatus::Measured || (m.status[x as int]
                == OrderStatus::Pending && m.focus(s, k).status[x as int]
                == OrderStatus::Measurable)),
    decreases k,
{
    if k > 0 {
        lemma_focus_props(m, s, k - 1);
        let f = m.focus(s, k - 1);
        let v = s[k - 1];
        assert(v < m.n() && m.status[v as int] == OrderStatus::Measurable && !s.take(
            k - 1,
        ).contains(v));
        assert(f.status[v as int] == OrderStatus::Measurable);
        lemma_measure_node_props(f, v);
        assert(s.take(k) =~= s.take(k - 1).push(v));
        assert forall|x: usize|
            x < m.n() implies (m.focus(s, k).status[x as int] == OrderStatus::Measured <==> (s.take(
                k,
            ).contains(x) || m.status[x as int] == OrderStatus::Measured)) by {
            if s.take(k).contains(x) {
                let w = choose|w: int| 0 <= w < k && #[trigger] s.take(k)[w] == x;
                if w < k - 1 {
                    assert(s.take(k - 1)[w] == x);
                    assert(s.take(k - 1).contains(x));
                } else {
                    assert(x == v);
                }
            }
            if s.take(k - 1).contains(x) {
                let w = choose|w: int| 0 <= w < k - 1 && #[trigger] s.take(k - 1)[w] == x;
                assert(s.take(k)[w] == x);
                assert(s.take(k).contains(x));
            }
            if x == v {
                assert(s.take(k)[k - 1] == v);
                assert(s.take(k).contains(x));
            }
        }
        assert forall|x: usize|
            x < m.n() && m.status[x as int] == OrderStatus::Measurable && !s.take(k).contains(
                x,
            ) implies m.focus(s, k).status[x as int] == OrderStatus::Measurable by {
            assert forall|w: int| 0 <= w < k - 1 implies #[trigger] s.take(k - 1)[w] != x by {
                assert(s.take(k)[w] == s.take(k - 1)[w]);
            }
            assert(!s.take(k - 1).contains(x));
            assert(f.status[x as int] == OrderStatus::Measurable);
            assert(s.take(k)[k - 1] == v);
            assert(x != v);
        }
        assert forall|x: usize|
            x < m.n() implies (m.focus(s, k).status[x as int] == m.status[x as int] || m.focus(
                s,
                k,
            ).status[x as int] == OrderStatus::Measured || (m.status[x as int]
                == OrderStatus::Pending && m.focus(s, k).status[x as int]
                == OrderStatus::Measurable)) by {
            assert(m.focus(s, k - 1).status[x as int] == f.status[x as int]);
            assert(f.status[x as int] == m.status[x as int] || f.status[x as int]
                == OrderStatus::Measured || (m.status[x as int] == OrderStatus::Pending
                && f.status[x as int] == OrderStatus::Measurable));
            assert(m.focus(s, k) == f.measure_node(v));
            assert(f.measure_node(v).status[x as int] == f.status[x as int]
                || f.measure_node(v).status[x as int] == OrderStatus::Measured || (f.status[
            x as int] == OrderStatus::Pending && f.measure_node(v).status[x as int]
                == OrderStatus::Measurable));
        }
    } else {
        assert(m.focus(s, 0) == m);
    }
}

/// Advancing one entry extends the mentioned-before set by that entry's node.
pub proof fn lemma_mentioned_step(order: Seq<Seq<(usize, Vec<usize>)>>, l: int, i: int)
    requires
        0 <= l < order.len(),
        0 <= i < order[l].len(),
    ensures
        forall|x: usize|
            #[trigger] mentioned_before(order, l, i + 1, x) <==> (mentioned_before(order, l, i, x)
                || node_at(order, l, i) == x),
{
    assert forall|x: usize| #[trigger] mentioned_before(order, l, i + 1, x) <==> (mentioned_before(
        order,
        l,
        i,
        x,
    ) || node_at(order, l, i) == x) by {
        if mentioned_before(order, l, i + 1, x) {
            let (l2, i2) = choose|l2: int, i2: int|
                ((0 <= l2 < l && 0 <= i2 < order[l2].len()) || (l2 == l && 0 <= i2 < i + 1))
                    && #[trigger] node_at(order, l2, i2) == x;
            if l2 == l && i2 == i {
            } else {
                assert(((0 <= l2 < l && 0 <= i2 < order[l2].len()) || (l2 == l && 0 <= i2 < i))
                    && node_at(order, l2, i2) == x);
                assert(mentioned_before(order, l, i, x));
            }
        }
        if mentioned_before(order, l, i, x) {
            let (l2, i2) = choose|l2: int, i2: int|
                ((0 <= l2 < l && 0 <= i2 < order[l2].len()) || (l2 == l && 0 <= i2 < i))
                    && #[trigger] node_at(order, l2, i2) == x;
            assert(((0 <= l2 < l && 0 <= i2 < order[l2].len()) || (l2 == l && 0 <= i2 < i + 1))
                && node_at(order, l2, i2) == x);
            assert(mentioned_before(order, l, i + 1, x));
        }
        if node_at(order, l, i) == x {
            assert(((0 <= l < l && 0 <= i < order[l].len()) || (l == l && 0 <= i < i + 1))
                && node_at(order, l, i) == x);
            assert(mentioned_before(order, l, i + 1, x));
        }
    }
}

/// Finishing a layer makes its nodes part of the earlier layers.
pub proof fn lemma_mentioned_layer(order: Seq<Seq<(usize, Vec<usize>)>>, l: int)
    requires
        0 <= l < order.len(),
    ensures
        forall|x: usize|
            #[trigger] mentioned_before(order, l + 1, 0, x) <==> mentioned_before(
                order,
                l,
                order[l].len() as int,
                x,
            ),
{
    let e = order[l].len() as int;
    assert forall|x: usize| #[trigger] mentioned_before(order, l + 1, 0, x) <==> mentioned_before(
        order,
        l,
        e,
        x,
    ) by {
        if mentioned_before(order, l + 1, 0, x) {
            let (l2, i2) = choose|l2: int, i2: int|
                ((0 <= l2 < l + 1 && 0 <= i2 < order[l2].len()) || (l2 == l + 1 && 0 <= i2 < 0))
                    && #[trigger] node_at(order, l2, i2) == x;
            assert(((0 <= l2 < l && 0 <= i2 < order[l2].len()) || (l2 == l && 0 <= i2 < e))
                && node_at(order, l2, i2) == x);
            assert(mentioned_before(order, l, e, x));
        }
        if mentioned_before(order, l, e, x) {
            let (l2, i2) = choose|l2: int, i2: int|
                ((0 <= l2 < l && 0 <= i2 < order[l2].len()) || (l2 == l && 0 <= i2 < e))
                    && #[trigger] node_at(order, l2, i2) == x;
            assert(((0 <= l2 < l + 1 && 0 <= i2 < order[l2].len()) || (l2 == l + 1 && 0 <= i2 < 0))
                && node_at(order, l2, i2) == x);
            assert(mentioned_before(order, l + 1, 0, x));
        }
    }
}


/// `v` is referenced by the order but cannot be resolved: a node or
/// predecessor outside the graph, or a predecessor no earlier layer defines.
pub open spec fn missing_in_order(order: Seq<Seq<(usize, Vec<usize>)>>, n: nat, v: usize) -> bool {
    ||| exists|l: int, i: int|
        0 <= l < order.len() && 0 <= i < order[l].len() && #[trigger] node_at(order, l, i) == v
            && v >= n
    ||| exists|l: int, i: int, k: int|
        0 <= l < order.len() && 0 <= i < order[l].len() && 0 <= k < deps_at(order, l, i).len()
            && #[trigger] deps_at(order, l, i)[k] == v && (v >= n || !mentioned_before(
            order,
            l,
            0,
            v,
        ))
}

/// `v` repeats where it may not: a node listed twice, or a predecessor
/// repeated within one list.
pub open spec fn duplicate_in_order(order: Seq<Seq<(usize, Vec<usize>)>>, v: usize) -> bool {
    ||| exists|l: int, i: int|
        0 <= l < order.len() && 0 <= i < order[l].len() && #[trigger] node_at(order, l, i) == v
            && mentioned_before(order, l, i, v)
    ||| exists|l: int, i: int, k: int|
        0 <= l < order.len() && 0 <= i < order[l].len() && 0 <= k < deps_at(order, l, i).len()
            && #[trigger] deps_at(order, l, i)[k] == v && deps_at(order, l, i).take(k).contains(v)
}

/// A vector of `n` `false` flags.
fn make_flags(n: usize) -> (r: Vec<bool>)
    ensures
        r@.len() == n,
        forall|i: int| 0 <= i < n ==> r@[i] == false,
{
    let mut r: Vec<bool> = Vec::new();
    let mut i: usize = 0;
    while i < n
        invariant
            i <= n,
            r@.len() == i,
            forall|k: int| 0 <= k < i ==> r@[k] == false,
        decreases n - i,
    {
        r.push(false);
        i += 1;
    }
    r
}

/// Checks that the layered order is well-formed over `num_nodes` nodes; the
/// error names an offending node.
pub fn check_order(order: &PartialOrderGraph, num_nodes: usize) -> (r: Result<(), InputError>)
    ensures
        r matches Ok(()) <==> valid_order(order.view(), num_nodes as nat),
        r matches Err(e) ==> ((e matches InputError::MissingInput(v) ==> missing_in_order(
            order.view(),
            num_nodes as nat,
            v,
        )) && (e matches InputError::DuplicateNode(v) ==> duplicate_in_order(order.view(), v))),
{
    let ghost ov = order.view();
    let ghost n = num_nodes as nat;
    let num_layers = order.0.len();
    let mut seen_prev = make_flags(num_nodes);
    let mut seen_all = make_flags(num_nodes);
    let mut l: usize = 0;
    proof {
        assert forall|x: usize| !mentioned_before(ov, 0, 0, x) by {
            if mentioned_before(ov, 0, 0, x) {
                let (l2, i2) = choose|l2: int, i2: int|
                    ((0 <= l2 < 0 && 0 <= i2 < ov[l2].len()) || (l2 == 0 && 0 <= i2 < 0))
                        && #[trigger] node_at(ov, l2, i2) == x;
            }
        }
    }
    while l < num_layers
        invariant
            l <= num_layers,
            num_layers == ov.len(),
            ov == order.view(),
            n == num_nodes as nat,
            seen_prev@.len() == num_nodes,
            seen_all@.len() == num_nodes,
            forall|x: usize|
                x < num_nodes ==> (seen_prev@[x as int] <==> mentioned_before(ov, l as int, 0, x)),
            forall|x: usize|
                x < num_nodes ==> (seen_all@[x as int] <==> mentioned_before(ov, l as int, 0, x)),
            forall|x: usize| #[trigger] mentioned_before(ov, l as int, 0, x) ==> x < num_nodes,
            forall|l2: int, i2: int|
                0 <= l2 < l && 0 <= i2 < ov[l2].len() ==> entry_valid(ov, n, l2, i2),
        decreases num_layers - l,
    {
        let layer = &order.0[l];
        let layer_len = layer.len();
        proof {
            assert(layer@ == ov[l as int]);
        }
        let mut i: usize = 0;
        while i < layer_len
            invariant
                i <= layer_len,
                l < num_layers,
                num_layers == ov.len(),
                ov == order.view(),
                n == num_nodes as nat,
                layer@ == ov[l as int],
                layer_len == ov[l as int].len(),
                seen_prev@.len() == num_nodes,
                seen_all@.len() == num_nodes,
                forall|x: usize|
                    x < num_nodes ==> (seen_prev@[x as int] <==> mentioned_before(
                        ov,
                        l as int,
                        0,
                        x,
                    )),
                forall|x: usize|
                    x < num_nodes ==> (seen_all@[x as int] <==> mentioned_before(
                        ov,
                        l as int,
                        i as int,
                        x,
                    )),
                forall|x: usize| #[trigger] mentioned_before(ov, l as int, i as int, x) ==> x < num_nodes,
                forall|l2: int, i2: int|
                    0 <= l2 < l && 0 <= i2 < ov[l2].len() ==> entry_valid(ov, n, l2, i2),
                forall|i2: int| 0 <= i2 < i ==> entry_valid(ov, n, l as int, i2),
            decreases layer_len - i,
        {
            let e = &layer[i];
            let node = e.0;
            proof {
                assert(*e == ov[l as int][i as int]);
                assert(node == node_at(ov, l as int, i as int));
                assert(e.1@ == deps_at(ov, l as int, i as int));
            }
            if node >= num_nodes {
                proof {
                    assert(!entry_valid(ov, n, l as int, i as int));
                    assert(!valid_order(ov, n));
                    assert(missing_in_order(ov, n, node));
                }
                return Err(InputError::MissingInput(node));
            }
            if seen_all[node] {
                proof {
                    assert(mentioned_before(ov, l as int, i as int, node));
                    assert(!entry_valid(ov, n, l as int, i as int));
                    assert(!valid_order(ov, n));
                    assert(duplicate_in_order(ov, node));
                }
                return Err(InputError::DuplicateNode(node));
            }
            let deps_len = e.1.len();
            let ghost ds = deps_at(ov, l as int, i as int);
            let mut k: usize = 0;
            while k < deps_len
                invariant
                    k <= deps_len,
                    deps_len == ds.len(),
                    ds == deps_at(ov, l as int, i as int),
                    e == &ov[l as int][i as int],
                    e.1@ == ds,
                    l < num_layers,
                    num_layers == ov.len(),
                    ov == order.view(),
                    n == num_nodes as nat,
                    i < layer_len == ov[l as int].len(),
                    seen_prev@.len() == num_nodes,
                    forall|x: usize|
                        x < num_nodes ==> (seen_prev@[x as int] <==> mentioned_before(
                            ov,
                            l as int,
                            0,
                            x,
                        )),
                    forall|k2: int|
                        0 <= k2 < k ==> (#[trigger] ds[k2]) < n && mentioned_before(
                            ov,
                            l as int,
                            0,
                            ds[k2],
                        ) && !ds.take(k2).contains(ds[k2]),
                decreases deps_len - k,
            {
                let d = e.1[k];
                proof {
                    assert(d == ds[k as int]);
                }
                if d >= num_nodes {
                    proof {
                        assert(!entry_valid(ov, n, l as int, i as int));
                        assert(!valid_order(ov, n));
                        assert(missing_in_order(ov, n, d));
                    }
                    return Err(InputError::MissingInput(d));
                }
                if !seen_prev[d] {
                    proof {
                        assert(!mentioned_before(ov, l as int, 0, d));
                        assert(!entry_valid(ov, n, l as int, i as int));
                        assert(!valid_order(ov, n));
                        assert(missing_in_order(ov, n, d));
                    }
                    return Err(InputError::MissingInput(d));
                }
                let mut k2: usize = 0;
                while k2 < k
                    invariant
                        k2 <= k < deps_len,
                        deps_len == ds.len(),
                        ds == deps_at(ov, l as int, i as int),
                        e == &ov[l as int][i as int],
                        e.1@ == ds,
                        d == ds[k as int],
                        l < num_layers,
                        num_layers == ov.len(),
                        ov == order.view(),
                        n == num_nodes as nat,
                        i < ov[l as int].len(),
                        forall|g: int| 0 <= g < k2 ==> ds[g] != d,
                    decreases k - k2,
                {
                    if e.1[k2] == d {
                        proof {
                            assert(ds.take(k as int)[k2 as int] == d);
                            assert(ds.take(k as int).contains(d));
                            assert(!entry_valid(ov, n, l as int, i as int));
                            assert(!valid_order(ov, n));
                            assert(duplicate_in_order(ov, d));
                        }
                        return Err(InputError::DuplicateNode(d));
                    }
                    k2 += 1;
                }
                proof {
                    assert forall|g: int| 0 <= g < k implies #[trigger] ds.take(k as int)[g]
                        != d by {
                        assert(ds.take(k as int)[g] == ds[g]);
                    }
                    assert(!ds.take(k as int).contains(d));
                }
                k += 1;
            }
            proof {
                assert(entry_valid(ov, n, l as int, i as int));
                lemma_mentioned_step(ov, l as int, i as int);
            }
            seen_all.set(node, true);
            i += 1;
        }
        // the finished layer now counts as an earlier layer
        proof {
            lemma_mentioned_layer(ov, l as int);
        }
        let mut x: usize = 0;
        let ghost all_now = seen_all@;
        while x < num_nodes
            invariant
                x <= num_nodes,
                seen_prev@.len() == num_nodes,
                seen_all@.len() == num_nodes,
                seen_all@ == all_now,
                forall|y: int| 0 <= y < x ==> seen_prev@[y] == all_now[y],
            decreases num_nodes - x,
        {
            let b = seen_all[x];
            seen_prev.set(x, b);
            x += 1;
        }
        proof {
            assert forall|x: usize| x < num_nodes implies ((seen_prev@[x as int]
                <==> mentioned_before(ov, l as int + 1, 0, x)) && (seen_all@[x as int]
                <==> mentioned_before(ov, l as int + 1, 0, x))) by {
                assert(seen_prev@[x as int] == all_now[x as int]);
                assert(all_now[x as int] <==> mentioned_before(ov, l as int, layer_len as int, x));
                assert(mentioned_before(ov, l as int + 1, 0, x) <==> mentioned_before(
                    ov,
                    l as int,
                    ov[l as int].len() as int,
                    x,
                ));
            }
            assert forall|x: usize| #[trigger] mentioned_before(ov, l as int + 1, 0, x) implies x
                < num_nodes by {
                assert(mentioned_before(ov, l as int, layer_len as int, x));
            }
        }
        l += 1;
    }
    proof {
        assert forall|l2: int, i2: int|
            0 <= l2 < ov.len() && 0 <= i2 < ov[l2].len() implies #[trigger] entry_valid(
            ov,
            n,
            l2,
            i2,
        ) by {}
    }
    Ok(())
}

/// A status sequence of excluded nodes has nothing pending or unmeasured.
pub proof fn lemma_count_all_excluded(s: Seq<OrderStatus>)
    requires
        forall|i: int| 0 <= i < s.len() ==> s[i] == OrderStatus::Excluded,
    ensures
        count_pending(s) == 0,
        count_unmeasured(s) == 0,
    decreases s.len(),
{
    if s.len() > 0 {
        lemma_count_all_excluded(s.drop_last());
    }
}

/// An entry that is neither pending nor measurable leaves room under the
/// length for one more unmeasured node.
pub proof fn lemma_count_unmeasured_excluded(s: Seq<OrderStatus>, i: int)
    requires
        0 <= i < s.len(),
        s[i] != OrderStatus::Pending,
        s[i] != OrderStatus::Measurable,
    ensures
        count_unmeasured(s) <= s.len() - 1,
    decreases s.len(),
{
    if i < s.len() - 1 {
        lemma_count_unmeasured_excluded(s.drop_last(), i);
    } else {
        lemma_order_counts_bounded(s.drop_last());
    }
}

/// Appends `x` to row `i` of a table of rows.
fn push_at(rows: &mut Vec<Vec<usize>>, i: usize, x: usize)
    requires
        i < old(rows)@.len(),
    ensures
        final(rows)@.len() == old(rows)@.len(),
        final(rows)@[i as int]@ == old(rows)@[i as int]@.push(x),
        forall|j: int| 0 <= j < old(rows)@.len() && j != i ==> final(rows)@[j] == old(rows)@[j],
{
    let row = &mut rows[i];
    row.push(x);
}

/// A table of `n` empty rows.
fn make_rows(n: usize) -> (r: Vec<Vec<usize>>)
    ensures
        r@.len() == n,
        forall|i: int| 0 <= i < n ==> r@[i]@ == Seq::<usize>::empty(),
{
    let mut r: Vec<Vec<usize>> = Vec::new();
    let mut i: usize = 0;
    while i < n
        invariant
            i <= n,
            r@.len() == i,
            forall|k: int| 0 <= k < i ==> r@[k]@ == Seq::<usize>::empty(),
        decreases n - i,
    {
        let row: Vec<usize> = Vec::new();
        r.push(row);
        i += 1;
    }
    r
}

/// A vector of `n` zero counters.
fn make_zeros(n: usize) -> (r: Vec<usize>)
    ensures
        r@.len() == n,
        forall|i: int| 0 <= i < n ==> r@[i] == 0,
{
    let mut r: Vec<usize> = Vec::new();
    let mut i: usize = 0;
    while i < n
        invariant
            i <= n,
            r@.len() == i,
            forall|k: int| 0 <= k < i ==> r@[k] == 0,
        decreases n - i,
    {
        r.push(0);
        i += 1;
    }
    r
}

/// A vector of `n` excluded statuses.
fn make_excluded(n: usize) -> (r: Vec<OrderStatus>)
    ensures
        r@.len() == n,
        forall|i: int| 0 <= i < n ==> r@[i] == OrderStatus::Excluded,
    decreases n,
{
    let mut r: Vec<OrderStatus> = Vec::new();
    let mut i: usize = 0;
    while i < n
        invariant
            i <= n,
            r@.len() == i,
            forall|k: int| 0 <= k < i ==> r@[k] == OrderStatus::Excluded,
        decreases n - i,
    {
        r.push(OrderStatus::Excluded);
        i += 1;
    }
    r
}




/// `elem` is the node of an entry among the first `i` of layer `l` or any
/// earlier layer, and that entry's predecessor list names `u`.
pub open spec fn succ_elem_from(
    order: Seq<Seq<(usize, Vec<usize>)>>,
    l: int,
    i: int,
    elem: usize,
    u: int,
) -> bool {
    exists|l2: int, i2: int|
        ((0 <= l2 < l && 0 <= i2 < order[l2].len()) || (l2 == l && 0 <= i2 < i)) && #[trigger] node_at(
            order,
            l2,
            i2,
        ) == elem && deps_at(order, l2, i2).contains(u as usize)
}

/// A value that occurs in a sequence is one of its entries.
pub proof fn lemma_occurrences_contains(s: Seq<usize>, x: usize)
    requires
        occurrences(s, x) > 0,
    ensures
        s.contains(x),
{
    if !s.contains(x) {
        lemma_occurrences_zero(s, x);
    }
}

/// Registering predecessors grows each successor list by the occurrences of
/// its node in the prefix.
pub proof fn lemma_add_deps_len(m: OrderModel, node: usize, ds: Seq<usize>, j: int)
    requires
        0 <= j <= ds.len(),
        node < m.n(),
        m.n() <= usize::MAX,
        m.succs.len() == m.n(),
        m.deps.len() == m.n(),
        forall|k: int| 0 <= k < ds.len() ==> (#[trigger] ds[k]) < m.n(),
    ensures
        forall|x: int|
            0 <= x < m.n() ==> add_deps(m, node, ds, j).succs[x].len() == m.succs[x].len()
                + occurrences(ds.take(j), x as usize),
    decreases j,
{
    if j > 0 {
        lemma_add_deps_len(m, node, ds, j - 1);
        lemma_add_deps_props(m, node, ds, j - 1);
        let prev = add_deps(m, node, ds, j - 1);
        let cur = add_deps(m, node, ds, j);
        let d = ds[j - 1];
        assert forall|x: int|
            0 <= x < m.n() implies cur.succs[x].len() == m.succs[x].len() + occurrences(
            ds.take(j),
            x as usize,
        ) by {
            assert(ds.take(j).drop_last() =~= ds.take(j - 1));
            assert(ds.take(j).last() == ds[j - 1]);
            assert(occurrences(ds.take(j), x as usize) == occurrences(ds.take(j - 1), x as usize)
                + (if d == x as usize {
                1int
            } else {
                0int
            }));
            if x == d as int {
                assert(cur.succs[x] == prev.succs[d as int].push(node));
            } else {
                assert(cur.succs[x] == prev.succs[x]);
                assert(d != x as usize);
            }
        }
    } else {
        assert forall|x: int|
            0 <= x < m.n() implies add_deps(m, node, ds, 0).succs[x].len() == m.succs[x].len()
                + occurrences(ds.take(0), x as usize) by {
            assert(ds.take(0) =~= Seq::<usize>::empty());
        }
    }
}

/// When no predecessor is measured, the unmet count is the whole list.
pub proof fn lemma_count_unmet_full(ds: Seq<usize>, status: Seq<OrderStatus>)
    requires
        forall|k: int| 0 <= k < ds.len() ==> (#[trigger] ds[k]) < status.len(),
        forall|k: int|
            0 <= k < ds.len() ==> status[(#[trigger] ds[k]) as int] != OrderStatus::Measured,
    ensures
        count_unmet(ds, status) == ds.len(),
    decreases ds.len(),
{
    if ds.len() > 0 {
        assert(forall|k: int| 0 <= k < ds.len() - 1 ==> ds.drop_last()[k] == ds[k]);
        lemma_count_unmet_full(ds.drop_last(), status);
    }
}

/// Appending keeps every element in place.
pub proof fn lemma_push_keeps_contains(s: Seq<usize>, x: usize, y: usize)
    requires
        s.contains(y),
    ensures
        s.push(x).contains(y),
{
    let w = choose|w: int| 0 <= w < s.len() && #[trigger] s[w] == y;
    assert(s.push(x)[w] == y);
}

/// After registering the first `j` predecessors of `node`, each of their
/// successor lists holds `node`.
pub proof fn lemma_add_deps_contains(m: OrderModel, node: usize, ds: Seq<usize>, j: int)
    requires
        0 <= j <= ds.len(),
        node < m.n(),
        m.succs.len() == m.n(),
        m.deps.len() == m.n(),
        forall|k: int| 0 <= k < ds.len() ==> (#[trigger] ds[k]) < m.n(),
    ensures
        forall|k: int|
            0 <= k < j ==> add_deps(m, node, ds, j).succs[(#[trigger] ds[k]) as int].contains(
                node,
            ),
    decreases j,
{
    if j > 0 {
        lemma_add_deps_contains(m, node, ds, j - 1);
        let prev = add_deps(m, node, ds, j - 1);
        let cur = add_deps(m, node, ds, j);
        lemma_add_deps_props(m, node, ds, j - 1);
        assert forall|k: int| 0 <= k < j implies cur.succs[(#[trigger] ds[k]) as int].contains(
            node,
        ) by {
            if k == j - 1 {
                assert(cur.succs[ds[k] as int] == prev.succs[ds[j - 1] as int].push(node));
                assert(cur.succs[ds[k] as int].last() == node);
            } else {
                assert(prev.succs[ds[k] as int].contains(node));
                if ds[k] == ds[j - 1] {
                    lemma_push_keeps_contains(prev.succs[ds[j - 1] as int], node, node);
                } else {
                    assert(cur.succs[ds[k] as int] == prev.succs[ds[k] as int]);
                }
            }
        }
    }
}

/// Builds the front for a well-formed layered order.
pub(crate) fn build_from_order(order: &PartialOrderGraph, num_nodes: usize) -> (g: PathGenerator)
    requires
        valid_order(order.view(), num_nodes as nat),
    ensures
        g.wf(),
        g.view() == build_model(order.view(), num_nodes as nat),
        g.view().n() == num_nodes,
        forall|v: int| 0 <= v < num_nodes ==> g.view().status[v] != OrderStatus::Measured,
        counters_sound(order.view(), g.view()),
        counters_exact(order.view(), g.view()),
{
    let ghost ov = order.view();
    let ghost n = num_nodes as nat;
    let mut succs = make_rows(num_nodes);
    let mut deps_count = make_zeros(num_nodes);
    let mut status = make_excluded(num_nodes);
    let mut measurable: Vec<usize> = Vec::new();
    let mut num_remaining: usize = 0;
    let mut num_pending: usize = 0;
    proof {
        lemma_count_all_excluded(status@);
        assert(model_of(succs@, deps_count@, status@, measurable@, 0, 0).succs =~= init_model(
            n,
        ).succs);
        assert(model_of(succs@, deps_count@, status@, measurable@, 0, 0).deps =~= init_model(
            n,
        ).deps);
        assert(model_of(succs@, deps_count@, status@, measurable@, 0, 0).status =~= init_model(
            n,
        ).status);
        assert(model_of(succs@, deps_count@, status@, measurable@, 0, 0).measurable =~= init_model(
            n,
        ).measurable);
        assert(model_of(succs@, deps_count@, status@, measurable@, 0, 0) == init_model(n));
        assert(init_model(n).wf());
        assert forall|x: usize| !mentioned_before(ov, 0, 0, x) by {
            if mentioned_before(ov, 0, 0, x) {
                let (l2, i2) = choose|l2: int, i2: int|
                    ((0 <= l2 < 0 && 0 <= i2 < ov[l2].len()) || (l2 == 0 && 0 <= i2 < 0))
                        && #[trigger] node_at(ov, l2, i2) == x;
            }
        }
    }
    let num_layers = order.0.len();
    let mut l: usize = 0;
    while l < num_layers
        invariant
            valid_order(ov, n),
            ov == order.view(),
            n == num_nodes as nat,
            l <= num_layers,
            num_layers == ov.len(),
            succs@.len() == num_nodes,
            deps_count@.len() == num_nodes,
            status@.len() == num_nodes,
            model_of(
                succs@,
                deps_count@,
                status@,
                measurable@,
                num_remaining as int,
                num_pending as int,
            ) == build_upto(ov, n, l as int),
            model_of(
                succs@,
                deps_count@,
                status@,
                measurable@,
                num_remaining as int,
                num_pending as int,
            ).wf(),
            forall|x: usize|
                x < num_nodes ==> ((status@[x as int] != OrderStatus::Excluded)
                    <==> mentioned_before(ov, l as int, 0, x)),
            forall|x: int|
                0 <= x < num_nodes && status@[x] == OrderStatus::Excluded ==> deps_count@[x] == 0,
            forall|x: int| 0 <= x < num_nodes ==> status@[x] != OrderStatus::Measured,
            forall|l2: int, i2: int|
                0 <= l2 < l && 0 <= i2 < ov[l2].len() ==> deps_count@[node_at(ov, l2, i2) as int]
                    == deps_at(ov, l2, i2).len(),
            forall|l2: int, i2: int, k: int|
                0 <= l2 < l && 0 <= i2 < ov[l2].len() && 0 <= k < deps_at(ov, l2, i2).len()
                    ==> succs@[(#[trigger] deps_at(ov, l2, i2)[k]) as int]@.contains(node_at(
                    ov,
                    l2,
                    i2,
                )),
            forall|u: int, q: int|
                0 <= u < num_nodes && 0 <= q < succs@[u]@.len() ==> succ_elem_from(
                    ov,
                    l as int,
                    0,
                    #[trigger] succs@[u]@[q],
                    u,
                ),
            forall|u: int, q1: int, q2: int|
                0 <= u < num_nodes && 0 <= q1 < q2 < succs@[u]@.len() ==> succs@[u]@[q1]
                    != succs@[u]@[q2],
        decreases num_layers - l,
    {
        let layer = &order.0[l];
        let layer_len = layer.len();
        proof {
            assert(layer@ == ov[l as int]);
        }
        let mut i: usize = 0;
        while i < layer_len
            invariant
                valid_order(ov, n),
                ov == order.view(),
                n == num_nodes as nat,
                l < num_layers,
                num_layers == ov.len(),
                layer@ == ov[l as int],
                layer_len == ov[l as int].len(),
                i <= layer_len,
                succs@.len() == num_nodes,
                deps_count@.len() == num_nodes,
                status@.len() == num_nodes,
                model_of(
                    succs@,
                    deps_count@,
                    status@,
                    measurable@,
                    num_remaining as int,
                    num_pending as int,
                ) == add_layer(build_upto(ov, n, l as int), ov[l as int], i as int),
                model_of(
                    succs@,
                    deps_count@,
                    status@,
                    measurable@,
                    num_remaining as int,
                    num_pending as int,
                ).wf(),
                forall|x: usize|
                    x < num_nodes ==> ((status@[x as int] != OrderStatus::Excluded)
                        <==> mentioned_before(ov, l as int, i as int, x)),
                forall|x: int|
                    0 <= x < num_nodes && status@[x] == OrderStatus::Excluded ==> deps_count@[x]
                        == 0,
                forall|x: int| 0 <= x < num_nodes ==> status@[x] != OrderStatus::Measured,
                forall|l2: int, i2: int|
                    (0 <= l2 < l && 0 <= i2 < ov[l2].len()) || (l2 == l && 0 <= i2 < i)
                        ==> deps_count@[node_at(ov, l2, i2) as int] == deps_at(ov, l2, i2).len(),
                forall|l2: int, i2: int, k: int|
                    ((0 <= l2 < l && 0 <= i2 < ov[l2].len()) || (l2 == l && 0 <= i2 < i)) && 0 <= k
                        < deps_at(ov, l2, i2).len() ==> succs@[(#[trigger] deps_at(
                        ov,
                        l2,
                        i2,
                    )[k]) as int]@.contains(node_at(ov, l2, i2)),
                forall|u: int, q: int|
                    0 <= u < num_nodes && 0 <= q < succs@[u]@.len() ==> succ_elem_from(
                        ov,
                        l as int,
                        i as int,
                        #[trigger] succs@[u]@[q],
                        u,
                    ),
                forall|u: int, q1: int, q2: int|
                    0 <= u < num_nodes && 0 <= q1 < q2 < succs@[u]@.len() ==> succs@[u]@[q1]
                        != succs@[u]@[q2],
            decreases layer_len - i,
        {
            let ghost m_entry = model_of(
                succs@,
                deps_count@,
                status@,
                measurable@,
                num_remaining as int,
                num_pending as int,
            );
            let e = &layer[i];
            let node = e.0;
            let ghost ds = deps_at(ov, l as int, i as int);
            proof {
                assert(*e == ov[l as int][i as int]);
                assert(node == node_at(ov, l as int, i as int));
                assert(e.1@ == ds);
                assert(entry_valid(ov, n, l as int, i as int));
                assert(status@[node as int] == OrderStatus::Excluded);
                assert(deps_count@[node as int] == 0);
                assert(forall|k: int| 0 <= k < ds.len() ==> (#[trigger] ds[k]) < n);
                assert(add_deps(m_entry, node, ds, 0) == m_entry);
            }
            let ds_len = e.1.len();
            let mut k: usize = 0;
            while k < ds_len
                invariant
                    k <= ds_len,
                    ds_len == ds.len(),
                    e.1@ == ds,
                    node < num_nodes,
                    n == num_nodes as nat,
                    forall|q: int| 0 <= q < ds.len() ==> (#[trigger] ds[q]) < n,
                    succs@.len() == num_nodes,
                    deps_count@.len() == num_nodes,
                    status@.len() == num_nodes,
                    m_entry.n() == num_nodes,
                    m_entry.succs.len() == num_nodes,
                    m_entry.deps.len() == num_nodes,
                    m_entry.status == status@,
                    m_entry.measurable == measurable@,
                    m_entry.remaining == num_remaining as int,
                    m_entry.pending == num_pending as int,
                    model_of(
                        succs@,
                        deps_count@,
                        status@,
                        measurable@,
                        num_remaining as int,
                        num_pending as int,
                    ) == add_deps(m_entry, node, ds, k as int),
                    deps_count@[node as int] == k,
                decreases ds_len - k,
            {
                let ghost m_k = add_deps(m_entry, node, ds, k as int);
                let d = e.1[k];
                proof {
                    assert(d == ds[k as int]);
                    assert(d < num_nodes);
                    lemma_add_deps_props(m_entry, node, ds, k as int);
                }
                push_at(&mut succs, d, node);
                let c = deps_count[node];
                deps_count.set(node, c + 1);
                proof {
                    let m_k1 = add_deps(m_entry, node, ds, k as int + 1);
                    let now = model_of(
                        succs@,
                        deps_count@,
                        status@,
                        measurable@,
                        num_remaining as int,
                        num_pending as int,
                    );
                    assert(now.succs =~= m_k.succs.update(d as int, m_k.succs[d as int].push(node)));
                    assert(now.deps =~= m_k.deps.update(node as int, m_k.deps[node as int] + 1));
                    assert(now == m_k1);
                }
                k += 1;
            }
            let ghost m1 = add_deps(m_entry, node, ds, ds.len() as int);
            proof {
                lemma_add_deps_props(m_entry, node, ds, ds.len() as int);
                lemma_count_unmeasured_excluded(status@, node as int);
                lemma_order_counts_bounded(status@);
                lemma_count_unmeasured_update(
                    status@,
                    node as int,
                    if ds.len() == 0 {
                        OrderStatus::Measurable
                    } else {
                        OrderStatus::Pending
                    },
                );
                lemma_count_pending_update(
                    status@,
                    node as int,
                    if ds.len() == 0 {
                        OrderStatus::Measurable
                    } else {
                        OrderStatus::Pending
                    },
                );
            }
            if ds_len == 0 {
                status.set(node, OrderStatus::Measurable);
                measurable.push(node);
                num_remaining += 1;
            } else {
                status.set(node, OrderStatus::Pending);
                num_remaining += 1;
                num_pending += 1;
            }
            proof {
                let now = model_of(
                    succs@,
                    deps_count@,
                    status@,
                    measurable@,
                    num_remaining as int,
                    num_pending as int,
                );
                assert(now == add_entry(m_entry, ov[l as int][i as int]));
                assert(add_layer(build_upto(ov, n, l as int), ov[l as int], i as int + 1)
                    == add_entry(
                    add_layer(build_upto(ov, n, l as int), ov[l as int], i as int),
                    ov[l as int][i as int],
                ));
                // the new model is well-formed
                assert(now.wf()) by {
                    assert forall|q: int|
                        0 <= q < now.measurable.len() implies #[trigger] now.measurable[q]
                        < num_nodes && now.status[now.measurable[q] as int]
                        == OrderStatus::Measurable by {
                        if q < m_entry.measurable.len() {
                            assert(m_entry.measurable[q] == now.measurable[q]);
                            assert(m_entry.status[m_entry.measurable[q] as int]
                                == OrderStatus::Measurable);
                            assert(now.measurable[q] != node);
                        } else {
                            assert(now.measurable[q] == node);
                        }
                    }
                    assert forall|x: usize|
                        x < num_nodes && now.status[x as int] == OrderStatus::Measurable implies now
                        .measurable
                        .contains(x) by {
                        if x == node {
                            assert(ds.len() == 0);
                            assert(now.measurable[now.measurable.len() - 1] == node);
                        } else {
                            assert(m_entry.status[x as int] == OrderStatus::Measurable);
                            assert(m_entry.measurable.contains(x));
                            let q = choose|q: int|
                                0 <= q < m_entry.measurable.len() && #[trigger] m_entry
                                    .measurable[q] == x;
                            assert(now.measurable[q] == x);
                        }
                    }
                    assert forall|q1: int, q2: int|
                        0 <= q1 < q2 < now.measurable.len() implies now.measurable[q1]
                        != now.measurable[q2] by {
                        if q2 == now.measurable.len() - 1 && now.measurable.len()
                            == m_entry.measurable.len() + 1 {
                            assert(now.measurable[q2] == node);
                            assert(m_entry.status[m_entry.measurable[q1] as int]
                                == OrderStatus::Measurable);
                        }
                    }
                    assert forall|x: int|
                        0 <= x < num_nodes implies ((now.status[x] == OrderStatus::Pending
                        ==> now.deps[x] > 0) && (now.status[x] == OrderStatus::Measurable
                        ==> now.deps[x] == 0)) by {
                        if x == node as int {
                            assert(now.deps[x] == m_entry.deps[x] + ds.len());
                            assert(m_entry.deps[x] == 0);
                        } else {
                            assert(now.deps[x] == m_entry.deps[x]);
                            assert(now.status[x] == m_entry.status[x]);
                        }
                    }
                }
                lemma_mentioned_step(ov, l as int, i as int);
                assert forall|x: int|
                    0 <= x < num_nodes && status@[x] == OrderStatus::Excluded implies deps_count@[x]
                    == 0 by {
                    assert(x != node as int);
                    assert(now.deps[x] == m_entry.deps[x]);
                    assert(now.deps[x] == deps_count@[x]);
                }
                lemma_add_deps_contains(m_entry, node, ds, ds.len() as int);
                assert forall|l2: int, i2: int|
                    (0 <= l2 < l && 0 <= i2 < ov[l2].len()) || (l2 == l as int && 0 <= i2 < i
                        + 1) implies deps_count@[node_at(ov, l2, i2) as int] == deps_at(
                    ov,
                    l2,
                    i2,
                ).len() by {
                    if l2 == l as int && i2 == i as int {
                        assert(node_at(ov, l2, i2) == node);
                        assert(now.deps[node as int] == m_entry.deps[node as int] + ds.len());
                    } else {
                        // an earlier node differs from the fresh one
                        assert(entry_valid(ov, n, l2, i2));
                        assert(mentioned_before(ov, l as int, i as int, node_at(ov, l2, i2)));
                        assert(node_at(ov, l2, i2) != node);
                        assert(now.deps[node_at(ov, l2, i2) as int] == m_entry.deps[node_at(
                            ov,
                            l2,
                            i2,
                        ) as int]);
                    }
                }
                lemma_add_deps_len(m_entry, node, ds, ds.len() as int);
                assert(ds.take(ds.len() as int) =~= ds);
                assert forall|u: int, q: int|
                    0 <= u < num_nodes && 0 <= q < succs@[u]@.len() implies succ_elem_from(
                    ov,
                    l as int,
                    i as int + 1,
                    #[trigger] succs@[u]@[q],
                    u,
                ) by {
                    assert(succs@[u]@ == now.succs[u]);
                    assert(now.succs[u][q] == (if q < m_entry.succs[u].len() {
                        m_entry.succs[u][q]
                    } else {
                        node
                    }));
                    if q < m_entry.succs[u].len() {
                        assert(succ_elem_from(ov, l as int, i as int, m_entry.succs[u][q], u));
                        let (l2, i2) = choose|l2: int, i2: int|
                            ((0 <= l2 < l && 0 <= i2 < ov[l2].len()) || (l2 == l as int && 0 <= i2
                                < i)) && #[trigger] node_at(ov, l2, i2) == m_entry.succs[u][q]
                                && deps_at(ov, l2, i2).contains(u as usize);
                        assert(((0 <= l2 < l && 0 <= i2 < ov[l2].len()) || (l2 == l as int && 0
                            <= i2 < i + 1)) && node_at(ov, l2, i2) == succs@[u]@[q] && deps_at(
                            ov,
                            l2,
                            i2,
                        ).contains(u as usize));
                    } else {
                        assert(occurrences(ds, u as usize) >= 1) by {
                            assert(now.succs[u].len() == m_entry.succs[u].len() + occurrences(
                                ds,
                                u as usize,
                            ));
                            lemma_occurrences_nonneg(ds, u as usize);
                        }
                        lemma_occurrences_contains(ds, u as usize);
                        assert(node_at(ov, l as int, i as int) == node && deps_at(
                            ov,
                            l as int,
                            i as int,
                        ).contains(u as usize));
                        assert(((0 <= (l as int) < l && 0 <= (i as int) < ov[l as int].len()) || (
                        (l as int) == l as int && 0 <= (i as int) < i + 1)) && node_at(
                            ov,
                            l as int,
                            i as int,
                        ) == succs@[u]@[q] && deps_at(ov, l as int, i as int).contains(u as usize));
                    }
                }
                assert forall|u: int, q1: int, q2: int|
                    0 <= u < num_nodes && 0 <= q1 < q2 < succs@[u]@.len() implies succs@[u]@[q1]
                    != succs@[u]@[q2] by {
                    assert(succs@[u]@ == now.succs[u]);
                    assert(now.succs[u].len() == m_entry.succs[u].len() + occurrences(
                        ds,
                        u as usize,
                    ));
                    lemma_occurrences_unique(ds, u as usize);
                    assert(now.succs[u][q2] == (if q2 < m_entry.succs[u].len() {
                        m_entry.succs[u][q2]
                    } else {
                        node
                    }));
                    assert(now.succs[u][q1] == (if q1 < m_entry.succs[u].len() {
                        m_entry.succs[u][q1]
                    } else {
                        node
                    }));
                    if q2 < m_entry.succs[u].len() {
                        assert(m_entry.succs[u][q1] != m_entry.succs[u][q2]);
                    } else {
                        assert(q1 < m_entry.succs[u].len());
                        assert(succ_elem_from(ov, l as int, i as int, m_entry.succs[u][q1], u));
                        let (l2, i2) = choose|l2: int, i2: int|
                            ((0 <= l2 < l && 0 <= i2 < ov[l2].len()) || (l2 == l as int && 0 <= i2
                                < i)) && #[trigger] node_at(ov, l2, i2) == m_entry.succs[u][q1]
                                && deps_at(ov, l2, i2).contains(u as usize);
                        assert(mentioned_before(ov, l as int, i as int, m_entry.succs[u][q1]));
                        assert(m_entry.succs[u][q1] != node);
                    }
                }
                assert forall|l2: int, i2: int, k: int|
                    ((0 <= l2 < l && 0 <= i2 < ov[l2].len()) || (l2 == l as int && 0 <= i2 < i
                        + 1)) && 0 <= k < deps_at(ov, l2, i2).len() implies succs@[(
                #[trigger] deps_at(ov, l2, i2)[k]) as int]@.contains(node_at(ov, l2, i2)) by {
                    assert(entry_valid(ov, n, l2, i2));
                    let d = deps_at(ov, l2, i2)[k];
                    assert(d < n);
                    if l2 == l as int && i2 == i as int {
                        assert(now.succs[d as int].contains(node));
                        assert(now.succs[d as int] == succs@[d as int]@);
                    } else {
                        assert(m_entry.succs[d as int].contains(node_at(ov, l2, i2)));
                        let w = choose|w: int|
                            0 <= w < m_entry.succs[d as int].len() && #[trigger] m_entry.succs[
                                d as int][w] == node_at(ov, l2, i2);
                        assert(now.succs[d as int][w] == (if w < m_entry.succs[d as int].len() {
                            m_entry.succs[d as int][w]
                        } else {
                            node
                        }));
                        assert(now.succs[d as int].contains(node_at(ov, l2, i2)));
                        assert(now.succs[d as int] == succs@[d as int]@);
                    }
                }
            }
            i += 1;
        }
        proof {
            lemma_mentioned_layer(ov, l as int);
            assert(add_layer(build_upto(ov, n, l as int), ov[l as int], ov[l as int].len() as int)
                == build_upto(ov, n, l as int + 1));
        }
        l += 1;
    }
    let g = PathGenerator { succs, deps_count, status, measurable, num_remaining, num_pending };
    proof {
        assert(g.view() == build_upto(ov, n, num_layers as int));
        let gm = g.view();
        assert forall|l2: int, i2: int|
            0 <= l2 < ov.len() && 0 <= i2 < ov[l2].len() implies node_at(ov, l2, i2) < gm.n()
            && gm.deps[node_at(ov, l2, i2) as int] <= count_unmet(
            #[trigger] deps_at(ov, l2, i2),
            gm.status,
        ) by {
            assert(entry_valid(ov, n, l2, i2));
            assert(gm.deps[node_at(ov, l2, i2) as int] == deps_at(ov, l2, i2).len());
            lemma_count_unmet_full(deps_at(ov, l2, i2), gm.status);
        }
        assert forall|l2: int, i2: int, k: int|
            0 <= l2 < ov.len() && 0 <= i2 < ov[l2].len() && 0 <= k < deps_at(ov, l2, i2).len()
            implies (#[trigger] deps_at(ov, l2, i2)[k]) < gm.n() && gm.succs[deps_at(
            ov,
            l2,
            i2,
        )[k] as int].contains(node_at(ov, l2, i2)) by {
            assert(entry_valid(ov, n, l2, i2));
            let d = deps_at(ov, l2, i2)[k];
            assert(succs@[d as int]@.contains(node_at(ov, l2, i2)));
            assert(gm.succs[d as int] == succs@[d as int]@);
        }
        assert forall|x: usize| x < gm.n() implies ((gm.status[x as int] != OrderStatus::Excluded)
            <==> mentioned_in(ov, x)) by {
            assert((status@[x as int] != OrderStatus::Excluded) <==> mentioned_before(
                ov,
                num_layers as int,
                0,
                x,
            ));
        }
        assert(counters_sound(ov, gm));
        assert forall|l2: int, i2: int|
            0 <= l2 < ov.len() && 0 <= i2 < ov[l2].len() implies gm.deps[node_at(
            ov,
            l2,
            i2,
        ) as int] >= count_unmet(#[trigger] deps_at(ov, l2, i2), gm.status) by {
            assert(entry_valid(ov, n, l2, i2));
            assert(gm.deps[node_at(ov, l2, i2) as int] == deps_at(ov, l2, i2).len());
            lemma_count_unmet_full(deps_at(ov, l2, i2), gm.status);
        }
        assert forall|u: int, q: int|
            0 <= u < gm.n() && 0 <= q < gm.succs[u].len() implies succ_entry_ok(ov, gm, u, q) by {
            assert(gm.succs[u] == succs@[u]@);
            assert(succ_elem_from(ov, num_layers as int, 0, succs@[u]@[q], u));
            let (l2, i2) = choose|l2: int, i2: int|
                ((0 <= l2 < num_layers as int && 0 <= i2 < ov[l2].len()) || (l2
                    == num_layers as int && 0 <= i2 < 0)) && #[trigger] node_at(ov, l2, i2)
                    == succs@[u]@[q] && deps_at(ov, l2, i2).contains(u as usize);
            assert(0 <= l2 < ov.len() && 0 <= i2 < ov[l2].len() && node_at(ov, l2, i2)
                == gm.succs[u][q] && deps_at(ov, l2, i2).contains(u as usize));
        }
        assert forall|u: int, q1: int, q2: int|
            0 <= u < gm.n() && 0 <= q1 < q2 < gm.succs[u].len() implies gm.succs[u][q1]
            != gm.succs[u][q2] by {
            assert(gm.succs[u] == succs@[u]@);
        }
        assert(counters_exact(ov, gm));
    }
    g
}

impl PathGenerator {
    /// Builds the front from the caller's layered order over `num_nodes`
    /// nodes, rejecting an order that names a node outside the graph, lists
    /// one twice, or lists a predecessor that no earlier layer defines.
    pub fn from_dependency_graph(order: &PartialOrderGraph, num_nodes: usize) -> (r: Result<
        PathGenerator,
        InputError,
    >)
        ensures
            r matches Ok(g) ==> valid_order(order.view(), num_nodes as nat) && g.wf() && g.view()
                == build_model(order.view(), num_nodes as nat) && g.view().n() == num_nodes
                && counters_sound(order.view(), g.view()) && counters_exact(
                order.view(),
                g.view(),
            ) && forall|v: int|
                0 <= v < num_nodes ==> g.view().status[v] != OrderStatus::Measured,
            r is Err <==> !valid_order(order.view(), num_nodes as nat),
            r matches Err(e) ==> ((e matches InputError::MissingInput(v) ==> missing_in_order(
                order.view(),
                num_nodes as nat,
                v,
            )) && (e matches InputError::DuplicateNode(v) ==> duplicate_in_order(
                order.view(),
                v,
            ))),
    {
        match check_order(order, num_nodes) {
            Ok(()) => Ok(build_from_order(order, num_nodes)),
            Err(e) => Err(e),
        }
    }
}

/// How often `x` occurs in `s`.
pub open spec fn occurrences(s: Seq<usize>, x: usize) -> int
    decreases s.len(),
{
    if s.len() == 0 {
        0
    } else {
        occurrences(s.drop_last(), x) + if s.last() == x {
            1int
        } else {
            0int
        }
    }
}

/// How many entries of the predecessor list `ds` are not yet measured.
pub open spec fn count_unmet(ds: Seq<usize>, status: Seq<OrderStatus>) -> int
    decreases ds.len(),
{
    if ds.len() == 0 {
        0
    } else {
        count_unmet(ds.drop_last(), status) + if ds.last() < status.len() && status[ds.last() as int]
            != OrderStatus::Measured {
            1int
        } else {
            0int
        }
    }
}

/// `x` is the node of some entry of the order.
pub open spec fn mentioned_in(order: Seq<Seq<(usize, Vec<usize>)>>, x: usize) -> bool {
    mentioned_before(order, order.len() as int, 0, x)
}

/// The model's bookkeeping is sound for the order it was built from: each
/// node's counter never exceeds its number of unmet predecessors, each
/// predecessor list is wired into the successor lists, and exactly the
/// mentioned nodes take part.
pub open spec fn counters_sound(order: Seq<Seq<(usize, Vec<usize>)>>, m: OrderModel) -> bool {
    &&& forall|l: int, i: int|
        0 <= l < order.len() && 0 <= i < order[l].len() ==> node_at(order, l, i) < m.n()
            && m.deps[node_at(order, l, i) as int] <= count_unmet(
            #[trigger] deps_at(order, l, i),
            m.status,
        )
    &&& forall|l: int, i: int, k: int|
        0 <= l < order.len() && 0 <= i < order[l].len() && 0 <= k < deps_at(order, l, i).len()
            ==> (#[trigger] deps_at(order, l, i)[k]) < m.n() && m.succs[deps_at(
            order,
            l,
            i,
        )[k] as int].contains(node_at(order, l, i))
    &&& forall|x: usize|
        x < m.n() ==> ((m.status[x as int] != OrderStatus::Excluded) <==> mentioned_in(order, x))
}

pub proof fn lemma_count_unmet_bounds(ds: Seq<usize>, status: Seq<OrderStatus>)
    ensures
        0 <= count_unmet(ds, status) <= ds.len(),
    decreases ds.len(),
{
    if ds.len() > 0 {
        lemma_count_unmet_bounds(ds.drop_last(), status);
    }
}

/// An unmeasured predecessor makes the unmet count positive.
pub proof fn lemma_count_unmet_pos(ds: Seq<usize>, status: Seq<OrderStatus>, k: int)
    requires
        0 <= k < ds.len(),
        ds[k] < status.len(),
        status[ds[k] as int] != OrderStatus::Measured,
    ensures
        count_unmet(ds, status) >= 1,
    decreases ds.len(),
{
    if k < ds.len() - 1 {
        lemma_count_unmet_pos(ds.drop_last(), status, k);
    } else {
        lemma_count_unmet_bounds(ds.drop_last(), status);
    }
}

/// A positive unmet count names an unmeasured predecessor.
pub proof fn lemma_count_unmet_witness(ds: Seq<usize>, status: Seq<OrderStatus>) -> (k: int)
    requires
        count_unmet(ds, status) > 0,
    ensures
        0 <= k < ds.len(),
        ds[k] < status.len(),
        status[ds[k] as int] != OrderStatus::Measured,
    decreases ds.len(),
{
    if ds.last() < status.len() && status[ds.last() as int] != OrderStatus::Measured {
        ds.len() - 1
    } else {
        lemma_count_unmet_witness(ds.drop_last(), status)
    }
}

/// Measuring a node lowers each unmet count by its occurrences in the list.
pub proof fn lemma_count_unmet_measure(ds: Seq<usize>, status: Seq<OrderStatus>, v: usize)
    requires
        v < status.len(),
        status[v as int] != OrderStatus::Measured,
    ensures
        count_unmet(ds, status.update(v as int, OrderStatus::Measured)) == count_unmet(ds, status)
            - occurrences(ds, v),
    decreases ds.len(),
{
    if ds.len() > 0 {
        lemma_count_unmet_measure(ds.drop_last(), status, v);
    }
}

/// A positive pending count names a node with unmet predecessors.
pub proof fn lemma_count_pending_witness(s: Seq<OrderStatus>) -> (i: int)
    requires
        count_pending(s) > 0,
    ensures
        0 <= i < s.len(),
        s[i] == OrderStatus::Pending,
    decreases s.len(),
{
    if s.last() == OrderStatus::Pending {
        s.len() - 1
    } else {
        lemma_count_pending_witness(s.drop_last())
    }
}

/// A positive unmeasured count names an unmeasured node.
pub proof fn lemma_count_unmeasured_witness(s: Seq<OrderStatus>) -> (i: int)
    requires
        count_unmeasured(s) > 0,
    ensures
        0 <= i < s.len(),
        s[i] == OrderStatus::Pending || s[i] == OrderStatus::Measurable,
    decreases s.len(),
{
    if s.last() == OrderStatus::Pending || s.last() == OrderStatus::Measurable {
        s.len() - 1
    } else {
        lemma_count_unmeasured_witness(s.drop_last())
    }
}

/// A sequence holds each of its entries at least once.
pub proof fn lemma_occurrences_member(s: Seq<usize>, k: int)
    requires
        0 <= k < s.len(),
    ensures
        occurrences(s, s[k]) >= 1,
    decreases s.len(),
{
    if k < s.len() - 1 {
        assert(s.drop_last()[k] == s[k]);
        lemma_occurrences_member(s.drop_last(), k);
    } else {
        lemma_occurrences_nonneg(s.drop_last(), s[k]);
    }
}

pub proof fn lemma_occurrences_nonneg(s: Seq<usize>, x: usize)
    ensures
        occurrences(s, x) >= 0,
    decreases s.len(),
{
    if s.len() > 0 {
        lemma_occurrences_nonneg(s.drop_last(), x);
    }
}

/// A value absent from a sequence occurs zero times.
pub proof fn lemma_occurrences_zero(s: Seq<usize>, x: usize)
    requires
        !s.contains(x),
    ensures
        occurrences(s, x) == 0,
    decreases s.len(),
{
    if s.len() > 0 {
        assert(!s.drop_last().contains(x)) by {
            if s.drop_last().contains(x) {
                let w = choose|w: int| 0 <= w < s.len() - 1 && #[trigger] s.drop_last()[w] == x;
                assert(s[w] == x);
            }
        }
        assert(s.last() != x) by {
            assert(s[s.len() - 1] == s.last());
        }
        lemma_occurrences_zero(s.drop_last(), x);
    }
}

/// In a list that never repeats an entry, nothing occurs twice.
pub proof fn lemma_occurrences_unique(s: Seq<usize>, x: usize)
    requires
        forall|k: int| 0 <= k < s.len() ==> !s.take(k).contains(#[trigger] s[k]),
    ensures
        occurrences(s, x) <= 1,
    decreases s.len(),
{
    if s.len() > 0 {
        assert(forall|k: int|
            0 <= k < s.len() - 1 ==> s.drop_last()[k] == s[k] && s.drop_last().take(k)
                =~= s.take(k));
        lemma_occurrences_unique(s.drop_last(), x);
        if s.last() == x {
            assert(!s.take(s.len() - 1).contains(s[s.len() - 1]));
            assert(s.take(s.len() - 1) =~= s.drop_last());
            lemma_occurrences_zero(s.drop_last(), x);
        }
    }
}

/// Unmet counts only depend on which nodes are measured.
pub proof fn lemma_count_unmet_congruent(ds: Seq<usize>, s1: Seq<OrderStatus>, s2: Seq<OrderStatus>)
    requires
        s1.len() == s2.len(),
        forall|x: int|
            0 <= x < s1.len() ==> ((s1[x] == OrderStatus::Measured) <==> (#[trigger] s2[x]
                == OrderStatus::Measured)),
    ensures
        count_unmet(ds, s1) == count_unmet(ds, s2),
    decreases ds.len(),
{
    if ds.len() > 0 {
        lemma_count_unmet_congruent(ds.drop_last(), s1, s2);
    }
}

/// Releasing a successor list never raises a counter, and lowers the
/// counter of every listed node that had room to drop.
pub proof fn lemma_release_list_deps(m: OrderModel, succ: Seq<usize>, j: int)
    requires
        m.wf(),
        0 <= j <= succ.len(),
    ensures
        forall|x: int|
            0 <= x < m.deps.len() ==> m.release_list(succ, j).deps[x] <= m.deps[x] && (m.deps[x]
                >= 0 ==> #[trigger] m.release_list(succ, j).deps[x] >= 0),
        forall|t: usize|
            succ.take(j).contains(t) && t < m.n() && m.deps[t as int] >= 1 ==> m.release_list(
                succ,
                j,
            ).deps[t as int] <= m.deps[t as int] - 1,
    decreases j,
{
    if j > 0 {
        lemma_release_list_deps(m, succ, j - 1);
        lemma_release_list_props(m, succ, j - 1);
        let prev = m.release_list(succ, j - 1);
        let cur = m.release_list(succ, j);
        let e = succ[j - 1];
        assert(cur == prev.release_one(e));
        assert forall|t: usize|
            succ.take(j).contains(t) && t < m.n() && m.deps[t as int] >= 1 implies cur.deps[
        t as int] <= m.deps[t as int] - 1 by {
            if succ.take(j - 1).contains(t) {
                assert(prev.deps[t as int] <= m.deps[t as int] - 1);
            } else {
                let w = choose|w: int| 0 <= w < j && #[trigger] succ.take(j)[w] == t;
                if w < j - 1 {
                    assert(succ.take(j - 1)[w] == t);
                    assert(succ.take(j - 1).contains(t));
                } else {
                    assert(t == e);
                    if prev.deps[t as int] > 0 {
                        assert(cur.deps[t as int] == prev.deps[t as int] - 1);
                    } else {
                        assert(cur.deps[t as int] == prev.deps[t as int]);
                    }
                }
            }
        }
    }
}

/// Measuring a measurable node keeps the bookkeeping sound.
#[verifier::spinoff_prover]
#[verifier::rlimit(60)]
pub proof fn lemma_measure_preserves_sound(
    order: Seq<Seq<(usize, Vec<usize>)>>,
    m: OrderModel,
    v: usize,
)
    requires
        m.wf(),
        valid_order(order, m.n()),
        counters_sound(order, m),
        forall|x: int| 0 <= x < m.deps.len() ==> #[trigger] m.deps[x] >= 0,
        v < m.n(),
        m.status[v as int] == OrderStatus::Measurable,
    ensures
        counters_sound(order, m.measure_node(v)),
        forall|x: int|
            0 <= x < m.deps.len() ==> #[trigger] m.measure_node(v).deps[x] >= 0,
    {
        lemma_measure_node_props(m, v);
        let mid = OrderModel {
            status: m.status.update(v as int, OrderStatus::Measured),
            measurable: remove_first(m.measurable, v),
            remaining: m.remaining - 1,
            ..m
        };
        let succ_v = m.succs[v as int];
        let fin = m.measure_node(v);
        assert(fin == mid.release_list(succ_v, succ_v.len() as int));
        assert(mid.wf()) by {
            lemma_count_unmeasured_pos(m.status, v as int);
            lemma_count_unmeasured_update(m.status, v as int, OrderStatus::Measured);
            lemma_count_pending_update(m.status, v as int, OrderStatus::Measured);
            lemma_remove_first(m.measurable, v);
            assert forall|i: int|
                0 <= i < mid.measurable.len() implies #[trigger] mid.measurable[i] < mid.n()
                    && mid.status[mid.measurable[i] as int] == OrderStatus::Measurable by {
                assert(m.measurable.contains(mid.measurable[i]));
                assert(mid.measurable.contains(mid.measurable[i]));
                assert(mid.measurable[i] != v);
            }
            assert forall|x: usize|
                x < mid.n() && mid.status[x as int] == OrderStatus::Measurable implies mid
                .measurable
                .contains(x) by {
                assert(x != v);
                assert(m.status[x as int] == OrderStatus::Measurable);
                assert(m.measurable.contains(x));
            }
        }
        lemma_release_list_deps(mid, succ_v, succ_v.len() as int);
        lemma_release_list_props(mid, succ_v, succ_v.len() as int);
        assert(succ_v.take(succ_v.len() as int) =~= succ_v);
        // measured nodes after the releases are those of the middle state
        assert forall|x: int|
            0 <= x < m.n() implies ((fin.status[x] == OrderStatus::Measured) <==> (mid.status[x]
            == OrderStatus::Measured)) by {
            assert(fin.status[x] == mid.status[x] || (mid.status[x] == OrderStatus::Pending
                && fin.status[x] == OrderStatus::Measurable));
        }
        // each entry's counter stays below its unmet count
        assert forall|l: int, i: int|
            0 <= l < order.len() && 0 <= i < order[l].len() implies node_at(order, l, i) < fin.n()
            && fin.deps[node_at(order, l, i) as int] <= count_unmet(
            #[trigger] deps_at(order, l, i),
            fin.status,
        ) by {
            let t = node_at(order, l, i);
            let ds = deps_at(order, l, i);
            assert(entry_valid(order, m.n(), l, i));
            assert(m.deps[t as int] <= count_unmet(ds, m.status));
            lemma_count_unmet_congruent(ds, fin.status, mid.status);
            lemma_count_unmet_measure(ds, m.status, v);
            if ds.contains(v) {
                let k = choose|k: int| 0 <= k < ds.len() && #[trigger] ds[k] == v;
                lemma_occurrences_member(ds, k);
                lemma_occurrences_unique(ds, v);
                assert(occurrences(ds, v) == 1);
                assert(count_unmet(ds, mid.status) == count_unmet(ds, m.status) - 1);
                assert(mid.succs[v as int].contains(t));
                if m.deps[t as int] >= 1 {
                    assert(fin.deps[t as int] <= mid.deps[t as int] - 1);
                } else {
                    assert(fin.deps[t as int] <= 0);
                    lemma_count_unmet_pos(ds, m.status, k);
                }
            } else {
                lemma_occurrences_zero(ds, v);
                assert(count_unmet(ds, mid.status) == count_unmet(ds, m.status));
                assert(fin.deps[t as int] <= mid.deps[t as int]);
            }
        }
        // the successor wiring and the mentioned set are untouched
        assert forall|l: int, i: int, k: int|
            0 <= l < order.len() && 0 <= i < order[l].len() && 0 <= k < deps_at(order, l, i).len()
            implies (#[trigger] deps_at(order, l, i)[k]) < fin.n() && fin.succs[deps_at(
            order,
            l,
            i,
        )[k] as int].contains(node_at(order, l, i)) by {
            assert(m.succs[deps_at(order, l, i)[k] as int].contains(node_at(order, l, i)));
            assert(fin.succs == m.succs);
        }
        assert forall|x: usize|
            x < fin.n() implies ((fin.status[x as int] != OrderStatus::Excluded)
            <==> mentioned_in(order, x)) by {
            assert(fin.status[x as int] == mid.status[x as int] || (mid.status[x as int]
                == OrderStatus::Pending && fin.status[x as int] == OrderStatus::Measurable));
            assert((m.status[x as int] != OrderStatus::Excluded) <==> mentioned_in(order, x));
        }
        assert(counters_sound(order, fin));
    }

/// Measuring an admissible step prefix keeps the bookkeeping sound.
pub proof fn lemma_focus_preserves_sound(
    order: Seq<Seq<(usize, Vec<usize>)>>,
    m: OrderModel,
    s: Seq<usize>,
    k: int,
)
    requires
        m.wf(),
        valid_order(order, m.n()),
        counters_sound(order, m),
        forall|x: int| 0 <= x < m.deps.len() ==> #[trigger] m.deps[x] >= 0,
        m.step_admissible(s),
        0 <= k <= s.len(),
    ensures
        counters_sound(order, m.focus(s, k)),
        forall|x: int| 0 <= x < m.deps.len() ==> #[trigger] m.focus(s, k).deps[x] >= 0,
    decreases k,
{
    if k > 0 {
        lemma_focus_preserves_sound(order, m, s, k - 1);
        lemma_focus_props(m, s, k - 1);
        let f = m.focus(s, k - 1);
        let v = s[k - 1];
        assert(v < m.n() && m.status[v as int] == OrderStatus::Measurable && !s.take(
            k - 1,
        ).contains(v));
        assert(f.status[v as int] == OrderStatus::Measurable);
        assert(f.deps.len() == m.deps.len()) by {
            lemma_focus_props(m, s, k - 1);
        }
        lemma_measure_preserves_sound(order, f, v);
        lemma_measure_node_props(f, v);
    }
}

/// With sound bookkeeping and an empty measurable front, every node of the
/// first `l` layers is measured: a front can only dry up when it is done.
pub proof fn lemma_layers_all_measured(order: Seq<Seq<(usize, Vec<usize>)>>, m: OrderModel, l: int)
    requires
        m.wf(),
        valid_order(order, m.n()),
        counters_sound(order, m),
        m.measurable.len() == 0,
        0 <= l <= order.len(),
    ensures
        forall|l2: int, i2: int|
            0 <= l2 < l && 0 <= i2 < order[l2].len() ==> m.status[node_at(order, l2, i2) as int]
                == OrderStatus::Measured,
    decreases l,
{
    if l > 0 {
        lemma_layers_all_measured(order, m, l - 1);
        assert forall|i2: int| 0 <= i2 < order[l - 1].len() implies m.status[(#[trigger] node_at(
            order,
            l - 1,
            i2,
        )) as int] == OrderStatus::Measured by {
            let t = node_at(order, l - 1, i2);
            assert(entry_valid(order, m.n(), l - 1, i2));
            assert(t < m.n());
            assert(mentioned_in(order, t)) by {
                assert(((0 <= l - 1 < order.len() as int && 0 <= i2 < order[l - 1].len()) || (l - 1
                    == order.len() as int && 0 <= i2 < 0)) && node_at(order, l - 1, i2) == t);
            }
            assert(m.status[t as int] != OrderStatus::Excluded);
            if m.status[t as int] == OrderStatus::Measurable {
                assert(m.measurable.contains(t));
                let w = choose|w: int| 0 <= w < m.measurable.len() && #[trigger] m.measurable[w] == t;
                assert(false);
            }
            if m.status[t as int] == OrderStatus::Pending {
                assert(m.deps[t as int] > 0);
                let ds = deps_at(order, l - 1, i2);
                assert(m.deps[t as int] <= count_unmet(ds, m.status));
                let k = lemma_count_unmet_witness(ds, m.status);
                let d = ds[k];
                assert(mentioned_before(order, (l - 1) as int, 0, d));
                let (l3, i3) = choose|l3: int, i3: int|
                    ((0 <= l3 < l - 1 && 0 <= i3 < order[l3].len()) || (l3 == l - 1 && 0 <= i3 < 0))
                        && #[trigger] node_at(order, l3, i3) == d;
                assert(m.status[d as int] == OrderStatus::Measured);
                assert(false);
            }
        }
    }
}

/// With sound bookkeeping, an empty measurable front means the order is
/// fully measured: the front never deadlocks.
pub proof fn lemma_no_deadlock(order: Seq<Seq<(usize, Vec<usize>)>>, m: OrderModel)
    requires
        m.wf(),
        m.n() <= usize::MAX,
        valid_order(order, m.n()),
        counters_sound(order, m),
        m.measurable.len() == 0,
    ensures
        m.remaining == 0,
{
    lemma_layers_all_measured(order, m, order.len() as int);
    lemma_order_counts_bounded(m.status);
    if m.remaining > 0 {
        let i = lemma_count_unmeasured_witness(m.status);
        let x = i as usize;
        assert(m.status[x as int] != OrderStatus::Excluded);
        assert(mentioned_in(order, x));
        let (l2, i2) = choose|l2: int, i2: int|
            ((0 <= l2 < order.len() as int && 0 <= i2 < order[l2].len()) || (l2
                == order.len() as int && 0 <= i2 < 0)) && #[trigger] node_at(order, l2, i2) == x;
        assert(m.status[x as int] == OrderStatus::Measured);
        assert(false);
    }
}

/// Entry `q` of `u`'s successor list is a node whose predecessor list names
/// `u`.
pub open spec fn succ_entry_ok(
    order: Seq<Seq<(usize, Vec<usize>)>>,
    m: OrderModel,
    u: int,
    q: int,
) -> bool {
    exists|l: int, i: int|
        0 <= l < order.len() && 0 <= i < order[l].len() && #[trigger] node_at(order, l, i)
            == m.succs[u][q] && deps_at(order, l, i).contains(u as usize)
}

/// The model's bookkeeping is exact for the order it was built from: each
/// counter equals its number of unmet predecessors, and each successor list
/// names exactly the nodes that wait on it, once each.
pub open spec fn counters_exact(order: Seq<Seq<(usize, Vec<usize>)>>, m: OrderModel) -> bool {
    &&& counters_sound(order, m)
    &&& forall|l: int, i: int|
        0 <= l < order.len() && 0 <= i < order[l].len() ==> m.deps[node_at(order, l, i) as int]
            >= count_unmet(#[trigger] deps_at(order, l, i), m.status)
    &&& forall|u: int, q: int|
        0 <= u < m.n() && 0 <= q < m.succs[u].len() ==> succ_entry_ok(order, m, u, q)
    &&& forall|u: int, q1: int, q2: int|
        0 <= u < m.n() && 0 <= q1 < q2 < m.succs[u].len() ==> m.succs[u][q1] != m.succs[u][q2]
}

/// A node names at most one entry of a well-formed order.
pub proof fn lemma_node_unique(
    order: Seq<Seq<(usize, Vec<usize>)>>,
    n: nat,
    l1: int,
    i1: int,
    l2: int,
    i2: int,
)
    requires
        valid_order(order, n),
        0 <= l1 < order.len(),
        0 <= i1 < order[l1].len(),
        0 <= l2 < order.len(),
        0 <= i2 < order[l2].len(),
        node_at(order, l1, i1) == node_at(order, l2, i2),
    ensures
        l1 == l2 && i1 == i2,
{
    if l1 < l2 || (l1 == l2 && i1 < i2) {
        assert(entry_valid(order, n, l2, i2));
        assert(((0 <= l1 < l2 && 0 <= i1 < order[l1].len()) || (l1 == l2 && 0 <= i1 < i2))
            && node_at(order, l1, i1) == node_at(order, l2, i2));
        assert(mentioned_before(order, l2, i2, node_at(order, l2, i2)));
    } else if l2 < l1 || (l1 == l2 && i2 < i1) {
        assert(entry_valid(order, n, l1, i1));
        assert(((0 <= l2 < l1 && 0 <= i2 < order[l2].len()) || (l2 == l1 && 0 <= i2 < i1))
            && node_at(order, l2, i2) == node_at(order, l1, i1));
        assert(mentioned_before(order, l1, i1, node_at(order, l1, i1)));
    }
}

/// Releasing a duplicate-free successor list lowers each listed node's
/// positive counter by exactly one and touches nothing else.
pub proof fn lemma_release_list_deps_exact(m: OrderModel, succ: Seq<usize>, j: int)
    requires
        m.wf(),
        0 <= j <= succ.len(),
        forall|q1: int, q2: int| 0 <= q1 < q2 < succ.len() ==> succ[q1] != succ[q2],
    ensures
        forall|t: usize|
            t < m.n() ==> m.release_list(succ, j).deps[t as int] == (if succ.take(j).contains(t)
                && m.deps[t as int] > 0 {
                m.deps[t as int] - 1
            } else {
                m.deps[t as int]
            }),
    decreases j,
{
    if j > 0 {
        lemma_release_list_deps_exact(m, succ, j - 1);
        lemma_release_list_props(m, succ, j - 1);
        let prev = m.release_list(succ, j - 1);
        let cur = m.release_list(succ, j);
        let e = succ[j - 1];
        assert(cur == prev.release_one(e));
        assert(!succ.take(j - 1).contains(e)) by {
            if succ.take(j - 1).contains(e) {
                let w = choose|w: int| 0 <= w < j - 1 && #[trigger] succ.take(j - 1)[w] == e;
                assert(succ[w] == e);
            }
        }
        assert forall|t: usize| t < m.n() implies cur.deps[t as int] == (if succ.take(j).contains(
            t,
        ) && m.deps[t as int] > 0 {
            m.deps[t as int] - 1
        } else {
            m.deps[t as int]
        }) by {
            if t == e {
                assert(prev.deps[t as int] == m.deps[t as int]);
                assert(succ.take(j)[j - 1] == e);
                assert(succ.take(j).contains(t));
            } else {
                assert(cur.deps[t as int] == prev.deps[t as int]);
                if succ.take(j).contains(t) {
                    let w = choose|w: int| 0 <= w < j && #[trigger] succ.take(j)[w] == t;
                    assert(w < j - 1);
                    assert(succ.take(j - 1)[w] == t);
                    assert(succ.take(j - 1).contains(t));
                }
                if succ.take(j - 1).contains(t) {
                    let w = choose|w: int| 0 <= w < j - 1 && #[trigger] succ.take(j - 1)[w] == t;
                    assert(succ.take(j)[w] == t);
                    assert(succ.take(j).contains(t));
                }
            }
        }
    }
}

/// Measuring a measurable node keeps the bookkeeping exact.
pub proof fn lemma_measure_preserves_exact(
    order: Seq<Seq<(usize, Vec<usize>)>>,
    m: OrderModel,
    v: usize,
)
    requires
        m.wf(),
        m.n() <= usize::MAX,
        valid_order(order, m.n()),
        counters_exact(order, m),
        forall|x: int| 0 <= x < m.deps.len() ==> #[trigger] m.deps[x] >= 0,
        v < m.n(),
        m.status[v as int] == OrderStatus::Measurable,
    ensures
        counters_exact(order, m.measure_node(v)),
        forall|x: int| 0 <= x < m.deps.len() ==> #[trigger] m.measure_node(v).deps[x] >= 0,
{
    lemma_measure_preserves_sound(order, m, v);
    lemma_measure_node_props(m, v);
    let mid = OrderModel {
        status: m.status.update(v as int, OrderStatus::Measured),
        measurable: remove_first(m.measurable, v),
        remaining: m.remaining - 1,
        ..m
    };
    let succ_v = m.succs[v as int];
    let fin = m.measure_node(v);
    assert(fin == mid.release_list(succ_v, succ_v.len() as int));
    assert(mid.wf()) by {
        lemma_count_unmeasured_pos(m.status, v as int);
        lemma_count_unmeasured_update(m.status, v as int, OrderStatus::Measured);
        lemma_count_pending_update(m.status, v as int, OrderStatus::Measured);
        lemma_remove_first(m.measurable, v);
        assert forall|i: int|
            0 <= i < mid.measurable.len() implies #[trigger] mid.measurable[i] < mid.n()
                && mid.status[mid.measurable[i] as int] == OrderStatus::Measurable by {
            assert(m.measurable.contains(mid.measurable[i]));
            assert(mid.measurable.contains(mid.measurable[i]));
            assert(mid.measurable[i] != v);
        }
        assert forall|x: usize|
            x < mid.n() && mid.status[x as int] == OrderStatus::Measurable implies mid
            .measurable
            .contains(x) by {
            assert(x != v);
            assert(m.status[x as int] == OrderStatus::Measurable);
            assert(m.measurable.contains(x));
        }
    }
    lemma_release_list_deps_exact(mid, succ_v, succ_v.len() as int);
    lemma_release_list_props(mid, succ_v, succ_v.len() as int);
    assert(succ_v.take(succ_v.len() as int) =~= succ_v);
    assert forall|x: int|
        0 <= x < m.n() implies ((fin.status[x] == OrderStatus::Measured) <==> (mid.status[x]
        == OrderStatus::Measured)) by {
        assert(fin.status[x] == mid.status[x] || (mid.status[x] == OrderStatus::Pending
            && fin.status[x] == OrderStatus::Measurable));
    }
    assert forall|l: int, i: int|
        0 <= l < order.len() && 0 <= i < order[l].len() implies fin.deps[node_at(
        order,
        l,
        i,
    ) as int] >= count_unmet(#[trigger] deps_at(order, l, i), fin.status) by {
        let t = node_at(order, l, i);
        let ds = deps_at(order, l, i);
        assert(entry_valid(order, m.n(), l, i));
        assert(m.deps[t as int] >= count_unmet(ds, m.status));
        assert(m.deps[t as int] <= count_unmet(ds, m.status));
        lemma_count_unmet_congruent(ds, fin.status, mid.status);
        lemma_count_unmet_measure(ds, m.status, v);
        if succ_v.contains(t) {
            // the released node's entry names v as predecessor, exactly once
            let q = choose|q: int| 0 <= q < succ_v.len() && #[trigger] succ_v[q] == t;
            assert(succ_entry_ok(order, m, v as int, q));
            let (l3, i3) = choose|l3: int, i3: int|
                0 <= l3 < order.len() && 0 <= i3 < order[l3].len() && #[trigger] node_at(
                    order,
                    l3,
                    i3,
                ) == t && deps_at(order, l3, i3).contains(v as usize);
            lemma_node_unique(order, m.n(), l, i, l3, i3);
            assert(ds.contains(v));
            let k = choose|k: int| 0 <= k < ds.len() && #[trigger] ds[k] == v;
            lemma_occurrences_member(ds, k);
            lemma_occurrences_unique(ds, v);
            assert(occurrences(ds, v) == 1);
            lemma_count_unmet_pos(ds, m.status, k);
            assert(m.deps[t as int] >= 1);
            assert(fin.deps[t as int] == mid.deps[t as int] - 1);
        } else {
            assert(fin.deps[t as int] == mid.deps[t as int]);
            assert(!ds.contains(v)) by {
                if ds.contains(v) {
                    let k = choose|k: int| 0 <= k < ds.len() && #[trigger] ds[k] == v;
                    assert(m.succs[ds[k] as int].contains(t));
                }
            }
            lemma_occurrences_zero(ds, v);
        }
    }
    assert forall|u: int, q: int|
        0 <= u < fin.n() && 0 <= q < fin.succs[u].len() implies succ_entry_ok(order, fin, u, q) by {
        assert(fin.succs == m.succs);
        assert(succ_entry_ok(order, m, u, q));
        let (l3, i3) = choose|l3: int, i3: int|
            0 <= l3 < order.len() && 0 <= i3 < order[l3].len() && #[trigger] node_at(order, l3, i3)
                == m.succs[u][q] && deps_at(order, l3, i3).contains(u as usize);
        assert(node_at(order, l3, i3) == fin.succs[u][q]);
    }
    assert(counters_exact(order, fin)) by {
        assert(fin.succs == m.succs);
    }
}

/// Measuring an admissible step prefix keeps the bookkeeping exact.
pub proof fn lemma_focus_preserves_exact(
    order: Seq<Seq<(usize, Vec<usize>)>>,
    m: OrderModel,
    s: Seq<usize>,
    k: int,
)
    requires
        m.wf(),
        m.n() <= usize::MAX,
        valid_order(order, m.n()),
        counters_exact(order, m),
        forall|x: int| 0 <= x < m.deps.len() ==> #[trigger] m.deps[x] >= 0,
        m.step_admissible(s),
        0 <= k <= s.len(),
    ensures
        counters_exact(order, m.focus(s, k)),
        forall|x: int| 0 <= x < m.deps.len() ==> #[trigger] m.focus(s, k).deps[x] >= 0,
    decreases k,
{
    if k > 0 {
        lemma_focus_preserves_exact(order, m, s, k - 1);
        lemma_focus_props(m, s, k - 1);
        let f = m.focus(s, k - 1);
        let v = s[k - 1];
        assert(v < m.n() && m.status[v as int] == OrderStatus::Measurable && !s.take(
            k - 1,
        ).contains(v));
        assert(f.status[v as int] == OrderStatus::Measurable);
        lemma_measure_preserves_exact(order, f, v);
        lemma_measure_node_props(f, v);
    }
}

/// `x` is the node of some entry of layer `l`.
pub open spec fn in_layer(order: Seq<Seq<(usize, Vec<usize>)>>, l: int, x: usize) -> bool {
    exists|i: int| 0 <= i < order[l].len() && #[trigger] node_at(order, l, i) == x
}

/// Entry `(l, i)` names a predecessor in the layer right before it.
pub open spec fn has_dep_in_previous(order: Seq<Seq<(usize, Vec<usize>)>>, l: int, i: int) -> bool {
    exists|k: int|
        0 <= k < deps_at(order, l, i).len() && in_layer(
            order,
            l - 1,
            #[trigger] deps_at(order, l, i)[k],
        )
}

/// A tight layered order: well-formed, without empty layers, and with every
/// node depending on something in the layer right before it.  The layering
/// that tracked corrections induce is of this minimal form.
pub open spec fn tight_order(order: Seq<Seq<(usize, Vec<usize>)>>, n: nat) -> bool {
    &&& valid_order(order, n)
    &&& forall|l: int| 0 <= l < order.len() ==> order[l].len() > 0
    &&& forall|l: int, i: int|
        1 <= l < order.len() && 0 <= i < order[l].len() ==> #[trigger] has_dep_in_previous(
            order,
            l,
            i,
        )
}

/// The state of a front that has greedily measured the first `j` layers:
/// they are measured, layer `j` is the measurable front, everything later
/// still waits.
pub open spec fn layered_state(order: Seq<Seq<(usize, Vec<usize>)>>, m: OrderModel, j: int) -> bool {
    forall|l: int, i: int|
        0 <= l < order.len() && 0 <= i < order[l].len() ==> m.status[(#[trigger] node_at(
            order,
            l,
            i,
        )) as int] == (if l < j {
            OrderStatus::Measured
        } else if l == j {
            OrderStatus::Measurable
        } else {
            OrderStatus::Pending
        })
}

/// When every predecessor is measured, nothing is unmet.
pub proof fn lemma_count_unmet_zero(ds: Seq<usize>, status: Seq<OrderStatus>)
    requires
        forall|k: int|
            0 <= k < ds.len() ==> (#[trigger] ds[k]) < status.len() && status[ds[k] as int]
                == OrderStatus::Measured,
    ensures
        count_unmet(ds, status) == 0,
    decreases ds.len(),
{
    if ds.len() > 0 {
        assert(forall|k: int| 0 <= k < ds.len() - 1 ==> ds.drop_last()[k] == ds[k]);
        lemma_count_unmet_zero(ds.drop_last(), status);
    }
}

/// Greedily measuring the whole front of a layered state measures exactly
/// the front layer and uncovers the next.
#[verifier::spinoff_prover]
#[verifier::rlimit(100)]
pub proof fn lemma_greedy_layers(order: Seq<Seq<(usize, Vec<usize>)>>, m: OrderModel, j: int)
    requires
        m.wf(),
        m.n() <= usize::MAX,
        tight_order(order, m.n()),
        counters_exact(order, m),
        forall|x: int| 0 <= x < m.deps.len() ==> #[trigger] m.deps[x] >= 0,
        layered_state(order, m, j),
        0 <= j < order.len(),
    ensures
        m.step_admissible(m.measurable),
        m.measurable.len() >= 1,
        layered_state(order, m.focus(m.measurable, m.measurable.len() as int), j + 1),
{
    let s = m.measurable;
    let m2 = m.focus(s, s.len() as int);
    assert forall|i: int|
        0 <= i < s.len() implies #[trigger] s[i] < m.n() && m.status[s[i] as int]
        == OrderStatus::Measurable && !s.take(i).contains(s[i]) by {
        if s.take(i).contains(s[i]) {
            let h = choose|h: int| 0 <= h < i && #[trigger] s.take(i)[h] == s[i];
            assert(s[h] == s[i]);
        }
    }
    lemma_focus_props(m, s, s.len() as int);
    assert(s.take(s.len() as int) =~= s);
    // the front is layer j
    assert forall|x: usize| #[trigger] s.contains(x) implies in_layer(order, j, x) && x < m.n() by {
        let w = choose|w: int| 0 <= w < s.len() && #[trigger] s[w] == x;
        assert(m.status[x as int] == OrderStatus::Measurable);
        assert(mentioned_in(order, x));
        let (l2, i2) = choose|l2: int, i2: int|
            ((0 <= l2 < order.len() as int && 0 <= i2 < order[l2].len()) || (l2
                == order.len() as int && 0 <= i2 < 0)) && #[trigger] node_at(order, l2, i2) == x;
        assert(m.status[node_at(order, l2, i2) as int] == (if l2 < j {
            OrderStatus::Measured
        } else if l2 == j {
            OrderStatus::Measurable
        } else {
            OrderStatus::Pending
        }));
        assert(l2 == j);
    }
    assert(order[j].len() > 0);
    assert(entry_valid(order, m.n(), j, 0));
    assert(node_at(order, j, 0) < m.n());
    assert(m.status[node_at(order, j, 0) as int] == OrderStatus::Measurable);
    assert(m.measurable.contains(node_at(order, j, 0)));
    assert(s.len() >= 1) by {
        let w = choose|w: int| 0 <= w < s.len() && #[trigger] s[w] == node_at(order, j, 0);
    }
    lemma_focus_preserves_exact(order, m, s, s.len() as int);
    // every layer settles one step further on
    assert forall|l: int, i: int|
        0 <= l < order.len() && 0 <= i < order[l].len() implies m2.status[(#[trigger] node_at(
        order,
        l,
        i,
    )) as int] == (if l < j + 1 {
        OrderStatus::Measured
    } else if l == j + 1 {
        OrderStatus::Measurable
    } else {
        OrderStatus::Pending
    }) by {
        let t = node_at(order, l, i);
        assert(entry_valid(order, m.n(), l, i));
        if l < j {
            assert(m.status[t as int] == OrderStatus::Measured);
            assert(m2.status[t as int] == OrderStatus::Measured);
        } else if l == j {
            assert(m.status[t as int] == OrderStatus::Measurable);
            assert(s.contains(t));
            assert(m2.status[t as int] == OrderStatus::Measured);
        } else {
            // t waits beyond the front, so the step does not measure it
            assert(m.status[t as int] == OrderStatus::Pending);
            assert(!s.contains(t)) by {
                if s.contains(t) {
                    assert(in_layer(order, j, t));
                    let i3 = choose|i3: int|
                        0 <= i3 < order[j].len() && #[trigger] node_at(order, j, i3) == t;
                    lemma_node_unique(order, m.n(), l, i, j, i3);
                }
            }
            assert(m2.status[t as int] != OrderStatus::Measured);
            assert(m2.status[t as int] != OrderStatus::Excluded) by {
                assert(mentioned_in(order, t)) by {
                    assert(((0 <= l < order.len() as int && 0 <= i < order[l].len()) || (l
                        == order.len() as int && 0 <= i < 0)) && node_at(order, l, i) == t);
                }
            }
            let ds = deps_at(order, l, i);
            if l == j + 1 {
                // all predecessors are measured now
                assert forall|k: int|
                    0 <= k < ds.len() implies (#[trigger] ds[k]) < m2.status.len() && m2.status[
                ds[k] as int] == OrderStatus::Measured by {
                    let d = ds[k];
                    assert(mentioned_before(order, l, 0, d));
                    let (l2, i2) = choose|l2: int, i2: int|
                        ((0 <= l2 < l && 0 <= i2 < order[l2].len()) || (l2 == l && 0 <= i2 < 0))
                            && #[trigger] node_at(order, l2, i2) == d;
                    if l2 < j {
                        assert(m.status[d as int] == OrderStatus::Measured);
                        assert(m2.status[d as int] == OrderStatus::Measured);
                    } else {
                        assert(l2 == j);
                        assert(m.status[d as int] == OrderStatus::Measurable);
                        assert(s.contains(d));
                        assert(m2.status[d as int] == OrderStatus::Measured);
                    }
                }
                lemma_count_unmet_zero(ds, m2.status);
                assert(m2.deps[t as int] >= count_unmet(ds, m2.status));
                assert(m2.deps[t as int] <= count_unmet(ds, m2.status));
                assert(m2.deps[t as int] == 0);
                assert(m2.status[t as int] != OrderStatus::Pending);
                assert(m2.status[t as int] == OrderStatus::Measurable);
            } else {
                // a predecessor in the layer right before is still waiting
                assert(has_dep_in_previous(order, l, i));
                let k = choose|k: int|
                    0 <= k < deps_at(order, l, i).len() && in_layer(
                        order,
                        l - 1,
                        #[trigger] deps_at(order, l, i)[k],
                    );
                let d = ds[k];
                let i4 = choose|i4: int|
                    0 <= i4 < order[l - 1].len() && #[trigger] node_at(order, l - 1, i4) == d;
                assert(m.status[d as int] == OrderStatus::Pending);
                assert(!s.contains(d)) by {
                    if s.contains(d) {
                        assert(in_layer(order, j, d));
                        let i5 = choose|i5: int|
                            0 <= i5 < order[j].len() && #[trigger] node_at(order, j, i5) == d;
                        lemma_node_unique(order, m.n(), l - 1, i4, j, i5);
                    }
                }
                assert(m2.status[d as int] != OrderStatus::Measured);
                assert(d < m.n());
                lemma_count_unmet_pos(ds, m2.status, k);
                assert(m2.deps[t as int] >= count_unmet(ds, m2.status));
                assert(m2.deps[t as int] >= 1);
                assert(m2.status[t as int] != OrderStatus::Measurable);
                assert(m2.status[t as int] == OrderStatus::Pending);
            }
        }
    }
}

/// The partial-order front: enumerates and commits measurement steps that
/// respect the dependencies.
#[derive(Debug)]
pub struct PathGenerator {
    /// For each node, the nodes that wait on it.
    pub succs: Vec<Vec<usize>>,
    /// For each node, the number of unmet predecessors.
    pub deps_count: Vec<usize>,
    /// Where each node stands.
    pub status: Vec<OrderStatus>,
    /// The nodes that can be measured next.
    pub measurable: Vec<usize>,
    /// How many mentioned nodes are unmeasured.
    pub num_remaining: usize,
    /// How many nodes still have unmet predecessors.
    pub num_pending: usize,
}

/// The model assembled from the concrete pieces of a `PathGenerator`.
pub open spec fn model_of(
    succs: Seq<Vec<usize>>,
    deps: Seq<usize>,
    status: Seq<OrderStatus>,
    measurable: Seq<usize>,
    remaining: int,
    pending: int,
) -> OrderModel {
    OrderModel {
        succs: Seq::new(succs.len(), |v: int| succs[v]@),
        deps: Seq::new(deps.len(), |v: int| deps[v] as int),
        status,
        measurable,
        remaining,
        pending,
    }
}

impl PathGenerator {
    /// The mathematical state.
    pub open spec fn view(self) -> OrderModel {
        model_of(
            self.succs@,
            self.deps_count@,
            self.status@,
            self.measurable@,
            self.num_remaining as int,
            self.num_pending as int,
        )
    }

    /// Structural invariant.
    pub open spec fn wf(self) -> bool {
        &&& self.view().wf()
        &&& self.succs@.len() == self.status@.len()
        &&& self.deps_count@.len() == self.status@.len()
    }

    /// The nodes that can be measured next.
    pub fn measurable(&self) -> (r: &Vec<usize>)
        ensures
            r@ == self.view().measurable,
    {
        &self.measurable
    }

    /// Whether some node still has unmet predecessors, so that at least two
    /// further steps are needed to finish.
    pub fn has_unmeasureable(&self) -> (r: bool)
        ensures
            r == (self.view().pending > 0),
    {
        self.num_pending > 0
    }

    /// How many mentioned nodes are unmeasured.
    pub fn num_remaining_nodes(&self) -> (r: usize)
        ensures
            r == self.view().remaining,
    {
        self.num_remaining
    }

    /// Whether every mentioned node is measured.
    pub fn at_leaf(&self) -> (r: bool)
        ensures
            r == (self.view().remaining == 0),
    {
        self.num_remaining == 0
    }

    /// Commits the step `measure_set`: every named node must be measurable;
    /// each is marked measured, and every successor whose unmet-predecessor
    /// counter reaches zero joins the measurable front.  On failure the front
    /// is unchanged and the error names the first offending node.
    pub fn focus_inplace(&mut self, measure_set: &Vec<usize>) -> (r: Result<(), InstructionError>)
        requires
            old(self).wf(),
        ensures
            final(self).wf(),
            final(self).view().succs == old(self).view().succs,
            final(self).view().n() == old(self).view().n(),
            r matches Ok(()) <==> old(self).view().step_admissible(measure_set@),
            r matches Ok(()) ==> final(self).view() == old(self).view().focus(
                measure_set@,
                measure_set@.len() as int,
            ),
            r matches Err(e) ==> *final(self) == *old(self) && exists|i: int|
                #![trigger old(self).view().step_error_at(measure_set@, i)]
                old(self).view().is_first_step_error(measure_set@, i) && old(
                    self,
                ).view().step_error_at(measure_set@, i) == Some(e),
    {
        let ghost m0 = self.view();
        let ghost set = measure_set@;
        let n = self.status.len();
        let n_set = measure_set.len();
        // validation pass: find the first inadmissible index, if any
        let mut i: usize = 0;
        while i < n_set
            invariant
                *self == *old(self),
                self.wf(),
                m0 == self.view(),
                set == measure_set@,
                i <= n_set,
                n_set == set.len(),
                n == self.status@.len(),
                forall|h: int| 0 <= h < i ==> m0.step_error_at(set, h) is None,
            decreases n_set - i,
        {
            let v = measure_set[i];
            proof {
                assert forall|h: int| 0 <= h < i implies #[trigger] set[h] < n && m0.status[
                    set[h] as int] == OrderStatus::Measurable by {
                    assert(m0.step_error_at(set, h) is None);
                }
            }
            if v >= n {
                proof {
                    if set.take(i as int).contains(v) {
                        let w = choose|w: int| 0 <= w < i && #[trigger] set.take(i as int)[w] == v;
                        assert(set[w] == v);
                    }
                    assert(m0.step_error_at(set, i as int) == Some(
                        InstructionError::NotMeasurable(v),
                    ));
                    assert(m0.is_first_step_error(set, i as int));
                }
                return Err(InstructionError::NotMeasurable(v));
            }
            if self.status[v] == OrderStatus::Measured {
                proof {
                    assert(m0.step_error_at(set, i as int) == Some(
                        InstructionError::AlreadyMeasured(v),
                    ));
                    assert(m0.is_first_step_error(set, i as int));
                }
                return Err(InstructionError::AlreadyMeasured(v));
            }
            let mut h: usize = 0;
            while h < i
                invariant
                    *self == *old(self),
                    self.wf(),
                    m0 == self.view(),
                    set == measure_set@,
                    h <= i <= n_set,
                    i < n_set,
                    n_set == set.len(),
                    n == self.status@.len(),
                    v == set[i as int],
                    v < n,
                    self.status@[v as int] != OrderStatus::Measured,
                    forall|g: int| 0 <= g < i ==> m0.step_error_at(set, g) is None,
                    forall|g: int| 0 <= g < h ==> set[g] != v,
                decreases i - h,
            {
                if measure_set[h] == v {
                    proof {
                        assert(set.take(i as int)[h as int] == v);
                        assert(set.take(i as int).contains(v));
                        assert(m0.step_error_at(set, i as int) == Some(
                            InstructionError::AlreadyMeasured(v),
                        ));
                        assert(m0.is_first_step_error(set, i as int));
                    }
                    return Err(InstructionError::AlreadyMeasured(v));
                }
                h += 1;
            }
            proof {
                assert forall|g: int| 0 <= g < i implies #[trigger] set.take(i as int)[g] != v by {
                    assert(set.take(i as int)[g] == set[g]);
                }
                assert(!set.take(i as int).contains(v));
            }
            if !(self.status[v] == OrderStatus::Measurable) {
                proof {
                    assert(m0.step_error_at(set, i as int) == Some(
                        InstructionError::NotMeasurable(v),
                    ));
                    assert(m0.is_first_step_error(set, i as int));
                }
                return Err(InstructionError::NotMeasurable(v));
            }
            proof {
                assert(m0.step_error_at(set, i as int) is None);
            }
            i += 1;
        }
        proof {
            assert forall|g: int| 0 <= g < n_set implies #[trigger] set[g] < n && m0.status[
                set[g] as int] == OrderStatus::Measurable && !set.take(g).contains(set[g]) by {
                assert(m0.step_error_at(set, g) is None);
            }
            assert(m0.step_admissible(set));
            assert(m0.focus(set, 0) == m0);
        }
        // apply pass
        let mut k: usize = 0;
        while k < n_set
            invariant
                self.wf(),
                self.view() == m0.focus(set, k as int),
                m0.wf(),
                m0.step_admissible(set),
                m0.n() == n,
                set == measure_set@,
                k <= n_set,
                n_set == set.len(),
            decreases n_set - k,
        {
            proof {
                lemma_focus_props(m0, set, k as int);
                assert(set[k as int] < n && m0.status[set[k as int] as int]
                    == OrderStatus::Measurable && !set.take(k as int).contains(set[k as int]));
                assert(self.view().status[set[k as int] as int] == OrderStatus::Measurable);
            }
            let v = measure_set[k];
            self.measure_node_exec(v);
            k += 1;
        }
        proof {
            assert(set.take(n_set as int) =~= set);
            lemma_focus_props(m0, set, n_set as int);
        }
        Ok(())
    }

    /// Measures one measurable node; the executable counterpart of
    /// `OrderModel::measure_node`.
    fn measure_node_exec(&mut self, v: usize)
        requires
            old(self).wf(),
            v < old(self).view().n(),
            old(self).view().status[v as int] == OrderStatus::Measurable,
        ensures
            final(self).wf(),
            final(self).view() == old(self).view().measure_node(v),
    {
        let ghost m = self.view();
        proof {
            lemma_measure_node_props(m, v);
            lemma_count_unmeasured_pos(m.status, v as int);
        }
        self.status.set(v, OrderStatus::Measured);
        self.num_remaining -= 1;
        let idx = find_first_index(&self.measurable, v);
        let ghost pre_remove = self.measurable@;
        self.measurable.remove(idx);
        proof {
            lemma_remove_first_at(pre_remove, idx as int, v);
        }
        let ghost mid = OrderModel {
            status: m.status.update(v as int, OrderStatus::Measured),
            measurable: remove_first(m.measurable, v),
            remaining: m.remaining - 1,
            ..m
        };
        proof {
            assert(self.view().succs =~= mid.succs);
            assert(self.view().deps =~= mid.deps);
            assert(self.view() == mid);
            lemma_count_unmeasured_update(m.status, v as int, OrderStatus::Measured);
            lemma_count_pending_update(m.status, v as int, OrderStatus::Measured);
            lemma_remove_first(m.measurable, v);
            assert(mid.wf()) by {
                assert forall|i: int|
                    0 <= i < mid.measurable.len() implies #[trigger] mid.measurable[i] < mid.n()
                        && mid.status[mid.measurable[i] as int] == OrderStatus::Measurable by {
                    assert(m.measurable.contains(mid.measurable[i]));
                    assert(mid.measurable.contains(mid.measurable[i]));
                    assert(mid.measurable[i] != v);
                }
                assert forall|x: usize|
                    x < mid.n() && mid.status[x as int] == OrderStatus::Measurable implies mid
                    .measurable
                    .contains(x) by {
                    assert(x != v);
                    assert(m.status[x as int] == OrderStatus::Measurable);
                    assert(m.measurable.contains(x));
                }
            }
        }
        let ghost succ_v = m.succs[v as int];
        let succ_count = self.succs[v].len();
        let mut j: usize = 0;
        proof {
            assert(mid.release_list(succ_v, 0) == mid);
        }
        while j < succ_count
            invariant
                j <= succ_count,
                mid.wf(),
                v < mid.n(),
                succ_v == mid.succs[v as int],
                succ_count == succ_v.len(),
                self.view() == mid.release_list(succ_v, j as int),
                self.succs@.len() == self.status@.len(),
                self.deps_count@.len() == self.status@.len(),
                self.wf(),
            decreases succ_count - j,
        {
            let ghost f = self.view();
            proof {
                lemma_release_list_props(mid, succ_v, j as int);
                assert(f.succs == mid.succs);
                assert(self.succs@[v as int]@ == succ_v);
            }
            let t = self.succs[v][j];
            proof {
                assert(t == succ_v[j as int]);
                assert(t < mid.n());
            }
            if self.deps_count[t] > 0 {
                let c = self.deps_count[t] - 1;
                self.deps_count.set(t, c);
                let ghost f_deps = OrderModel { deps: f.deps.update(t as int, f.deps[t as int] - 1), ..f };
                proof {
                    assert(self.view().deps =~= f_deps.deps);
                    assert(self.view() == f_deps);
                }
                if c == 0 && self.status[t] == OrderStatus::Pending {
                    proof {
                        lemma_count_pending_pos(f.status, t as int);
                    }
                    self.status.set(t, OrderStatus::Measurable);
                    self.num_pending -= 1;
                    self.measurable.push(t);
                    proof {
                        assert(self.view().deps =~= f_deps.deps);
                        assert(self.view() == f.release_one(t));
                    }
                } else {
                    proof {
                        assert(self.view() == f.release_one(t));
                    }
                }
            } else {
                proof {
                    assert(self.view() == f.release_one(t));
                }
            }
            proof {
                assert(mid.release_list(succ_v, j as int + 1) == mid.release_list(
                    succ_v,
                    j as int,
                ).release_one(succ_v[j as int]));
                lemma_release_one_props(f, t);
            }
            j += 1;
        }
    }

    /// An identical, independently owned front.
    pub fn duplicate(&self) -> (r: PathGenerator)
        ensures
            r.view() == self.view(),
            r.succs@.len() == self.succs@.len(),
            r.deps_count@.len() == self.deps_count@.len(),
            r.status@ == self.status@,
    {
        let n = self.succs.len();
        let mut succs: Vec<Vec<usize>> = Vec::new();
        let mut i: usize = 0;
        while i < n
            invariant
                i <= n,
                n == self.succs@.len(),
                succs@.len() == i,
                forall|k: int| 0 <= k < i ==> succs@[k]@ == self.succs@[k]@,
            decreases n - i,
        {
            succs.push(crate::space::clone_usize_vec(&self.succs[i]));
            i += 1;
        }
        let deps_count = crate::space::clone_usize_vec(&self.deps_count);
        let mut status: Vec<OrderStatus> = Vec::new();
        let m = self.status.len();
        let mut j: usize = 0;
        while j < m
            invariant
                j <= m,
                m == self.status@.len(),
                status@ =~= self.status@.take(j as int),
            decreases m - j,
        {
            status.push(self.status[j]);
            j += 1;
        }
        let measurable = crate::space::clone_usize_vec(&self.measurable);
        proof {
            assert(status@ =~= self.status@);
        }
        let r = PathGenerator {
            succs,
            deps_count,
            status,
            measurable,
            num_remaining: self.num_remaining,
            num_pending: self.num_pending,
        };
        proof {
            assert(r.view().succs =~= self.view().succs);
            assert(r.view().deps =~= self.view().deps);
        }
        r
    }
}

} // verus!
