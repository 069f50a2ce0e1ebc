//! The search drivers: a branch-and-bound sweep over the scheduler tree that
//! collects, for each schedule length, the best pattern found.

use vstd::prelude::*;

use crate::scheduler::Scheduler;
use crate::scheduler::child_of;
use crate::space::NodeStatus;
use crate::space::count_live;
use crate::space::max_int;
use crate::space::measure_seq;
use crate::time::OrderModel;
use crate::time::PathGenerator;
use crate::time::build_model;
use crate::tree::Step;
use crate::tree::Sweep;
use crate::tree::backward_ok;
use crate::tree::forward_ok;

verus! {

/// A sequence of parallel measurement steps.
pub type Steps = Vec<Vec<usize>>;

/// The best pattern found per schedule length: index is the time cost, the
/// entry its space cost and steps.
pub type MappedPaths = Vec<Option<(usize, Steps)>>;

/// The steps of a pattern, viewed abstractly.
pub open spec fn steps_seq(steps: Steps) -> Seq<Seq<usize>> {
    Seq::new(steps@.len(), |i: int| steps@[i]@)
}

/// The state that executing a pattern prefix reaches: the time-order model,
/// the spatial statuses, and the peak memory so far.
pub ghost struct RunState {
    pub order: OrderModel,
    pub status: Seq<NodeStatus>,
    pub max: int,
}

/// The state of a scheduler tree node, abstractly.
pub open spec fn state_of(s: Scheduler) -> RunState {
    RunState { order: s.time.view(), status: s.space.status@, max: s.space.max_memory as int }
}

/// The state that the inputs start from: nothing measured, nothing live.
pub open spec fn initial_state(order: Seq<Seq<(usize, Vec<usize>)>>, n: nat) -> RunState {
    RunState {
        order: build_model(order, n),
        status: Seq::new(n, |i: int| NodeStatus::Uninitialized),
        max: 0,
    }
}

/// Executes one measurement step on a run state.
pub open spec fn run_step(rs: RunState, adj: Seq<Seq<usize>>, s: Seq<usize>) -> RunState {
    let st2 = measure_seq(rs.status, adj, s);
    RunState {
        order: rs.order.focus(s, s.len() as int),
        status: st2,
        max: max_int(rs.max, count_live(st2) + s.len()),
    }
}

/// Executes the first `k` steps of a pattern.
pub open spec fn run_steps(rs: RunState, adj: Seq<Seq<usize>>, steps: Seq<Seq<usize>>, k: int) -> RunState
    decreases k,
{
    if k <= 0 {
        rs
    } else {
        run_step(run_steps(rs, adj, steps, k - 1), adj, steps[k - 1])
    }
}

/// Each of the first `k` steps is a legal focus on the state that the steps
/// before it reach.
pub open spec fn steps_admissible(
    rs: RunState,
    adj: Seq<Seq<usize>>,
    steps: Seq<Seq<usize>>,
    k: int,
) -> bool
    decreases k,
{
    k <= 0 || (steps_admissible(rs, adj, steps, k - 1) && run_steps(
        rs,
        adj,
        steps,
        k - 1,
    ).order.step_admissible(steps[k - 1]))
}

/// `steps` of length `t` is a complete legal schedule from `rs` whose peak
/// memory is `mem`.
pub open spec fn schedule_reaches(
    rs: RunState,
    adj: Seq<Seq<usize>>,
    steps: Seq<Seq<usize>>,
    t: int,
    mem: int,
) -> bool {
    &&& steps.len() == t
    &&& steps_admissible(rs, adj, steps, t)
    &&& run_steps(rs, adj, steps, t).order.remaining == 0
    &&& run_steps(rs, adj, steps, t).max == mem
}

/// Every step of the pattern measures something.
pub open spec fn steps_nonempty(steps: Seq<Seq<usize>>) -> bool {
    forall|k: int| 0 <= k < steps.len() ==> (#[trigger] steps[k]).len() >= 1
}

/// `p` is a valid answer for the inputs abstracted by `rs` and `adj`: its
/// steps are a complete legal schedule with no empty step, its `time` counts
/// them, and its `space` is the peak memory of running them.
pub open spec fn path_valid(rs: RunState, adj: Seq<Seq<usize>>, p: crate::interface::Path) -> bool {
    &&& p.time == p.steps_view().len()
    &&& steps_nonempty(p.steps_view())
    &&& schedule_reaches(rs, adj, p.steps_view(), p.steps_view().len() as int, p.space as int)
}

/// The least length that any completed schedule below the current node can
/// have: its own length if it is complete, two more when some node still has
/// unmet predecessors (one step to release it, one to measure it), one more
/// otherwise.
pub open spec fn min_path_len(m: OrderModel, plen: int) -> int {
    if m.remaining == 0 {
        plen + 1
    } else if m.pending > 0 {
        plen + 3
    } else {
        plen + 2
    }
}

/// The executable counterpart of `min_path_len`; `lemma_min_path_len_sound`
/// shows that the result bounds the length of every completed schedule
/// below the node.
pub fn minimum_path_length(time: &PathGenerator, current_path: &Steps) -> (r: usize)
    requires
        current_path@.len() + 3 <= usize::MAX,
    ensures
        r == min_path_len(time.view(), current_path@.len() as int),
{
    if time.at_leaf() {
        current_path.len() + 1
    } else if time.has_unmeasureable() {
        current_path.len() + 3
    } else {
        current_path.len() + 2
    }
}

/// Entries never grow along the index: the best memory for a longer
/// schedule is never worse than for a shorter one.
pub open spec fn monotone_nonincreasing(bm: Seq<usize>) -> bool {
    forall|i: int, j: int| 0 <= i <= j < bm.len() ==> bm[i] >= bm[j]
}

/// Whether a completed schedule of length `t` and peak `mem` is recorded:
/// whenever it is at least as good as the best memory known for that
/// length, so that an equal peak still overwrites the kept pattern.  Only a
/// worse peak is ignored; the depth-first walk never reaches one, because
/// the descent into its subtree would have been pruned, but a front
/// refreshed by other workers can present one.
pub open spec fn record_fires(bm: Seq<usize>, t: int, mem: usize) -> bool {
    0 <= t < bm.len() && mem <= bm[t]
}

/// The best-memory array after recording a completed schedule of length `t`
/// with peak `mem`: entry `t` becomes `mem`, and every longer length keeps
/// at least as good a value.
pub open spec fn bm_after_record(bm: Seq<usize>, t: int, mem: usize) -> Seq<usize> {
    Seq::new(
        bm.len(),
        |q: int|
            if q < t {
                bm[q]
            } else if q == t {
                mem
            } else if mem < bm[q] {
                mem
            } else {
                bm[q]
            },
    )
}

/// The result map after recording a completed schedule: the entry for its
/// length holds its peak and steps, every other entry is untouched.
pub open spec fn results_after_record(
    pre: Seq<Option<(usize, Steps)>>,
    post: Seq<Option<(usize, Steps)>>,
    t: int,
    mem: usize,
    path: Steps,
) -> bool {
    &&& post.len() == pre.len()
    &&& (post[t] matches Some(e) && e.0 == mem && steps_seq(e.1) == steps_seq(path))
    &&& forall|q: int| 0 <= q < pre.len() && q != t ==> post[q] == pre[q]
}

/// Handles a `Backward` event: when the subtree was a completed schedule at
/// least as good as the best memory known for its length, record its peak
/// and its steps, overwriting any previous pattern of that length; then
/// shorten the current path by its last step.
pub fn backward(
    leaf: Option<usize>,
    current_path: &mut Steps,
    best_memory: &mut Vec<usize>,
    results: &mut MappedPaths,
)
    requires
        old(results)@.len() == old(best_memory)@.len(),
        monotone_nonincreasing(old(best_memory)@),
    ensures
        final(results)@.len() == old(results)@.len(),
        final(best_memory)@.len() == old(best_memory)@.len(),
        monotone_nonincreasing(final(best_memory)@),
        old(current_path)@.len() > 0 ==> final(current_path)@ == old(current_path)@.drop_last(),
        old(current_path)@.len() == 0 ==> final(current_path)@ == old(current_path)@,
        leaf is None ==> final(best_memory)@ == old(best_memory)@ && final(results)@
            == old(results)@,
        leaf matches Some(mem) ==> ((record_fires(
            old(best_memory)@,
            old(current_path)@.len() as int,
            mem,
        ) ==> final(best_memory)@ == bm_after_record(
            old(best_memory)@,
            old(current_path)@.len() as int,
            mem,
        ) && results_after_record(
            old(results)@,
            final(results)@,
            old(current_path)@.len() as int,
            mem,
            *old(current_path),
        )) && (!record_fires(old(best_memory)@, old(current_path)@.len() as int, mem)
            ==> final(best_memory)@ == old(best_memory)@ && final(results)@ == old(results)@)),
    {
        if let Some(mem) = leaf {
            let t = current_path.len();
            if t < best_memory.len() && mem <= best_memory[t] {
                best_memory.set(t, mem);
                let mut q: usize = t + 1;
                let n = best_memory.len();
                while q < n
                    invariant
                        t < q <= n,
                        n == best_memory@.len(),
                        n == bm_after_record(old(best_memory)@, t as int, mem).len(),
                        forall|w: int|
                            0 <= w < q ==> best_memory@[w] == bm_after_record(
                                old(best_memory)@,
                                t as int,
                                mem,
                            )[w],
                        forall|w: int| q <= w < n ==> best_memory@[w] == old(best_memory)@[w],
                    decreases n - q,
                {
                    if mem < best_memory[q] {
                        best_memory.set(q, mem);
                    }
                    q += 1;
                }
                proof {
                    assert(best_memory@ =~= bm_after_record(old(best_memory)@, t as int, mem));
                }
                let stored = clone_steps(current_path);
                results.set(t, Some((mem, stored)));
                proof {
                    let bm2 = best_memory@;
                    assert forall|i: int, j: int| 0 <= i <= j < bm2.len() implies bm2[i]
                        >= bm2[j] by {
                        assert(old(best_memory)@[i] >= old(best_memory)@[j]);
                        if i < t && t <= j {
                            assert(old(best_memory)@[i] >= old(best_memory)@[t as int]);
                        }
                    }
                }
            }
        }
        if current_path.len() > 0 {
            current_path.pop();
            proof {
                assert(final(current_path)@ =~= old(current_path)@.drop_last());
            }
        }
    }

/// Copies a pattern.
pub fn clone_steps(steps: &Steps) -> (r: Steps)
    ensures
        r@.len() == steps@.len(),
        steps_seq(r) == steps_seq(*steps),
{
    let n = steps.len();
    let mut r: Steps = Vec::new();
    let mut i: usize = 0;
    while i < n
        invariant
            i <= n,
            n == steps@.len(),
            r@.len() == i,
            forall|k: int| 0 <= k < i ==> r@[k]@ == steps@[k]@,
        decreases n - i,
    {
        r.push(crate::space::clone_usize_vec(&steps[i]));
        i += 1;
    }
    proof {
        assert(steps_seq(r) =~= steps_seq(*steps));
    }
    r
}

/// The pruning test of a `Forward` event: no completed schedule below the
/// just-entered child can improve on the best memory already known for any
/// length it could reach.  `lemma_min_path_len_sound` shows that the length
/// bound the test relies on is sound.
pub open spec fn prune_at(child: Scheduler, plen: int, bm: Seq<usize>) -> bool {
    let ml = min_path_len(child.time.view(), plen);
    ml >= bm.len() || bm[ml] <= child.space.max_memory
}

/// Handles a `Forward` event: if every completed schedule below the child
/// would be at least as memory-hungry as one already found at that length,
/// discard the child; otherwise commit its step to the current path.
/// Returns true only when there was nothing left to discard, which ends the
/// sweep.
pub fn forward(
    measure: Vec<usize>,
    scheduler: &mut Sweep,
    best_memory: &Vec<usize>,
    current_path: &mut Steps,
) -> (r: bool)
    requires
        old(scheduler).wf(),
        old(scheduler).stack@.len() > 0,
    ensures
        final(scheduler).wf(),
        r == false,
        prune_at(
            old(scheduler).stack@.last(),
            old(current_path)@.len() as int,
            best_memory@,
        ) ==> final(scheduler).stack@ == old(scheduler).stack@.drop_last()
            && final(current_path)@ == old(current_path)@,
        !prune_at(
            old(scheduler).stack@.last(),
            old(current_path)@.len() as int,
            best_memory@,
        ) ==> *final(scheduler) == *old(scheduler)
            && final(current_path)@ == old(current_path)@.push(measure),
{
    let at_leaf: bool;
    let pending: bool;
    let maxmem: usize;
    {
        let current = scheduler.current();
        at_leaf = current.time().at_leaf();
        pending = current.time().has_unmeasureable();
        maxmem = current.space().max_memory();
    }
    let extra: usize = if at_leaf {
        1
    } else if pending {
        3
    } else {
        2
    };
    let bmlen = best_memory.len();
    let plen = current_path.len();
    let prune = bmlen <= extra || plen >= bmlen - extra || best_memory[plen + extra] <= maxmem;
    proof {
        assert(prune == prune_at(
            old(scheduler).stack@.last(),
            old(current_path)@.len() as int,
            best_memory@,
        ));
    }
    if prune {
        let skipped = scheduler.skip_current();
        skipped.is_err()
    } else {
        current_path.push(measure);
        false
    }
}

/// A pattern prefix held as a sequence of vectors, viewed abstractly.
pub open spec fn path_view(p: Seq<Vec<usize>>) -> Seq<Seq<usize>> {
    Seq::new(p.len(), |i: int| p[i]@)
}

/// Entry `t` of the result map, when present, is a completed schedule of
/// length `t` from `rs` with the recorded peak.
pub open spec fn entry_valid_at(
    rs: RunState,
    adj: Seq<Seq<usize>>,
    entries: Seq<Option<(usize, Steps)>>,
    t: int,
) -> bool {
    0 <= t < entries.len() && entries[t] is Some ==> (entries[t] matches Some(e)
        && steps_nonempty(steps_seq(e.1)) && schedule_reaches(rs, adj, steps_seq(e.1), t, e.0 as int))
}

/// The stack mirrors the recorded path: each frame is the child that the
/// corresponding step produces from the frame below it.
pub open spec fn chain_ok(stack: Seq<Scheduler>, path: Seq<Vec<usize>>) -> bool {
    forall|j: int| 0 <= j < path.len() ==> child_of(stack[j + 1], stack[j], (#[trigger] path[j])@)
}

/// Walking the stack replays the current path: the state of frame `i` is
/// what executing the first `i` recorded steps reaches from the root.
pub proof fn lemma_chain_run(stack: Seq<Scheduler>, path: Seq<Vec<usize>>, adj: Seq<Seq<usize>>, i: int)
    requires
        stack.len() == path.len() + 1,
        chain_ok(stack, path),
        adj == stack[0].space.adj(),
        0 <= i <= path.len(),
    ensures
        stack[i].space.adj() == adj,
        steps_admissible(state_of(stack[0]), adj, path_view(path), i),
        run_steps(state_of(stack[0]), adj, path_view(path), i) == state_of(stack[i]),
    decreases i,
{
    if i > 0 {
        lemma_chain_run(stack, path, adj, i - 1);
        assert(child_of(stack[(i - 1) + 1], stack[i - 1], (path[i - 1])@));
        let pre = run_steps(state_of(stack[0]), adj, path_view(path), i - 1);
        let post = run_steps(state_of(stack[0]), adj, path_view(path), i);
        assert(path_view(path)[i - 1] == path[i - 1]@);
        assert(post == run_step(pre, adj, path_view(path)[i - 1]));
        assert(pre == state_of(stack[i - 1]));
        assert(post.order == state_of(stack[i]).order);
        assert(post.status == state_of(stack[i]).status);
        assert(post.max == state_of(stack[i]).max);
        assert(post == state_of(stack[i]));
    }
}

/// What the probabilistic overlay needs to decide a step that survived
/// pruning, all as plain counts.
#[derive(Clone, Copy, Debug, PartialEq, Eq, Structural)]
pub struct AcceptQuery {
    /// The best memory already found for the least length the step allows.
    pub bound_best_mem: usize,
    /// The best memory found for any completed schedule so far.
    pub minimal_mem: usize,
    /// The peak memory before the step.
    pub last_max_mem: usize,
    /// The live count before the step.
    pub last_cur_mem: usize,
    /// The live count after the step.
    pub cur_mem: usize,
    /// How many nodes the step leaves unmeasured.
    pub num_remaining_nodes: usize,
    /// How many nodes the graph has.
    pub num_total_nodes: usize,
}

/// One advance of a driver.
#[derive(Debug)]
pub enum DriveEvent {
    /// The walk is over.
    Done,
    /// The walk advanced by one event.
    Progressed,
    /// A step survived pruning; the caller decides whether to take it with
    /// `resolve`, by any rule built on the query.
    PendingAccept(AcceptQuery),
}


/// Entry `t` of the result map, when present, is no better than the best
/// memory known for that length.
pub open spec fn entry_bounded(
    bm: Seq<usize>,
    entries: Seq<Option<(usize, Steps)>>,
    t: int,
) -> bool {
    entries[t] matches Some(e) ==> bm[t] <= e.0
}

/// A finite best-memory bound at length `t` is witnessed by a recorded
/// pattern at that length or shorter whose peak is at least as good.
pub open spec fn entry_witnessed(
    bm: Seq<usize>,
    entries: Seq<Option<(usize, Steps)>>,
    t: int,
) -> bool {
    exists|t2: int|
        0 <= t2 <= t && ((#[trigger] entries[t2]) matches Some(e) && e.0 <= bm[t])
}

/// The driver returned from the current node, whose enumeration was
/// exhausted: the node is popped, its step leaves the path, and a completed
/// schedule is recorded exactly when it improves the best memory for its
/// length.
pub open spec fn drove_backward(pre: SearchDriver, post: SearchDriver, leaf: Option<usize>) -> bool {
    &&& backward_ok(pre.sweep, post.sweep, leaf)
    &&& (pre.current_path@.len() > 0 ==> post.current_path@ == pre.current_path@.drop_last())
    &&& (pre.current_path@.len() == 0 ==> post.current_path@ == pre.current_path@)
    &&& (leaf is None ==> post.best_memory@ == pre.best_memory@ && post.results@ == pre.results@)
    &&& (leaf matches Some(mem) ==> ((record_fires(
        pre.best_memory@,
        pre.current_path@.len() as int,
        mem,
    ) ==> post.best_memory@ == bm_after_record(
        pre.best_memory@,
        pre.current_path@.len() as int,
        mem,
    ) && results_after_record(
        pre.results@,
        post.results@,
        pre.current_path@.len() as int,
        mem,
        pre.current_path,
    )) && (!record_fires(pre.best_memory@, pre.current_path@.len() as int, mem)
        ==> post.best_memory@ == pre.best_memory@ && post.results@ == pre.results@)))
}

/// The driver descended into the current node's next child and discarded it
/// at once: the pruning test showed that no completed schedule below it can
/// improve the best memory at any length it could still reach.
pub open spec fn drove_pruned(pre: SearchDriver, post: SearchDriver) -> bool {
    exists|child: Scheduler, s: Seq<usize>|
        #![trigger child_of(child, post.sweep.stack@.last(), s)]
        {
            &&& pre.sweep.stack@.len() > 0
            &&& post.sweep.stack@.len() == pre.sweep.stack@.len()
            &&& (forall|i: int|
                0 <= i < pre.sweep.stack@.len() - 1 ==> post.sweep.stack@[i]
                    == pre.sweep.stack@[i])
            &&& post.sweep.stack@.last().time == pre.sweep.stack@.last().time
            &&& post.sweep.stack@.last().space == pre.sweep.stack@.last().space
            &&& crate::partition::next_rel(
                pre.sweep.stack@.last().part,
                post.sweep.stack@.last().part,
                Some(s),
            )
            &&& child_of(child, post.sweep.stack@.last(), s)
            &&& prune_at(child, pre.current_path@.len() as int, pre.best_memory@)
            &&& post.current_path@ == pre.current_path@
            &&& post.best_memory@ == pre.best_memory@
            &&& post.results@ == pre.results@
        }
}

/// The query handed to the caller describes the pending step exactly: the
/// pruning bound and overall best from the front, the parent's counts, and
/// the child's counts.
pub open spec fn query_describes(pre: SearchDriver, post: SearchDriver, q: AcceptQuery) -> bool {
    let child = post.sweep.stack@.last();
    let parent = post.sweep.stack@[post.sweep.stack@.len() - 2];
    let ml = min_path_len(child.time.view(), pre.current_path@.len() as int);
    &&& q.bound_best_mem == pre.best_memory@[ml]
    &&& q.minimal_mem == pre.best_memory@.last()
    &&& q.last_max_mem == parent.space.max_memory
    &&& q.last_cur_mem == parent.space.current_memory
    &&& q.cur_mem == child.space.current_memory
    &&& q.num_remaining_nodes == child.time.view().remaining
    &&& q.num_total_nodes == child.space.adj().len()
}

/// The driver descended into the current node's next child, which survived
/// pruning: the step waits as pending, described exactly by the query, and
/// nothing else moved.
pub open spec fn drove_pending(pre: SearchDriver, post: SearchDriver, q: AcceptQuery) -> bool {
    &&& post.pending matches Some(m) && forward_ok(pre.sweep, post.sweep, m@)
    &&& !prune_at(post.sweep.stack@.last(), pre.current_path@.len() as int, pre.best_memory@)
    &&& post.current_path@ == pre.current_path@
    &&& post.best_memory@ == pre.best_memory@
    &&& post.results@ == pre.results@
    &&& query_describes(pre, post, q)
}

/// The deterministic driver descended into the next child, which survived
/// pruning, and committed its step to the path.
pub open spec fn drove_accepted(pre: SearchDriver, post: SearchDriver) -> bool {
    &&& post.current_path@.len() == pre.current_path@.len() + 1
    &&& post.current_path@ == pre.current_path@.push(post.current_path@.last())
    &&& forward_ok(pre.sweep, post.sweep, (post.current_path@.last())@)
    &&& !prune_at(post.sweep.stack@.last(), pre.current_path@.len() as int, pre.best_memory@)
    &&& post.best_memory@ == pre.best_memory@
    &&& post.results@ == pre.results@
}

/// The prefix minimum of a front: entry `i` is the smallest value among the
/// first `i + 1` entries, which is the tightest monotone front below the
/// input.
pub open spec fn running_min(s: Seq<usize>) -> Seq<usize>
    decreases s.len(),
{
    if s.len() == 0 {
        Seq::<usize>::empty()
    } else if s.len() == 1 {
        seq![s[0]]
    } else {
        let prev = running_min(s.drop_last());
        prev.push(
            if prev.last() <= s.last() {
                prev.last()
            } else {
                s.last()
            },
        )
    }
}

/// The single-threaded search driver: walks the scheduler tree depth-first,
/// prunes against the best memory found per schedule length, and records
/// every completed schedule that improves it.
///
/// The deterministic search takes every step that survives pruning; the
/// probabilistic search is the same walk with steps decided by the caller
/// through `step_probabilistic` and `resolve`.
pub struct SearchDriver {
    /// The walker.
    pub sweep: Sweep,
    /// The best pattern found per length.
    pub results: MappedPaths,
    /// The steps from the root to the current node.
    pub current_path: Steps,
    /// The best memory found per length; `usize::MAX` where none was.
    pub best_memory: Vec<usize>,
    /// A step that survived pruning and awaits the caller's decision.
    pub pending: Option<Vec<usize>>,
    /// Whether the walk is fresh_front at a true root: started fresh, with the
    /// recorded path mirroring the stack, so that every recorded entry is a
    /// proven schedule from the root state.  A worker seeded with a shared
    /// front and a root-layer step is not fresh_front.
    pub fresh_front: Ghost<bool>,
    /// The state the walk started from.
    pub root_state: Ghost<RunState>,
    /// The adjacency of the graph walked over.
    pub adj: Ghost<Seq<Seq<usize>>>,
}

impl SearchDriver {
    /// Structural invariant: the stack mirrors the path, the bottom frame
    /// carries the root state, every recorded entry is a completed legal
    /// schedule from it bounded by the front, and — as long as the front
    /// started untouched — every finite bound is witnessed by an entry.
    pub open spec fn wf(self) -> bool {
        &&& self.sweep.wf()
        &&& self.results@.len() == self.best_memory@.len()
        &&& monotone_nonincreasing(self.best_memory@)
        &&& forall|t: int|
            0 <= t < self.results@.len() ==> entry_bounded(self.best_memory@, self.results@, t)
        &&& (self.pending is None ==> self.sweep.stack@.len() == 0 || self.sweep.stack@.len()
            == self.current_path@.len() + 1)
        &&& (self.pending matches Some(m) ==> self.sweep.stack@.len() == self.current_path@.len()
            + 2 && child_of(
            self.sweep.stack@.last(),
            self.sweep.stack@[self.current_path@.len() as int],
            m@,
        ))
        &&& chain_ok(self.sweep.stack@, self.current_path@)
        &&& (self.sweep.stack@.len() > 0 ==> state_of(self.sweep.stack@[0]) == self.root_state@
            && self.sweep.stack@[0].space.adj() == self.adj@)
        &&& forall|t: int| entry_valid_at(self.root_state@, self.adj@, self.results@, t)
        &&& (self.fresh_front@ ==> forall|t: int|
            0 <= t < self.best_memory@.len() && self.best_memory@[t] < usize::MAX
                ==> entry_witnessed(self.best_memory@, self.results@, t))
    }

    /// A driver over the tree rooted at `root`, with nothing found yet.
    pub fn new(root: Scheduler, num_bits: usize) -> (r: SearchDriver)
        requires
            root.wf_partial(),
            num_bits < usize::MAX,
        ensures
            r.wf(),
            r.fresh_front@,
            r.root_state@ == state_of(root),
            r.adj@ == root.space.adj(),
            r.pending is None,
            r.sweep.stack@.len() == 1,
            r.current_path@.len() == 0,
            r.best_memory@.len() == num_bits + 1,
            forall|q: int| 0 <= q < num_bits + 1 ==> r.best_memory@[q] == usize::MAX,
            forall|q: int| 0 <= q < num_bits + 1 ==> r.results@[q] is None,
    {
        let sweep = Sweep::new(root);
        let mut best_memory: Vec<usize> = Vec::new();
        let mut results: MappedPaths = Vec::new();
        let mut i: usize = 0;
        let cap = num_bits + 1;
        while i < cap
            invariant
                i <= cap,
                best_memory@.len() == i,
                results@.len() == i,
                forall|q: int| 0 <= q < i ==> best_memory@[q] == usize::MAX,
                forall|q: int| 0 <= q < i ==> results@[q] is None,
            decreases cap - i,
        {
            best_memory.push(usize::MAX);
            results.push(None);
            i += 1;
        }
        SearchDriver {
            sweep,
            results,
            current_path: Vec::new(),
            best_memory,
            pending: None,
            fresh_front: Ghost(true),
            root_state: Ghost(state_of(root)),
            adj: Ghost(root.space.adj()),
        }
    }

    /// Builds the seeded per-length stores of a worker: an empty result map
    /// and the running minimum of the shared snapshot as the front.
    fn seeded_front(num_bits: usize, snapshot: &Vec<usize>) -> (r: (MappedPaths, Vec<usize>))
        requires
            num_bits < usize::MAX,
            snapshot@.len() == num_bits + 1,
        ensures
            r.0@.len() == num_bits + 1,
            r.1@.len() == num_bits + 1,
            r.1@ == running_min(snapshot@),
            monotone_nonincreasing(r.1@),
            forall|q: int| 0 <= q < num_bits + 1 ==> r.1@[q] <= snapshot@[q],
            forall|q: int| 0 <= q < num_bits + 1 ==> r.0@[q] is None,
    {
        let cap = num_bits + 1;
        let mut results: MappedPaths = Vec::new();
        let mut best_memory: Vec<usize> = Vec::new();
        let mut running: usize = usize::MAX;
        let mut i: usize = 0;
        while i < cap
            invariant
                i <= cap,
                cap == snapshot@.len(),
                best_memory@.len() == i,
                results@.len() == i,
                best_memory@ == running_min(snapshot@.take(i as int)),
                i > 0 ==> running == best_memory@.last(),
                i == 0 ==> running == usize::MAX,
                forall|q: int| 0 <= q < i ==> best_memory@[q] <= snapshot@[q],
                forall|q: int| 0 <= q < i ==> results@[q] is None,
                forall|q: int| 0 <= q < i ==> running <= best_memory@[q],
                monotone_nonincreasing(best_memory@),
            decreases cap - i,
        {
            let v = snapshot[i];
            if v < running {
                running = v;
            }
            best_memory.push(running);
            results.push(None);
            proof {
                assert(snapshot@.take(i as int + 1).drop_last() =~= snapshot@.take(i as int));
                assert(snapshot@.take(i as int + 1).last() == snapshot@[i as int]);
                assert(best_memory@ == running_min(snapshot@.take(i as int + 1)));
            }
            i += 1;
        }
        proof {
            assert(snapshot@.take(cap as int) =~= snapshot@);
        }
        (results, best_memory)
    }

    /// A worker's driver over the split node itself: the walk continues with
    /// the children not yet handed out, and the best-memory front starts
    /// from the shared snapshot, kept monotone.  Bounds taken from the
    /// snapshot carry no recorded witness of their own.
    pub fn new_seeded(root: Scheduler, num_bits: usize, snapshot: &Vec<usize>) -> (r: SearchDriver)
        requires
            root.wf_partial(),
            num_bits < usize::MAX,
            snapshot@.len() == num_bits + 1,
        ensures
            r.wf(),
            !r.fresh_front@,
            r.pending is None,
            r.root_state@ == state_of(root),
            r.adj@ == root.space.adj(),
            r.sweep.stack@.len() == 1,
            r.sweep.stack@[0] == root,
            r.current_path@.len() == 0,
            r.best_memory@.len() == num_bits + 1,
            r.results@.len() == num_bits + 1,
            r.best_memory@ == running_min(snapshot@),
            forall|q: int| 0 <= q < num_bits + 1 ==> r.best_memory@[q] <= snapshot@[q],
            forall|q: int| 0 <= q < num_bits + 1 ==> r.results@[q] is None,
    {
        let sweep = Sweep::new(root);
        let stores = Self::seeded_front(num_bits, snapshot);
        SearchDriver {
            sweep,
            results: stores.0,
            current_path: Vec::new(),
            best_memory: stores.1,
            pending: None,
            fresh_front: Ghost(false),
            root_state: Ghost(state_of(root)),
            adj: Ghost(root.space.adj()),
        }
    }

    /// Produces the next root-layer task from the node being split: a
    /// driver anchored at the split node's state, whose walk starts at the
    /// node's next child with the step that reaches it already recorded,
    /// and whose best-memory front starts from the shared snapshot.  The
    /// remaining siblings stay with the split node, so workers never share
    /// a subtree.  Everything such a worker records is a proven complete
    /// legal schedule from the split node's state, exactly as for the
    /// sequential driver.
    pub fn next_task(
        splitter: &mut Scheduler,
        num_bits: usize,
        snapshot: &Vec<usize>,
    ) -> (r: Option<SearchDriver>)
        requires
            old(splitter).wf_partial(),
            num_bits < usize::MAX,
            snapshot@.len() == num_bits + 1,
        ensures
            final(splitter).wf_partial(),
            final(splitter).time == old(splitter).time,
            final(splitter).space == old(splitter).space,
            r is None <==> old(splitter).part.done(),
            r matches Some(d) ==> d.wf() && !d.fresh_front@ && d.pending is None
                && d.root_state@ == state_of(*old(splitter)) && d.adj@ == old(
                splitter,
            ).space.adj() && d.current_path@.len() == 1 && d.best_memory@ == running_min(
                snapshot@,
            ) && d.best_memory@.len() == num_bits + 1 && d.results@.len() == num_bits + 1 && (
            forall|q: int| 0 <= q < num_bits + 1 ==> d.results@[q] is None),
    {
        // the bottom frame of the worker's stack: the split node with its
        // enumeration closed, so the worker never revisits the siblings
        let parent_time = splitter.time.duplicate();
        let parent_set = crate::space::clone_usize_vec(parent_time.measurable());
        let parent_space = splitter.space.duplicate();
        let parent = Scheduler {
            time: parent_time,
            space: parent_space,
            part: crate::partition::Partition {
                set: parent_set,
                combo: Vec::new(),
                started: true,
                exhausted: true,
            },
        };
        proof {
            assert(parent.wf_partial());
            assert(state_of(parent) == state_of(*splitter)) by {
                assert(state_of(parent).order == state_of(*splitter).order);
            }
        }
        let stepped = splitter.next_and_focus();
        match stepped {
            Some((child, measure)) => {
                proof {
                    assert(child_of(child, parent, measure@));
                }
                let mut stack: Vec<Scheduler> = Vec::new();
                stack.push(parent);
                stack.push(child);
                let sweep = Sweep { stack };
                let mut current_path: Steps = Vec::new();
                current_path.push(measure);
                let stores = Self::seeded_front(num_bits, snapshot);
                let d = SearchDriver {
                    sweep,
                    results: stores.0,
                    current_path,
                    best_memory: stores.1,
                    pending: None,
                    fresh_front: Ghost(false),
                    root_state: Ghost(state_of(*old(splitter))),
                    adj: Ghost(old(splitter).space.adj()),
                };
                proof {
                    assert(d.sweep.wf());
                    assert(chain_ok(d.sweep.stack@, d.current_path@)) by {
                        assert(d.current_path@[0] == measure);
                        assert(child_of(d.sweep.stack@[1], d.sweep.stack@[0], measure@));
                    }
                    assert(state_of(d.sweep.stack@[0]) == d.root_state@);
                }
                Some(d)
            },
            None => None,
        }
    }

    /// One reconciliation of this worker's front with the shared one: the
    /// shared array takes the pointwise minimum with the worker's, and the
    /// worker takes the shared bounds back, kept monotone.
    pub fn reconcile(&mut self, shared: &mut Vec<usize>)
        requires
            old(self).wf(),
            !old(self).fresh_front@,
            old(shared)@.len() == old(self).best_memory@.len(),
        ensures
            final(self).wf(),
            final(self).fresh_front == old(self).fresh_front,
            final(self).root_state == old(self).root_state,
            final(self).adj == old(self).adj,
            final(self).sweep == old(self).sweep,
            final(self).current_path == old(self).current_path,
            final(self).results == old(self).results,
            final(self).pending == old(self).pending,
            final(shared)@.len() == old(shared)@.len(),
            final(self).best_memory@.len() == old(self).best_memory@.len(),
            forall|q: int|
                0 <= q < old(shared)@.len() ==> final(shared)@[q] == (if old(shared)@[q] <= old(
                    self,
                ).best_memory@[q] {
                    old(shared)@[q]
                } else {
                    old(self).best_memory@[q]
                }),
            forall|q: int|
                0 <= q < old(shared)@.len() ==> (#[trigger] final(self).best_memory@[q]) <= old(
                    self,
                ).best_memory@[q],
            forall|q: int|
                0 <= q < old(shared)@.len() ==> (#[trigger] final(self).best_memory@[q])
                    <= final(shared)@[q],
            monotone_nonincreasing(old(shared)@) ==> forall|q: int|
                0 <= q < old(shared)@.len() ==> (#[trigger] final(self).best_memory@[q])
                    == final(shared)@[q],
    {
        merge_best_memory(shared, &mut self.best_memory);
        let ghost merged = self.best_memory@;
        proof {
            assert(shared@ =~= merged);
        }
        // keep the worker's front monotone even against a damaged shared
        // array; on a monotone one this pass changes nothing
        let n = self.best_memory.len();
        let mut running: usize = usize::MAX;
        let mut q: usize = 0;
        while q < n
            invariant
                q <= n,
                n == self.best_memory@.len(),
                n == merged.len(),
                self.sweep == old(self).sweep,
                self.results == old(self).results,
                self.current_path == old(self).current_path,
                self.pending == old(self).pending,
                self.fresh_front == old(self).fresh_front,
                self.root_state == old(self).root_state,
                self.adj == old(self).adj,
                shared@ == merged,
                q == 0 ==> running == usize::MAX,
                monotone_nonincreasing(old(shared)@) ==> monotone_nonincreasing(merged),
                monotone_nonincreasing(merged) && q > 0 ==> running == merged[q - 1],
                monotone_nonincreasing(merged) ==> forall|w: int|
                    0 <= w < q ==> self.best_memory@[w] == merged[w],
                forall|w: int| 0 <= w < n ==> merged[w] <= old(self).best_memory@[w],
                forall|w: int| 0 <= w < q ==> self.best_memory@[w] <= merged[w],
                forall|w: int| q <= w < n ==> self.best_memory@[w] == merged[w],
                forall|w: int| 0 <= w < q ==> running <= self.best_memory@[w],
                monotone_nonincreasing(self.best_memory@.take(q as int)),
            decreases n - q,
        {
            let ghost running0 = running;
            let ghost bm_pre = self.best_memory@;
            let v = self.best_memory[q];
            if v < running {
                running = v;
            }
            self.best_memory.set(q, running);
            proof {
                if monotone_nonincreasing(merged) {
                    assert(bm_pre[q as int] == merged[q as int]);
                    if q > 0 {
                        assert(merged[q as int] <= merged[q as int - 1]);
                        assert(running0 == merged[q as int - 1]);
                    }
                    assert(running == merged[q as int]);
                    assert forall|w: int|
                        0 <= w < q + 1 implies self.best_memory@[w] == merged[w] by {
                        if w < q {
                            assert(self.best_memory@[w] == bm_pre[w]);
                        }
                    }
                }
                assert forall|i: int, j: int|
                    0 <= i <= j < q + 1 implies #[trigger] self.best_memory@.take(q as int + 1)[i]
                    >= #[trigger] self.best_memory@.take(q as int + 1)[j] by {
                    assert(self.best_memory@.take(q as int + 1)[i] == self.best_memory@[i]);
                    assert(self.best_memory@.take(q as int + 1)[j] == self.best_memory@[j]);
                    if j < q {
                        assert(bm_pre.take(q as int)[i] >= bm_pre.take(q as int)[j]);
                        assert(self.best_memory@[i] == bm_pre[i]);
                        assert(self.best_memory@[j] == bm_pre[j]);
                    } else {
                        assert(self.best_memory@[j] == running);
                        if i < q {
                            assert(self.best_memory@[i] == bm_pre[i]);
                            assert(running0 <= bm_pre[i]);
                            assert(running <= running0);
                        }
                    }
                }
            }
            q += 1;
        }
        proof {
            assert(self.best_memory@.take(n as int) =~= self.best_memory@);
            assert forall|t: int|
                0 <= t < self.results@.len() implies entry_bounded(
                self.best_memory@,
                self.results@,
                t,
            ) by {
                assert(entry_bounded(old(self).best_memory@, old(self).results@, t));
                assert(self.best_memory@[t] <= merged[t]);
                assert(merged[t] <= old(self).best_memory@[t]);
            }
            assert forall|w: int|
                0 <= w < n implies (#[trigger] self.best_memory@[w]) <= old(
                self,
            ).best_memory@[w] by {
                assert(self.best_memory@[w] <= merged[w]);
                assert(merged[w] <= old(self).best_memory@[w]);
            }
            assert forall|w: int|
                0 <= w < n implies (#[trigger] self.best_memory@[w]) <= shared@[w] by {
                assert(self.best_memory@[w] <= merged[w]);
                assert(merged[w] == shared@[w]);
            }
            assert(n == old(shared)@.len());
            if monotone_nonincreasing(old(shared)@) {
                assert forall|w: int|
                    0 <= w < n implies (#[trigger] self.best_memory@[w]) == shared@[w] by {
                    assert(self.best_memory@[w] == merged[w]);
                    assert(merged[w] == shared@[w]);
                }
            }
        }
    }

    /// Advances the walk by one event, leaving a step that survived pruning
    /// to the caller's decision.
    #[verifier::spinoff_prover]
    #[verifier::rlimit(100)]
    pub fn step_probabilistic(&mut self) -> (r: DriveEvent)
        requires
            old(self).wf(),
            old(self).pending is None,
        ensures
            final(self).wf(),
            final(self).fresh_front == old(self).fresh_front,
            final(self).root_state == old(self).root_state,
            final(self).adj == old(self).adj,
            final(self).best_memory@.len() == old(self).best_memory@.len(),
            forall|q: int|
                0 <= q < old(self).best_memory@.len() ==> final(self).best_memory@[q] <= old(
                    self,
                ).best_memory@[q],
            r is Done <==> old(self).sweep.stack@.len() == 0,
            r is Done ==> *final(self) == *old(self),
            r is PendingAccept ==> final(self).pending is Some,
            !(r is PendingAccept) ==> final(self).pending is None,
            r is Progressed ==> drove_pruned(*old(self), *final(self)) || (exists|
                leaf: Option<usize>,
            | #[trigger] drove_backward(*old(self), *final(self), leaf)),
            r matches DriveEvent::PendingAccept(q) ==> drove_pending(*old(self), *final(self), q),
    {
        let ghost pre = *self;
        let stepped = self.sweep.next();
        match stepped {
            None => {
                proof {
                    assert(*self == pre);
                }
                DriveEvent::Done
            },
            Some(Step::Forward(measure)) => {
                proof {
                    assert(forward_ok(pre.sweep, self.sweep, measure@));
                    lemma_chain_after_forward(pre, *self, measure@);
                }
                let ghost mid = *self;
                let at_leaf: bool;
                let pending_nodes: bool;
                let child_max: usize;
                let child_cur: usize;
                let child_remaining: usize;
                let parent_max: usize;
                let parent_cur: usize;
                let total: usize;
                {
                    let child = self.sweep.current();
                    at_leaf = child.time().at_leaf();
                    pending_nodes = child.time().has_unmeasureable();
                    child_max = child.space().max_memory();
                    child_cur = child.space().current_memory();
                    child_remaining = child.time().num_remaining_nodes();
                    total = child.space().nodes();
                }
                {
                    let idx = self.sweep.stack.len() - 2;
                    let parent = &self.sweep.stack[idx];
                    parent_max = parent.space.max_memory();
                    parent_cur = parent.space.current_memory();
                }
                let extra: usize = if at_leaf {
                    1
                } else if pending_nodes {
                    3
                } else {
                    2
                };
                let bmlen = self.best_memory.len();
                let plen = self.current_path.len();
                let prune = bmlen <= extra || plen >= bmlen - extra || self.best_memory[plen
                    + extra] <= child_max;
                proof {
                    let child = mid.sweep.stack@.last();
                    assert(prune == prune_at(
                        child,
                        pre.current_path@.len() as int,
                        pre.best_memory@,
                    ));
                }
                if prune {
                    let skipped = self.sweep.skip_current();
                    proof {
                        assert(self.sweep.stack@ == mid.sweep.stack@.drop_last());
                        lemma_after_prune(pre, mid, *self, measure@);
                    }
                    DriveEvent::Progressed
                } else {
                    let bound_best_mem = self.best_memory[plen + extra];
                    let minimal_mem = self.best_memory[bmlen - 1];
                    let query = AcceptQuery {
                        bound_best_mem,
                        minimal_mem,
                        last_max_mem: parent_max,
                        last_cur_mem: parent_cur,
                        cur_mem: child_cur,
                        num_remaining_nodes: child_remaining,
                        num_total_nodes: total,
                    };
                    self.pending = Some(measure);
                    proof {
                        assert(self.sweep == mid.sweep);
                        assert(drove_pending(pre, *self, query)) by {
                            assert(forward_ok(pre.sweep, self.sweep, measure@));
                            assert(query_describes(pre, *self, query));
                        }
                    }
                    DriveEvent::PendingAccept(query)
                }
            },
            Some(Step::Backward(leaf)) => {
                proof {
                    assert(backward_ok(pre.sweep, self.sweep, leaf));
                    if leaf matches Some(mem) {
                        let popped = pre.sweep.stack@.last();
                        let t = pre.current_path@.len() as int;
                        lemma_chain_run(pre.sweep.stack@, pre.current_path@, pre.adj@, t);
                        assert(state_of(popped).order.remaining == 0);
                        assert(run_steps(
                            pre.root_state@,
                            pre.adj@,
                            path_view(pre.current_path@),
                            t,
                        ) == state_of(popped));
                    }
                }
                backward(leaf, &mut self.current_path, &mut self.best_memory, &mut self.results);
                proof {
                    lemma_wf_after_backward(pre, *self, leaf);
                    assert(drove_backward(pre, *self, leaf));
                    assert(exists|l: Option<usize>| #[trigger] drove_backward(pre, *self, l)) by {
                        assert(drove_backward(pre, *self, leaf));
                    }
                }
                DriveEvent::Progressed
            },
        }
    }

    /// Takes or discards the pending step: accepting commits it to the
    /// current path, rejecting discards the child it led to.
    pub fn resolve(&mut self, accept: bool)
        requires
            old(self).wf(),
            old(self).pending is Some,
        ensures
            final(self).wf(),
            final(self).pending is None,
            final(self).fresh_front == old(self).fresh_front,
            final(self).root_state == old(self).root_state,
            final(self).adj == old(self).adj,
            final(self).best_memory == old(self).best_memory,
            final(self).results == old(self).results,
            old(self).pending matches Some(m) ==> ((accept ==> final(self).sweep == old(
                self,
            ).sweep && final(self).current_path@ == old(self).current_path@.push(m)) && (!accept
                ==> final(self).current_path@ == old(self).current_path@ && (old(
                self,
            ).sweep.stack@.len() > 0 ==> final(self).sweep.stack@ == old(
                self,
            ).sweep.stack@.drop_last()) && (old(self).sweep.stack@.len() == 0 ==> final(self).sweep
                == old(self).sweep))),
    {
        let ghost pre = *old(self);
        let taken = self.pending.take();
        match taken {
            Some(measure) => {
                if accept {
                    self.current_path.push(measure);
                    proof {
                        if pre.fresh_front@ {
                        assert forall|j: int| 0 <= j < self.current_path@.len() implies child_of(
                            self.sweep.stack@[j + 1],
                            self.sweep.stack@[j],
                            (#[trigger] self.current_path@[j])@,
                        ) by {
                            if j < pre.current_path@.len() {
                                assert(self.current_path@[j] == pre.current_path@[j]);
                                assert(child_of(
                                    pre.sweep.stack@[j + 1],
                                    pre.sweep.stack@[j],
                                    pre.current_path@[j]@,
                                ));
                            } else {
                                assert(j == pre.current_path@.len());
                                assert(self.current_path@[j] == measure);
                                assert(child_of(
                                    pre.sweep.stack@.last(),
                                    pre.sweep.stack@[j],
                                    measure@,
                                ));
                            }
                        }
                        }
                    }
                } else {
                    let ghost pre_stack = self.sweep.stack@;
                    let skipped = self.sweep.skip_current();
                    proof {
                        if pre_stack.len() > 0 {
                            assert(self.sweep.stack@ == pre_stack.drop_last());
                        }
                        if pre.fresh_front@ {
                        assert(pre_stack.len() > 0);
                        assert(self.sweep.stack@ == pre_stack.drop_last());
                        assert forall|j: int| 0 <= j < self.current_path@.len() implies child_of(
                            self.sweep.stack@[j + 1],
                            self.sweep.stack@[j],
                            (#[trigger] self.current_path@[j])@,
                        ) by {
                            assert(self.sweep.stack@[j + 1] == pre.sweep.stack@[j + 1]);
                            assert(self.sweep.stack@[j] == pre.sweep.stack@[j]);
                            assert(child_of(
                                pre.sweep.stack@[j + 1],
                                pre.sweep.stack@[j],
                                pre.current_path@[j]@,
                            ));
                        }
                        if self.sweep.stack@.len() > 0 {
                            assert(self.sweep.stack@[0] == pre.sweep.stack@[0]);
                        }
                        }
                    }
                }
            },
            None => {},
        }
    }

    /// Advances the deterministic walk by one event: every step that
    /// survives pruning is taken.  This is by construction the probabilistic
    /// step followed by an accepting resolution, so a caller of
    /// `step_probabilistic` that always accepts walks the identical sequence
    /// of states.
    pub fn step(&mut self) -> (done: bool)
        requires
            old(self).wf(),
            old(self).pending is None,
        ensures
            final(self).wf(),
            final(self).pending is None,
            final(self).fresh_front == old(self).fresh_front,
            final(self).root_state == old(self).root_state,
            final(self).adj == old(self).adj,
            final(self).best_memory@.len() == old(self).best_memory@.len(),
            done == (old(self).sweep.stack@.len() == 0),
            done ==> *final(self) == *old(self),
            !done ==> drove_pruned(*old(self), *final(self)) || drove_accepted(
                *old(self),
                *final(self),
            ) || (exists|leaf: Option<usize>|
                #[trigger] drove_backward(*old(self), *final(self), leaf)),
    {
        let ghost pre = *self;
        let e = self.step_probabilistic();
        match e {
            DriveEvent::Done => true,
            DriveEvent::Progressed => false,
            DriveEvent::PendingAccept(q) => {
                let ghost mid = *self;
                self.resolve(true);
                proof {
                    assert(drove_pending(pre, mid, q));
                    assert(mid.pending matches Some(m) && self.sweep == mid.sweep
                        && self.current_path@ == mid.current_path@.push(m));
                    assert(drove_accepted(pre, *self)) by {
                        let m = mid.pending.unwrap();
                        assert(self.current_path@.last() == m);
                        assert(forward_ok(pre.sweep, self.sweep, m@));
                        assert(!prune_at(
                            self.sweep.stack@.last(),
                            pre.current_path@.len() as int,
                            pre.best_memory@,
                        ));
                    }
                }
                false
            },
        }
    }
}

/// After a `Forward` event the stack still mirrors the path, with the new
/// child on top awaiting the pruning decision.
pub proof fn lemma_chain_after_forward(pre: SearchDriver, post: SearchDriver, s: Seq<usize>)
    requires
        pre.wf(),
        pre.pending is None,
        pre.sweep.stack@.len() > 0,
        forward_ok(pre.sweep, post.sweep, s),
        post.sweep.wf(),
        post.current_path == pre.current_path,
        post.results == pre.results,
        post.best_memory == pre.best_memory,
        post.root_state == pre.root_state,
        post.adj == pre.adj,
        post.pending is None,
    ensures
        post.sweep.stack@.len() == post.current_path@.len() + 2,
        child_of(
            post.sweep.stack@.last(),
            post.sweep.stack@[post.current_path@.len() as int],
            s,
        ),
        chain_ok(post.sweep.stack@, post.current_path@),
        post.sweep.stack@.len() > 0 && state_of(post.sweep.stack@[0]) == post.root_state@
            && post.sweep.stack@[0].space.adj() == post.adj@,
{
    let n = pre.sweep.stack@.len();
    assert forall|j: int| 0 <= j < post.current_path@.len() implies child_of(
        post.sweep.stack@[j + 1],
        post.sweep.stack@[j],
        (#[trigger] post.current_path@[j])@,
    ) by {
        assert(child_of(pre.sweep.stack@[j + 1], pre.sweep.stack@[j], (pre.current_path@[j])@));
        if j + 1 < n - 1 {
            assert(post.sweep.stack@[j] == pre.sweep.stack@[j]);
            assert(post.sweep.stack@[j + 1] == pre.sweep.stack@[j + 1]);
        } else {
            assert(j + 1 == n - 1);
            assert(post.sweep.stack@[j] == pre.sweep.stack@[j]);
            assert(post.sweep.stack@[j + 1].wf_partial());
            lemma_child_of_same_core(
                pre.sweep.stack@[j + 1],
                post.sweep.stack@[j + 1],
                pre.sweep.stack@[j],
                pre.current_path@[j]@,
            );
        }
    }
    if n == 1 {
        assert(post.sweep.stack@[0].time == pre.sweep.stack@[0].time);
        assert(post.sweep.stack@[0].space == pre.sweep.stack@[0].space);
    } else {
        assert(post.sweep.stack@[0] == pre.sweep.stack@[0]);
    }
}

/// `child_of` looks only at the parent's time order and spatial view, so it
/// carries over to a parent whose partitioner advanced.
pub proof fn lemma_child_of_same_parent(
    child: Scheduler,
    p1: Scheduler,
    p2: Scheduler,
    s: Seq<usize>,
)
    requires
        child_of(child, p1, s),
        p2.time == p1.time,
        p2.space == p1.space,
    ensures
        child_of(child, p2, s),
{
}

/// `child_of` looks only at the time order and the spatial view, so it
/// carries over to a scheduler whose partitioner advanced.
pub proof fn lemma_child_of_same_core(c1: Scheduler, c2: Scheduler, parent: Scheduler, s: Seq<usize>)
    requires
        child_of(c1, parent, s),
        c2.time == c1.time,
        c2.space == c1.space,
        c2.wf_partial(),
    ensures
        child_of(c2, parent, s),
{
}

/// Descending into a child and discarding it at once leaves a sound driver
/// whose transition is the pruning one.
pub proof fn lemma_after_prune(pre: SearchDriver, mid: SearchDriver, post: SearchDriver, s: Seq<usize>)
    requires
        pre.wf(),
        pre.pending is None,
        pre.sweep.stack@.len() > 0,
        forward_ok(pre.sweep, mid.sweep, s),
        mid.sweep.wf(),
        mid.current_path == pre.current_path,
        mid.results == pre.results,
        mid.best_memory == pre.best_memory,
        mid.pending == pre.pending,
        mid.fresh_front == pre.fresh_front,
        mid.root_state == pre.root_state,
        mid.adj == pre.adj,
        post.sweep.stack@ == mid.sweep.stack@.drop_last(),
        post.sweep.wf(),
        post.current_path == pre.current_path,
        post.results == pre.results,
        post.best_memory == pre.best_memory,
        post.pending == pre.pending,
        post.fresh_front == pre.fresh_front,
        post.root_state == pre.root_state,
        post.adj == pre.adj,
        prune_at(mid.sweep.stack@.last(), pre.current_path@.len() as int, pre.best_memory@),
    ensures
        post.wf(),
        drove_pruned(pre, post),
{
    let child = mid.sweep.stack@.last();
    let n = pre.sweep.stack@.len();
    lemma_chain_after_forward(pre, mid, s);
    // the stack mirrors the path again after the discard
    assert(post.sweep.stack@.len() == post.current_path@.len() + 1);
    assert forall|j: int| 0 <= j < post.current_path@.len() implies child_of(
        post.sweep.stack@[j + 1],
        post.sweep.stack@[j],
        (#[trigger] post.current_path@[j])@,
    ) by {
        assert(post.sweep.stack@[j + 1] == mid.sweep.stack@[j + 1]);
        assert(post.sweep.stack@[j] == mid.sweep.stack@[j]);
        assert(child_of(mid.sweep.stack@[j + 1], mid.sweep.stack@[j], mid.current_path@[j]@));
    }
    assert(post.sweep.stack@[0] == mid.sweep.stack@[0]);
    // the discarded child and its step witness the pruning transition
    assert(post.sweep.stack@.last() == mid.sweep.stack@[n - 1]);
    lemma_child_of_same_parent(child, pre.sweep.stack@.last(), post.sweep.stack@.last(), s);
    assert(drove_pruned(pre, post)) by {
        assert(child_of(child, post.sweep.stack@.last(), s));
        assert(crate::partition::next_rel(
            pre.sweep.stack@.last().part,
            post.sweep.stack@.last().part,
            Some(s),
        ));
        assert(prune_at(child, pre.current_path@.len() as int, pre.best_memory@));
    }
}

/// After a `Backward` event the shortened path still mirrors the stack and
/// every recorded entry is a completed schedule.
#[verifier::spinoff_prover]
#[verifier::rlimit(100)]
pub proof fn lemma_wf_after_backward(pre: SearchDriver, post: SearchDriver, leaf: Option<usize>)
    requires
        pre.wf(),
        pre.pending is None,
        pre.sweep.stack@.len() > 0,
        backward_ok(pre.sweep, post.sweep, leaf),
        post.pending is None,
        post.fresh_front == pre.fresh_front,
        post.root_state == pre.root_state,
        post.adj == pre.adj,
        post.sweep.stack@ == pre.sweep.stack@.drop_last(),
        post.results@.len() == pre.results@.len(),
        post.best_memory@.len() == pre.best_memory@.len(),
        monotone_nonincreasing(post.best_memory@),
        post.sweep.wf(),
        pre.current_path@.len() > 0 ==> post.current_path@ == pre.current_path@.drop_last(),
        pre.current_path@.len() == 0 ==> post.current_path@ == pre.current_path@,
        leaf is None ==> post.results@ == pre.results@ && post.best_memory@ == pre.best_memory@,
        leaf matches Some(mem) ==> ((record_fires(
            pre.best_memory@,
            pre.current_path@.len() as int,
            mem,
        ) ==> post.best_memory@ == bm_after_record(
            pre.best_memory@,
            pre.current_path@.len() as int,
            mem,
        ) && results_after_record(
            pre.results@,
            post.results@,
            pre.current_path@.len() as int,
            mem,
            pre.current_path,
        ) && schedule_reaches(
            pre.root_state@,
            pre.adj@,
            path_view(pre.current_path@),
            pre.current_path@.len() as int,
            mem as int,
        )) && (!record_fires(pre.best_memory@, pre.current_path@.len() as int, mem)
            ==> post.results@ == pre.results@ && post.best_memory@ == pre.best_memory@)),
    ensures
        post.wf(),
{
    let t = pre.current_path@.len() as int;
    assert(post.pending is None);
    // recorded entries stay bounded by the front
    assert forall|q: int|
        0 <= q < post.results@.len() implies entry_bounded(
        post.best_memory@,
        post.results@,
        q,
    ) by {
        assert(entry_bounded(pre.best_memory@, pre.results@, q));
        match leaf {
            Some(mem) => {
                if record_fires(pre.best_memory@, t, mem) {
                    if q != t {
                        assert(post.results@[q] == pre.results@[q]);
                        assert(post.best_memory@[q] <= pre.best_memory@[q]);
                    }
                }
            },
            None => {},
        }
    }
    {
        // the stack keeps mirroring the shortened path
        if pre.current_path@.len() > 0 {
            assert(post.sweep.stack@.len() == post.current_path@.len() + 1);
            assert forall|j: int| 0 <= j < post.current_path@.len() implies child_of(
                post.sweep.stack@[j + 1],
                post.sweep.stack@[j],
                (#[trigger] post.current_path@[j])@,
            ) by {
                assert(post.sweep.stack@[j + 1] == pre.sweep.stack@[j + 1]);
                assert(post.sweep.stack@[j] == pre.sweep.stack@[j]);
                assert(post.current_path@[j] == pre.current_path@[j]);
                assert(child_of(
                    pre.sweep.stack@[j + 1],
                    pre.sweep.stack@[j],
                    pre.current_path@[j]@,
                ));
            }
        }
        if post.sweep.stack@.len() > 0 {
            assert(post.sweep.stack@[0] == pre.sweep.stack@[0]);
        }
        // every entry of the result map stays a completed schedule
        assert forall|q: int| entry_valid_at(post.root_state@, post.adj@, post.results@, q) by {
            if 0 <= q < post.results@.len() && post.results@[q] is Some {
                match leaf {
                    Some(mem) => {
                        if record_fires(pre.best_memory@, t, mem) {
                            if q == t {
                                assert(post.results@[q] matches Some(e) && e.0 == mem
                                    && steps_seq(e.1) == steps_seq(pre.current_path));
                                assert(steps_seq(pre.current_path) == path_view(
                                    pre.current_path@,
                                ));
                                // every recorded step came from a child edge,
                                // which measures at least one node
                                assert forall|k: int|
                                    0 <= k < pre.current_path@.len() implies (#[trigger] path_view(
                                    pre.current_path@,
                                )[k]).len() >= 1 by {
                                    assert(child_of(
                                        pre.sweep.stack@[k + 1],
                                        pre.sweep.stack@[k],
                                        (pre.current_path@[k])@,
                                    ));
                                }
                            } else {
                                assert(post.results@[q] == pre.results@[q]);
                                assert(entry_valid_at(pre.root_state@, pre.adj@, pre.results@, q));
                            }
                        } else {
                            assert(post.results@[q] == pre.results@[q]);
                            assert(entry_valid_at(pre.root_state@, pre.adj@, pre.results@, q));
                        }
                    },
                    None => {
                        assert(post.results@[q] == pre.results@[q]);
                        assert(entry_valid_at(pre.root_state@, pre.adj@, pre.results@, q));
                    },
                }
            }
        }
        // every finite bound of a fresh front stays witnessed by an entry
        if pre.fresh_front@ {
        assert forall|q: int|
            0 <= q < post.best_memory@.len() && post.best_memory@[q] < usize::MAX
            implies entry_witnessed(post.best_memory@, post.results@, q) by {
            match leaf {
                Some(mem) => {
                    if record_fires(pre.best_memory@, t, mem) {
                        if q == t {
                            assert(post.results@[t] matches Some(e) && e.0 <= post.best_memory@[
                            q]);
                            assert(entry_witnessed(post.best_memory@, post.results@, q));
                        } else if q < t {
                            assert(post.best_memory@[q] == pre.best_memory@[q]);
                            assert(entry_witnessed(pre.best_memory@, pre.results@, q));
                            let t2 = choose|t2: int|
                                0 <= t2 <= q && ((#[trigger] pre.results@[t2]) matches Some(e)
                                    && e.0 <= pre.best_memory@[q]);
                            assert(post.results@[t2] == pre.results@[t2]);
                            assert(entry_witnessed(post.best_memory@, post.results@, q));
                        } else {
                            if mem < pre.best_memory@[q] {
                                assert(post.best_memory@[q] == mem);
                                assert(post.results@[t] matches Some(e) && e.0 == mem);
                                assert(entry_witnessed(post.best_memory@, post.results@, q));
                            } else {
                                assert(post.best_memory@[q] == pre.best_memory@[q]);
                                assert(entry_witnessed(pre.best_memory@, pre.results@, q));
                                let t2 = choose|t2: int|
                                    0 <= t2 <= q && ((#[trigger] pre.results@[t2]) matches Some(e)
                                        && e.0 <= pre.best_memory@[q]);
                                if t2 == t {
                                    // the overwritten entry was itself within
                                    // the bound, so the replacement is too
                                    assert(entry_bounded(pre.best_memory@, pre.results@, t));
                                    assert(pre.best_memory@[t] <= pre.results@[t].unwrap().0);
                                    assert(pre.best_memory@[t] <= pre.best_memory@[q]);
                                    assert(mem <= pre.best_memory@[t]);
                                    assert(mem <= post.best_memory@[q]);
                                    assert(post.results@[t] matches Some(e) && e.0 == mem);
                                    assert(entry_witnessed(post.best_memory@, post.results@, q));
                                } else {
                                    assert(post.results@[t2] == pre.results@[t2]);
                                    assert(entry_witnessed(post.best_memory@, post.results@, q));
                                }
                            }
                        }
                    } else {
                        assert(entry_witnessed(pre.best_memory@, pre.results@, q));
                        let t2 = choose|t2: int|
                            0 <= t2 <= q && ((#[trigger] pre.results@[t2]) matches Some(e) && e.0
                                <= pre.best_memory@[q]);
                        assert(entry_witnessed(post.best_memory@, post.results@, q));
                    }
                },
                None => {
                    assert(entry_witnessed(pre.best_memory@, pre.results@, q));
                    let t2 = choose|t2: int|
                        0 <= t2 <= q && ((#[trigger] pre.results@[t2]) matches Some(e) && e.0
                            <= pre.best_memory@[q]);
                    assert(entry_witnessed(post.best_memory@, post.results@, q));
                },
            }
        }
        }
    }
}

/// Runs the deterministic sweep to completion: the full branch-and-bound
/// walk of the tree rooted at `root`, collecting per length the best
/// completed schedule found.
pub fn do_search(root: Scheduler, num_bits: usize) -> (r: (MappedPaths, Vec<usize>))
    requires
        root.wf_partial(),
        num_bits < usize::MAX,
    ensures
        r.0@.len() == num_bits + 1,
        r.1@.len() == num_bits + 1,
        monotone_nonincreasing(r.1@),
        forall|t: int| entry_valid_at(state_of(root), root.space.adj(), r.0@, t),
        forall|t: int| 0 <= t < r.0@.len() ==> entry_bounded(r.1@, r.0@, t),
        forall|t: int|
            0 <= t < r.1@.len() && r.1@[t] < usize::MAX ==> entry_witnessed(r.1@, r.0@, t),
        state_of(root).order.remaining == 0 ==> r.0@[0] is Some,
{
    let ghost rs0 = state_of(root);
    let ghost adj = root.space.adj();
    let mut driver = SearchDriver::new(root, num_bits);
    let mut fuel: u64 = u64::MAX;
    let mut done = false;
    while !done && fuel > 0
        invariant
            driver.wf(),
            driver.fresh_front@,
            driver.pending is None,
            driver.root_state@ == rs0,
            driver.adj@ == adj,
            driver.best_memory@.len() == num_bits + 1,
            driver.results@.len() == num_bits + 1,
            rs0.order.remaining == 0 ==> (driver.results@[0] is Some || (fuel == u64::MAX
                && driver.sweep.stack@.len() == 1 && state_of(driver.sweep.stack@[0]) == rs0
                && driver.current_path@.len() == 0 && driver.best_memory@[0] == usize::MAX)),
            done ==> fuel < u64::MAX,
        decreases fuel,
    {
        let ghost pre_d = driver;
        done = driver.step();
        proof {
            if rs0.order.remaining == 0 {
                if pre_d.results@[0] is Some {
                    // a recorded trivial schedule stays recorded
                    assert(driver.results@[0] is Some) by {
                        if done {
                        } else if drove_pruned(pre_d, driver) {
                        } else if drove_accepted(pre_d, driver) {
                        } else {
                            let leaf = choose|l: Option<usize>|
                                #[trigger] drove_backward(pre_d, driver, l);
                            let t = pre_d.current_path@.len() as int;
                            match leaf {
                                Some(mem) => {
                                    if record_fires(pre_d.best_memory@, t, mem) {
                                        if t != 0 {
                                            assert(driver.results@[0] == pre_d.results@[0]);
                                        }
                                    }
                                },
                                None => {},
                            }
                        }
                    }
                } else if !done {
                    // the root itself is the completed schedule; the only
                    // possible move is returning from it, which records it
                    let top = pre_d.sweep.stack@[0];
                    assert(top.time.view().remaining == 0);
                    crate::time::lemma_no_remaining_no_front(top.time.view());
                    assert(top.wf_partial());
                    assert(top.part.set@.len() == 0);
                    assert(top.part.done()) by {
                        if top.part.started && !top.part.exhausted {
                            assert(1 <= top.part.combo@.len() <= top.part.set@.len());
                        }
                    }
                    if drove_pruned(pre_d, driver) {
                        let (child, st) = choose|child: Scheduler, st: Seq<usize>|
                            #[trigger] child_of(child, driver.sweep.stack@.last(), st)
                                && crate::partition::next_rel(
                                pre_d.sweep.stack@.last().part,
                                driver.sweep.stack@.last().part,
                                Some(st),
                            ) && prune_at(
                                child,
                                pre_d.current_path@.len() as int,
                                pre_d.best_memory@,
                            );
                        assert(false);
                    } else if drove_accepted(pre_d, driver) {
                        assert(false);
                    } else {
                        let leaf = choose|l: Option<usize>|
                            #[trigger] drove_backward(pre_d, driver, l);
                        assert(backward_ok(pre_d.sweep, driver.sweep, leaf));
                        assert(leaf == Some(top.space.max_memory));
                        assert(record_fires(pre_d.best_memory@, 0, top.space.max_memory));
                        assert(driver.results@[0] is Some);
                    }
                }
            }
        }
        fuel -= 1;
    }
    (driver.results, driver.best_memory)
}

/// The greedy time-optimal schedule: measure the whole measurable front at
/// every step until nothing is measurable.
pub open spec fn greedy_steps(m: OrderModel, fuel: nat) -> Seq<Seq<usize>>
    decreases fuel,
{
    if fuel == 0 || m.measurable.len() == 0 {
        Seq::<Seq<usize>>::empty()
    } else {
        seq![m.measurable] + greedy_steps(
            m.focus(m.measurable, m.measurable.len() as int),
            (fuel - 1) as nat,
        )
    }
}

/// The whole measurable front is an admissible step.
pub proof fn lemma_front_admissible(m: OrderModel)
    requires
        m.wf(),
    ensures
        m.step_admissible(m.measurable),
{
    let s = m.measurable;
    assert forall|i: int|
        0 <= i < s.len() implies #[trigger] s[i] < m.n() && m.status[s[i] as int]
        == crate::time::OrderStatus::Measurable && !s.take(i).contains(s[i]) by {
        if s.take(i).contains(s[i]) {
            let h = choose|h: int| 0 <= h < i && #[trigger] s.take(i)[h] == s[i];
            assert(s[h] == s[i]);
        }
    }
}

/// Greedily saturating the measurable front, step by step, from the state
/// the inputs start in.
pub fn get_time_optimal(spacial_graph: &crate::space::SpacialGraph, time_ordering: &crate::time::PartialOrderGraph) -> (r: Vec<crate::interface::Path>)
    requires
        spacial_graph.wf(),
        crate::time::valid_order(time_ordering.view(), spacial_graph.view().len()),
    ensures
        r@.len() == 1,
        r@[0].time == r@[0].steps_view().len(),
        r@[0].steps_view() == greedy_steps(
            build_model(time_ordering.view(), spacial_graph.view().len()),
            spacial_graph.view().len() + 1,
        ),
        steps_nonempty(r@[0].steps_view()),
        steps_admissible(
            initial_state(time_ordering.view(), spacial_graph.view().len()),
            spacial_graph.view(),
            r@[0].steps_view(),
            r@[0].steps_view().len() as int,
        ),
        r@[0].space == run_steps(
            initial_state(time_ordering.view(), spacial_graph.view().len()),
            spacial_graph.view(),
            r@[0].steps_view(),
            r@[0].steps_view().len() as int,
        ).max,
        run_steps(
            initial_state(time_ordering.view(), spacial_graph.view().len()),
            spacial_graph.view(),
            r@[0].steps_view(),
            r@[0].steps_view().len() as int,
        ).order.measurable.len() == 0,
        crate::time::tight_order(time_ordering.view(), spacial_graph.view().len()) ==> r@[0].time
            == time_ordering.view().len(),
        path_valid(
            initial_state(time_ordering.view(), spacial_graph.view().len()),
            spacial_graph.view(),
            r@[0],
        ),
        run_steps(
            initial_state(time_ordering.view(), spacial_graph.view().len()),
            spacial_graph.view(),
            r@[0].steps_view(),
            r@[0].steps_view().len() as int,
        ).order == build_model(time_ordering.view(), spacial_graph.view().len()).focus_all(
            r@[0].steps_view(),
        ),
{
    let ghost n = spacial_graph.view().len();
    let ghost m0 = build_model(time_ordering.view(), n);
    let ghost rs0 = initial_state(time_ordering.view(), n);
    let ghost adj = spacial_graph.view();
    let ghost fuel0 = n + 1;
    let num = spacial_graph.len();
    let time = crate::time::build_from_order(time_ordering, num);
    let space = crate::space::Graph::new(spacial_graph);
    let mut sched = Scheduler::new(time, space);
    let mut path: Steps = Vec::new();
    proof {
        assert(state_of(sched) == rs0) by {
            assert(state_of(sched).status =~= rs0.status);
        }
        assert(path_view(path@) =~= Seq::<Seq<usize>>::empty());
        crate::time::lemma_remaining_bounds(m0);
    }
    while sched.time.measurable.len() > 0
        invariant
            sched.wf(),
            adj == spacial_graph.view(),
            n == adj.len(),
            m0 == build_model(time_ordering.view(), n),
            rs0 == initial_state(time_ordering.view(), n),
            fuel0 == n + 1,
            sched.space.adj() == adj,
            steps_nonempty(path_view(path@)),
            steps_admissible(rs0, adj, path_view(path@), path@.len() as int),
            run_steps(rs0, adj, path_view(path@), path@.len() as int) == state_of(sched),
            greedy_steps(m0, fuel0) == path_view(path@) + greedy_steps(
                sched.time.view(),
                (fuel0 - path@.len()) as nat,
            ),
            path@.len() + sched.time.view().remaining <= n,
            path@.len() <= n,
            crate::time::valid_order(time_ordering.view(), n),
            crate::time::counters_sound(time_ordering.view(), sched.time.view()),
            forall|x: int|
                0 <= x < sched.time.view().deps.len() ==> #[trigger] sched.time.view().deps[x]
                    >= 0,
            sched.time.view().n() == n,
        decreases sched.time.view().remaining,
    {
        let ghost m_now = sched.time.view();
        let ghost rs_now = state_of(sched);
        let mset = crate::space::clone_usize_vec(sched.time.measurable());
        proof {
            lemma_front_admissible(m_now);
            crate::time::lemma_focus_props(m_now, mset@, mset@.len() as int);
        }
        let stepped = sched.focus_inplace(&mset);
        proof {
            assert(stepped is Ok);
        }
        let ghost old_path = path@;
        path.push(mset);
        proof {
            assert(path_view(path@) =~= path_view(old_path).push(m_now.measurable));
            // the new prefix stays admissible and replays to the new state
            lemma_steps_admissible_push(rs0, adj, path_view(old_path), m_now.measurable, rs_now);
            assert(run_steps(rs0, adj, path_view(path@), path@.len() as int) == run_step(
                rs_now,
                adj,
                m_now.measurable,
            )) by {
                assert(run_steps(rs0, adj, path_view(path@), path@.len() as int - 1) == run_steps(
                    rs0,
                    adj,
                    path_view(old_path),
                    old_path.len() as int,
                )) by {
                    lemma_run_steps_grow(rs0, adj, path_view(old_path), path_view(path@));
                }
                assert(path_view(path@)[path@.len() - 1] == m_now.measurable);
            }
            assert(run_step(rs_now, adj, m_now.measurable) == state_of(sched)) by {
                assert(run_step(rs_now, adj, m_now.measurable).status == state_of(sched).status);
                assert(run_step(rs_now, adj, m_now.measurable).order == state_of(sched).order);
                assert(run_step(rs_now, adj, m_now.measurable).max == state_of(sched).max);
            }
            // the greedy tail unfolds by exactly this step
            assert(greedy_steps(m_now, (fuel0 - old_path.len()) as nat) == seq![m_now.measurable]
                + greedy_steps(sched.time.view(), (fuel0 - path@.len()) as nat));
            assert(path_view(path@) + greedy_steps(sched.time.view(), (fuel0 - path@.len()) as nat)
                =~= path_view(old_path) + greedy_steps(m_now, (fuel0 - old_path.len()) as nat));
            crate::time::lemma_remaining_bounds(sched.time.view());
            crate::time::lemma_focus_preserves_sound(
                time_ordering.view(),
                m_now,
                mset@,
                mset@.len() as int,
            );
        }
    }
    let max_memory = sched.space.max_memory();
    let time_cost = path.len();
    let r_path = crate::interface::Path { time: time_cost, space: max_memory, steps: path };
    let mut r: Vec<crate::interface::Path> = Vec::new();
    r.push(r_path);
    proof {
        assert(sched.time.view().measurable.len() == 0);
        crate::time::lemma_no_deadlock(time_ordering.view(), sched.time.view());
        assert(sched.time.view().remaining == 0);
        assert(greedy_steps(sched.time.view(), (fuel0 - r@[0].steps@.len()) as nat)
            =~= Seq::<Seq<usize>>::empty());
        assert(r@[0].steps_view() =~= path_view(r@[0].steps@));
        assert(greedy_steps(m0, fuel0) =~= r@[0].steps_view());
        lemma_focus_all_from_run(rs0, adj, r@[0].steps_view(), r@[0].steps_view().len() as int);
        assert(r@[0].steps_view().take(r@[0].steps_view().len() as int) =~= r@[0].steps_view());
        if crate::time::tight_order(time_ordering.view(), n) {
            // greedy saturation takes exactly one step per layer
            assert(crate::time::layered_state(time_ordering.view(), m0, 0)) by {
                lemma_initial_state_layered(time_ordering.view(), m0, n);
            }
            crate::time::lemma_remaining_bounds(m0);
            lemma_greedy_full_length(time_ordering.view(), m0, 0, n + 1);
            assert(greedy_steps(m0, fuel0).len() == time_ordering.view().len());
        }
    }
    r
}

/// The freshly built front of a tight order is the layered state before any
/// step: the first layer is measurable, the rest waits.
pub proof fn lemma_initial_state_layered(
    order: Seq<Seq<(usize, Vec<usize>)>>,
    m: OrderModel,
    n: nat,
)
    requires
        m.wf(),
        m.n() == n,
        n <= usize::MAX,
        crate::time::tight_order(order, n),
        crate::time::counters_exact(order, m),
        forall|x: int| 0 <= x < m.deps.len() ==> #[trigger] m.deps[x] >= 0,
        forall|v: int| 0 <= v < n ==> m.status[v] != crate::time::OrderStatus::Measured,
    ensures
        crate::time::layered_state(order, m, 0),
{
    assert forall|l: int, i: int|
        0 <= l < order.len() && 0 <= i < order[l].len() implies m.status[(
    #[trigger] crate::time::node_at(order, l, i)) as int] == (if l < 0 {
        crate::time::OrderStatus::Measured
    } else if l == 0 {
        crate::time::OrderStatus::Measurable
    } else {
        crate::time::OrderStatus::Pending
    }) by {
        let t = crate::time::node_at(order, l, i);
        assert(crate::time::entry_valid(order, n, l, i));
        assert(t < n);
        assert(m.status[t as int] != crate::time::OrderStatus::Excluded) by {
            assert(crate::time::mentioned_in(order, t)) by {
                assert(((0 <= l < order.len() as int && 0 <= i < order[l].len()) || (l
                    == order.len() as int && 0 <= i < 0)) && crate::time::node_at(order, l, i)
                    == t);
            }
        }
        let ds = crate::time::deps_at(order, l, i);
        if l == 0 {
            assert(ds.len() == 0) by {
                if ds.len() > 0 {
                    assert(crate::time::mentioned_before(order, 0, 0, ds[0]));
                    let (l2, i2) = choose|l2: int, i2: int|
                        ((0 <= l2 < 0 && 0 <= i2 < order[l2].len()) || (l2 == 0 && 0 <= i2 < 0))
                            && #[trigger] crate::time::node_at(order, l2, i2) == ds[0];
                }
            }
            assert(crate::time::count_unmet(ds, m.status) == 0);
            assert(m.deps[t as int] <= 0 && m.deps[t as int] >= 0);
            assert(m.status[t as int] != crate::time::OrderStatus::Pending);
            assert(m.status[t as int] == crate::time::OrderStatus::Measurable);
        } else {
            assert(crate::time::has_dep_in_previous(order, l, i));
            let k = choose|k: int|
                0 <= k < crate::time::deps_at(order, l, i).len() && crate::time::in_layer(
                    order,
                    l - 1,
                    #[trigger] crate::time::deps_at(order, l, i)[k],
                );
            assert(ds[k] < n);
            crate::time::lemma_count_unmet_pos(ds, m.status, k);
            assert(m.deps[t as int] >= 1);
            assert(m.status[t as int] != crate::time::OrderStatus::Measurable);
            assert(m.status[t as int] == crate::time::OrderStatus::Pending);
        }
    }
}

/// Appending a step to an admissible prefix that replays to a state on
/// which the step is admissible keeps the whole admissible.
pub proof fn lemma_steps_admissible_push(
    rs0: RunState,
    adj: Seq<Seq<usize>>,
    steps: Seq<Seq<usize>>,
    s: Seq<usize>,
    rs_now: RunState,
)
    requires
        steps_admissible(rs0, adj, steps, steps.len() as int),
        run_steps(rs0, adj, steps, steps.len() as int) == rs_now,
        rs_now.order.step_admissible(s),
    ensures
        steps_admissible(rs0, adj, steps.push(s), steps.len() as int + 1),
{
    lemma_run_steps_grow(rs0, adj, steps, steps.push(s));
    lemma_steps_admissible_grow(rs0, adj, steps, steps.push(s), steps.len() as int);
    assert(run_steps(rs0, adj, steps.push(s), steps.len() as int) == rs_now);
    assert(steps.push(s)[steps.len() as int] == s);
}

/// Replaying a prefix only looks at the prefix.
pub proof fn lemma_run_steps_grow(
    rs0: RunState,
    adj: Seq<Seq<usize>>,
    a: Seq<Seq<usize>>,
    b: Seq<Seq<usize>>,
)
    requires
        a.len() <= b.len(),
        forall|i: int| 0 <= i < a.len() ==> a[i] == b[i],
    ensures
        forall|k: int| 0 <= k <= a.len() ==> run_steps(rs0, adj, a, k) == run_steps(rs0, adj, b, k),
{
    assert forall|k: int| 0 <= k <= a.len() implies run_steps(rs0, adj, a, k) == run_steps(
        rs0,
        adj,
        b,
        k,
    ) by {
        lemma_run_steps_grow_at(rs0, adj, a, b, k);
    }
}

pub proof fn lemma_run_steps_grow_at(
    rs0: RunState,
    adj: Seq<Seq<usize>>,
    a: Seq<Seq<usize>>,
    b: Seq<Seq<usize>>,
    k: int,
)
    requires
        a.len() <= b.len(),
        forall|i: int| 0 <= i < a.len() ==> a[i] == b[i],
        0 <= k <= a.len(),
    ensures
        run_steps(rs0, adj, a, k) == run_steps(rs0, adj, b, k),
    decreases k,
{
    if k > 0 {
        lemma_run_steps_grow_at(rs0, adj, a, b, k - 1);
    }
}

/// Admissibility of a prefix only looks at the prefix.
pub proof fn lemma_steps_admissible_grow(
    rs0: RunState,
    adj: Seq<Seq<usize>>,
    a: Seq<Seq<usize>>,
    b: Seq<Seq<usize>>,
    k: int,
)
    requires
        a.len() <= b.len(),
        forall|i: int| 0 <= i < a.len() ==> a[i] == b[i],
        0 <= k <= a.len(),
        steps_admissible(rs0, adj, a, k),
    ensures
        steps_admissible(rs0, adj, b, k),
    decreases k,
{
    if k > 0 {
        lemma_steps_admissible_grow(rs0, adj, a, b, k - 1);
        lemma_run_steps_grow_at(rs0, adj, a, b, k - 1);
    }
}

/// Replaying steps drives the time order through its own fold.
pub proof fn lemma_focus_all_from_run(
    rs0: RunState,
    adj: Seq<Seq<usize>>,
    steps: Seq<Seq<usize>>,
    k: int,
)
    requires
        0 <= k <= steps.len(),
    ensures
        run_steps(rs0, adj, steps, k).order == rs0.order.focus_all(steps.take(k)),
    decreases k,
{
    if k > 0 {
        lemma_focus_all_from_run(rs0, adj, steps, k - 1);
        assert(steps.take(k).drop_last() =~= steps.take(k - 1));
        assert(steps.take(k).last() == steps[k - 1]);
    } else {
        assert(steps.take(0) =~= Seq::<Seq<usize>>::empty());
    }
}

/// On a tight layered order, greedy saturation takes exactly one step per
/// layer: each step measures the whole front layer and uncovers the next.
pub proof fn lemma_greedy_full_length(
    order: Seq<Seq<(usize, Vec<usize>)>>,
    m: OrderModel,
    j: int,
    fuel: nat,
)
    requires
        m.wf(),
        m.n() <= usize::MAX,
        crate::time::tight_order(order, m.n()),
        crate::time::counters_exact(order, m),
        forall|x: int| 0 <= x < m.deps.len() ==> #[trigger] m.deps[x] >= 0,
        crate::time::layered_state(order, m, j),
        0 <= j <= order.len(),
        fuel >= m.remaining,
    ensures
        m.remaining >= order.len() - j,
        greedy_steps(m, fuel).len() == order.len() - j,
    decreases order.len() - j,
{
    if j == order.len() {
        crate::time::lemma_remaining_bounds(m);
        assert(m.measurable.len() == 0) by {
            if m.measurable.len() > 0 {
                let x = m.measurable[0];
                assert(m.measurable.contains(x));
                assert(m.status[x as int] == crate::time::OrderStatus::Measurable);
                assert(crate::time::mentioned_in(order, x));
                let (l2, i2) = choose|l2: int, i2: int|
                    ((0 <= l2 < order.len() as int && 0 <= i2 < order[l2].len()) || (l2
                        == order.len() as int && 0 <= i2 < 0)) && #[trigger] crate::time::node_at(
                        order,
                        l2,
                        i2,
                    ) == x;
                assert(m.status[crate::time::node_at(order, l2, i2) as int]
                    == crate::time::OrderStatus::Measured);
            }
        }
    } else {
        crate::time::lemma_greedy_layers(order, m, j);
        let s = m.measurable;
        let m2 = m.focus(s, s.len() as int);
        crate::time::lemma_focus_preserves_exact(order, m, s, s.len() as int);
        crate::time::lemma_focus_props(m, s, s.len() as int);
        assert(m.remaining >= 1) by {
            assert(m.status[s[0] as int] == crate::time::OrderStatus::Measurable);
            crate::time::lemma_count_unmeasured_pos(m.status, s[0] as int);
        }
        assert(fuel > 0);
        assert(greedy_steps(m, fuel) == seq![s] + greedy_steps(m2, (fuel - 1) as nat));
        lemma_greedy_full_length(order, m2, j + 1, (fuel - 1) as nat);
    }
}

/// Law: the pruning bound is sound.  No completed schedule below a node is
/// shorter than `min_path_len` says: the node's own step already counts
/// when it is complete; otherwise at least one further step is needed, and
/// at least two when some node still has unmet predecessors, because such a
/// node can never be part of the very next step.
pub proof fn lemma_min_path_len_sound(
    rs: RunState,
    adj: Seq<Seq<usize>>,
    steps: Seq<Seq<usize>>,
    plen: int,
)
    requires
        rs.order.wf(),
        rs.order.n() <= usize::MAX,
        steps_admissible(rs, adj, steps, steps.len() as int),
        run_steps(rs, adj, steps, steps.len() as int).order.remaining == 0,
    ensures
        plen + 1 + steps.len() >= min_path_len(rs.order, plen),
{
    let m = rs.order;
    let k = steps.len() as int;
    crate::time::lemma_remaining_bounds(m);
    if m.remaining == 0 {
    } else if m.pending > 0 {
        if k == 0 {
            assert(run_steps(rs, adj, steps, 0) == rs);
            assert(false);
        } else if k == 1 {
            let s = steps[0];
            assert(run_steps(rs, adj, steps, 0) == rs);
            assert(m.step_admissible(s));
            crate::time::lemma_focus_props(m, s, s.len() as int);
            let i = crate::time::lemma_count_pending_witness(m.status);
            let p = i as usize;
            assert(m.status[p as int] == crate::time::OrderStatus::Pending);
            let f = m.focus(s, s.len() as int);
            assert(run_steps(rs, adj, steps, 1).order == f);
            // the pending node is not measurable, so the single step skips it
            assert(!s.contains(p)) by {
                if s.contains(p) {
                    let w = choose|w: int| 0 <= w < s.len() && #[trigger] s[w] == p;
                    assert(m.status[s[w] as int] == crate::time::OrderStatus::Measurable);
                }
            }
            assert(s.take(s.len() as int) =~= s);
            assert(f.status[p as int] != crate::time::OrderStatus::Measured);
            assert(f.status[p as int] == crate::time::OrderStatus::Pending || f.status[p as int]
                == crate::time::OrderStatus::Measurable);
            crate::time::lemma_count_unmeasured_pos(f.status, p as int);
            assert(f.wf());
            assert(f.remaining >= 1);
            assert(false);
        }
    } else {
        if k == 0 {
            assert(run_steps(rs, adj, steps, 0) == rs);
            assert(false);
        }
    }
}

/// The smallest space cost among the recorded entries at lengths below `t`.
pub open spec fn min_space_before(entries: Seq<Option<(usize, Steps)>>, t: int) -> int
    decreases t,
{
    if t <= 0 {
        usize::MAX as int
    } else {
        let prev = min_space_before(entries, t - 1);
        match entries[t - 1] {
            Some(e) => if e.0 < prev {
                e.0 as int
            } else {
                prev
            },
            None => prev,
        }
    }
}

/// Some kept path has time cost `t`.
pub open spec fn has_time(s: Seq<crate::interface::Path>, t: int) -> bool {
    exists|i: int| 0 <= i < s.len() && (#[trigger] s[i]).time == t
}

/// Some kept path is at most as long as `t` and at most as hungry as
/// `space`.
pub open spec fn dominated_by(kept: Seq<crate::interface::Path>, t: int, space: usize) -> bool {
    exists|i: int| 0 <= i < kept.len() && (#[trigger] kept[i]).time <= t && kept[i].space <= space
}

/// The Pareto filter: walk the lengths upward, keep an entry exactly when
/// its space cost strictly improves on everything kept before it.
pub fn filter_results(results: &MappedPaths) -> (r: Vec<crate::interface::Path>)
    ensures
        forall|i: int, j: int|
            0 <= i < j < r@.len() ==> (#[trigger] r@[i]).time < (#[trigger] r@[j]).time
                && r@[i].space > r@[j].space,
        forall|i: int|
            0 <= i < r@.len() ==> 0 <= (#[trigger] r@[i]).time < results@.len()
                && (results@[r@[i].time as int] matches Some(e) && e.0 == r@[i].space
                && steps_seq(e.1) == r@[i].steps_view()),
        forall|t: int|
            0 <= t < results@.len() ==> (has_time(r@, t) <==> (results@[t] matches Some(e) && (
            e.0 as int) < min_space_before(results@, t))),
        forall|t: int|
            0 <= t < results@.len() ==> ((#[trigger] results@[t]) matches Some(e) ==> (e.0
                < usize::MAX ==> dominated_by(r@, t, e.0))),
{
    let n = results.len();
    let mut r: Vec<crate::interface::Path> = Vec::new();
    let mut best: usize = usize::MAX;
    let mut t: usize = 0;
    while t < n
        invariant
            t <= n,
            n == results@.len(),
            best as int == min_space_before(results@, t as int),
            forall|i: int, j: int|
                0 <= i < j < r@.len() ==> (#[trigger] r@[i]).time < (#[trigger] r@[j]).time
                    && r@[i].space > r@[j].space,
            forall|i: int| 0 <= i < r@.len() ==> (#[trigger] r@[i]).space >= best,
            forall|i: int| 0 <= i < r@.len() ==> 0 <= (#[trigger] r@[i]).time < t,
            forall|i: int|
                0 <= i < r@.len() ==> 0 <= (#[trigger] r@[i]).time < results@.len()
                    && (results@[r@[i].time as int] matches Some(e) && e.0 == r@[i].space
                    && steps_seq(e.1) == r@[i].steps_view()),
            forall|q: int|
                0 <= q < t ==> (has_time(r@, q) <==> (results@[q] matches Some(e) && (e.0 as int)
                    < min_space_before(results@, q))),
            r@.len() > 0 ==> r@.last().space == best,
            best < usize::MAX ==> r@.len() > 0,
            forall|q: int|
                0 <= q < t ==> ((#[trigger] results@[q]) matches Some(e) ==> (e.0 < usize::MAX
                    ==> dominated_by(r@, q, e.0))),
        decreases n - t,
    {
        let ghost r_pre = r@;
        let keep: bool;
        let mem: usize;
        match &results[t] {
            Some(e) => {
                keep = e.0 < best;
                mem = e.0;
            },
            None => {
                keep = false;
                mem = 0;
            },
        }
        if keep {
            let steps;
            match &results[t] {
                Some(e) => {
                    steps = clone_steps(&e.1);
                },
                None => {
                    proof {
                        assert(false);
                    }
                    steps = Vec::new();
                },
            }
            let p = crate::interface::Path { time: t, space: mem, steps };
            r.push(p);
            best = mem;
            proof {
                assert(r@[r@.len() - 1].time == t as int);
                assert forall|q: int|
                    0 <= q < t + 1 implies ((#[trigger] results@[q]) matches Some(e) ==> (e.0
                        < usize::MAX ==> dominated_by(r@, q, e.0))) by {
                    if results@[q] is Some {
                        if q < t {
                            if results@[q].unwrap().0 < usize::MAX && dominated_by(
                                r_pre,
                                q,
                                results@[q].unwrap().0,
                            ) {
                                let i = choose|i: int|
                                    0 <= i < r_pre.len() && (#[trigger] r_pre[i]).time <= q
                                        && r_pre[i].space <= results@[q].unwrap().0;
                                assert(r@[i].time <= q && r@[i].space <= results@[q].unwrap().0);
                                assert(dominated_by(r@, q, results@[q].unwrap().0));
                            }
                        } else {
                            assert(r@[r@.len() - 1].time <= q && r@[r@.len() - 1].space == mem);
                            assert(dominated_by(r@, q, results@[q].unwrap().0));
                        }
                    }
                }
                assert forall|q: int|
                    0 <= q < t + 1 implies (has_time(r@, q) <==> (results@[q] matches Some(e) && (
                e.0 as int) < min_space_before(results@, q))) by {
                    if q < t {
                        if has_time(r_pre, q) {
                            let i = choose|i: int|
                                0 <= i < r_pre.len() && (#[trigger] r_pre[i]).time == q;
                            assert(r@[i].time == q);
                            assert(has_time(r@, q));
                        }
                        if has_time(r@, q) {
                            let i = choose|i: int| 0 <= i < r@.len() && (#[trigger] r@[i]).time == q;
                            assert(i < r_pre.len());
                            assert(r_pre[i].time == q);
                            assert(has_time(r_pre, q));
                        }
                    } else {
                        assert(has_time(r@, q));
                    }
                }
            }
        } else {
            proof {
                assert forall|q: int|
                    0 <= q < t + 1 implies (has_time(r@, q) <==> (results@[q] matches Some(e) && (
                e.0 as int) < min_space_before(results@, q))) by {
                    if q == t && has_time(r@, q) {
                        let i = choose|i: int| 0 <= i < r@.len() && (#[trigger] r@[i]).time == q;
                    }
                }
                assert forall|q: int|
                    0 <= q < t + 1 implies ((#[trigger] results@[q]) matches Some(e) ==> (e.0
                        < usize::MAX ==> dominated_by(r@, q, e.0))) by {
                    if results@[q] is Some && results@[q].unwrap().0 < usize::MAX {
                        if q == t {
                            // not kept: the rolling best already beats it
                            assert(best <= results@[q].unwrap().0);
                            assert(best < usize::MAX);
                            assert(r@.len() > 0);
                            assert(r@[r@.len() - 1].space == best);
                            assert(r@[r@.len() - 1].time < t + 1);
                            assert(dominated_by(r@, q, results@[q].unwrap().0));
                        }
                    }
                }
            }
        }
        t += 1;
    }
    r
}

/// The guarantees every returned path carries: its step count is its time
/// cost, every step is legal where it stands, and its space cost is the
/// exact peak memory of running it.
pub open spec fn path_reported(rs: RunState, adj: Seq<Seq<usize>>, p: crate::interface::Path) -> bool {
    &&& p.time == p.steps_view().len()
    &&& steps_nonempty(p.steps_view())
    &&& steps_admissible(rs, adj, p.steps_view(), p.time as int)
    &&& p.space == run_steps(rs, adj, p.steps_view(), p.time as int).max
}

/// One reconciliation of a worker's front with the shared front: both
/// become their pointwise minimum, so each side learns the other's bounds.
pub fn merge_best_memory(shared: &mut Vec<usize>, local: &mut Vec<usize>)
    requires
        old(shared)@.len() == old(local)@.len(),
    ensures
        final(shared)@.len() == old(shared)@.len(),
        final(local)@.len() == old(local)@.len(),
        forall|i: int|
            0 <= i < old(shared)@.len() ==> final(shared)@[i] == (if old(shared)@[i] <= old(
                local,
            )@[i] {
                old(shared)@[i]
            } else {
                old(local)@[i]
            }) && final(local)@[i] == final(shared)@[i],
        monotone_nonincreasing(old(shared)@) && monotone_nonincreasing(old(local)@)
            ==> monotone_nonincreasing(final(shared)@),
{
    let n = shared.len();
    let mut i: usize = 0;
    while i < n
        invariant
            i <= n,
            n == shared@.len(),
            n == local@.len(),
            n == old(shared)@.len(),
            forall|q: int|
                0 <= q < i ==> shared@[q] == (if old(shared)@[q] <= old(local)@[q] {
                    old(shared)@[q]
                } else {
                    old(local)@[q]
                }) && local@[q] == shared@[q],
            forall|q: int| i <= q < n ==> shared@[q] == old(shared)@[q] && local@[q] == old(local)@[q],
        decreases n - i,
    {
        let s = shared[i];
        let l = local[i];
        if l < s {
            shared.set(i, l);
        } else if s < l {
            local.set(i, s);
        }
        i += 1;
    }
}

/// A worker's final contribution: wherever its best memory is at least as
/// good as the shared one, the shared front takes that value and the shared
/// result map takes the worker's pattern for that length, if it kept one.
pub fn merge_results(
    shared_best: &mut Vec<usize>,
    shared_results: &mut MappedPaths,
    local_best: &Vec<usize>,
    local_results: &mut MappedPaths,
)
    requires
        old(shared_best)@.len() == old(shared_results)@.len(),
        local_best@.len() == old(shared_best)@.len(),
        old(local_results)@.len() == old(shared_best)@.len(),
    ensures
        final(shared_best)@.len() == old(shared_best)@.len(),
        final(shared_results)@.len() == old(shared_results)@.len(),
        forall|t: int|
            0 <= t < old(shared_best)@.len() ==> ((old(shared_best)@[t] >= local_best@[t]
                ==> final(shared_best)@[t] == local_best@[t]) && (old(shared_best)@[t]
                < local_best@[t] ==> final(shared_best)@[t] == old(shared_best)@[t]
                && final(shared_results)@[t] == old(shared_results)@[t])),
        forall|t: int|
            0 <= t < old(shared_best)@.len() && old(shared_best)@[t] >= local_best@[t] && old(
                local_results,
            )@[t] is Some ==> final(shared_results)@[t] == old(local_results)@[t],
        forall|t: int|
            0 <= t < old(shared_best)@.len() && old(shared_best)@[t] >= local_best@[t] && old(
                local_results,
            )@[t] is None ==> final(shared_results)@[t] == old(shared_results)@[t],
{
    let n = shared_best.len();
    let mut t: usize = 0;
    while t < n
        invariant
            t <= n,
            n == shared_best@.len(),
            n == shared_results@.len(),
            n == local_best@.len(),
            n == local_results@.len(),
            n == old(shared_best)@.len(),
            forall|q: int|
                0 <= q < t ==> ((old(shared_best)@[q] >= local_best@[q] ==> shared_best@[q]
                    == local_best@[q]) && (old(shared_best)@[q] < local_best@[q]
                    ==> shared_best@[q] == old(shared_best)@[q] && shared_results@[q] == old(
                    shared_results,
                )@[q])),
            forall|q: int|
                0 <= q < t && old(shared_best)@[q] >= local_best@[q] && old(local_results)@[q]
                    is Some ==> shared_results@[q] == old(local_results)@[q],
            forall|q: int|
                0 <= q < t && old(shared_best)@[q] >= local_best@[q] && old(local_results)@[q]
                    is None ==> shared_results@[q] == old(shared_results)@[q],
            forall|q: int|
                t <= q < n ==> shared_best@[q] == old(shared_best)@[q] && shared_results@[q] == old(
                    shared_results,
                )@[q] && local_results@[q] == old(local_results)@[q],
        decreases n - t,
    {
        if shared_best[t] >= local_best[t] {
            shared_best.set(t, local_best[t]);
            let slot = &mut local_results[t];
            let moved = slot.take();
            match moved {
                Some(e) => {
                    shared_results.set(t, Some(e));
                },
                None => {},
            }
        }
        t += 1;
    }
}

/// The peak never decreases as a pattern runs.
pub proof fn lemma_run_max_monotone(
    rs: RunState,
    adj: Seq<Seq<usize>>,
    steps: Seq<Seq<usize>>,
    j: int,
    k: int,
)
    requires
        0 <= j <= k,
    ensures
        run_steps(rs, adj, steps, j).max <= run_steps(rs, adj, steps, k).max,
    decreases k,
{
    if j < k {
        lemma_run_max_monotone(rs, adj, steps, j, k - 1);
        crate::space::lemma_counts_bounded(
            measure_seq(run_steps(rs, adj, steps, k - 1).status, adj, steps[k - 1]),
        );
    }
}

/// Law: a reported path's space cost bounds the number of live qubits after
/// every prefix of its steps.
pub proof fn lemma_space_bounds_live(
    rs: RunState,
    adj: Seq<Seq<usize>>,
    p: crate::interface::Path,
    j: int,
)
    requires
        path_reported(rs, adj, p),
        0 <= j < p.time,
    ensures
        p.space >= count_live(run_steps(rs, adj, p.steps_view(), j + 1).status),
{
    let steps = p.steps_view();
    lemma_run_max_monotone(rs, adj, steps, j + 1, p.time as int);
    crate::space::lemma_counts_bounded(
        measure_seq(run_steps(rs, adj, steps, j).status, adj, steps[j]),
    );
    assert(run_steps(rs, adj, steps, j + 1).max >= count_live(run_steps(
        rs,
        adj,
        steps,
        j + 1,
    ).status));
}

} // verus!
