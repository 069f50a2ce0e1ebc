//! The scheduler proper: the pair of the time order and the spatial graph,
//! advanced in lockstep by committing measurement steps, together with the
//! enumeration of its children in the search tree.

use vstd::prelude::*;

use crate::partition::Partition;
use crate::partition::combo_wf;
use crate::partition::elems_of;
use crate::space::Graph;
use crate::space::NodeStatus;
use crate::space::count_live;
use crate::space::max_int;
use crate::space::measure_seq;
use crate::time::OrderModel;
use crate::time::OrderStatus;
use crate::time::PathGenerator;

verus! {

/// An error raised when a measurement step is rejected.
#[derive(Clone, Copy, Debug, PartialEq, Eq, Structural)]
pub enum InstructionError {
    /// The node has unmet predecessors, or does not exist.
    NotMeasurable(usize),
    /// The node is already measured (possibly earlier in the same step).
    AlreadyMeasured(usize),
}

/// A step whose nodes are all measurable, each named once, is admissible on
/// the spatial side as well: measurable nodes are never measured.
pub proof fn lemma_time_step_gives_space_step(
    m: OrderModel,
    st: Seq<NodeStatus>,
    s: Seq<usize>,
)
    requires
        m.step_admissible(s),
        st.len() == m.n(),
        forall|v: usize|
            v < m.n() ==> ((m.status[v as int] == OrderStatus::Measured) <==> (st[v as int]
                == NodeStatus::Measured)),
    ensures
        crate::space::step_admissible(st, s),
{
    assert forall|i: int|
        0 <= i < s.len() implies #[trigger] s[i] < st.len() && st[s[i] as int]
        != NodeStatus::Measured && !s.take(i).contains(s[i]) by {
        assert(s[i] < m.n() && m.status[s[i] as int] == OrderStatus::Measurable && !s.take(
            i,
        ).contains(s[i]));
    }
}

/// The elements that a combination selects from the measurable front form an
/// admissible step.
pub proof fn lemma_elems_admissible(m: OrderModel, combo: Seq<usize>)
    requires
        m.wf(),
        combo_wf(combo, m.measurable.len()),
    ensures
        m.step_admissible(elems_of(m.measurable, combo)),
{
    let s = elems_of(m.measurable, combo);
    assert forall|i: int|
        0 <= i < s.len() implies #[trigger] s[i] < m.n() && m.status[s[i] as int]
        == OrderStatus::Measurable && !s.take(i).contains(s[i]) by {
        assert(s[i] == m.measurable[combo[i] as int]);
        if s.take(i).contains(s[i]) {
            let h = choose|h: int| 0 <= h < i && #[trigger] s.take(i)[h] == s[i];
            assert(s[h] == s[i]);
            assert(m.measurable[combo[h] as int] == m.measurable[combo[i] as int]);
            assert(combo[h] < combo[i]) by {
                crate::scheduler::lemma_combo_increasing(combo, h, i);
            }
        }
    }
}

/// A combination is strictly increasing across any two positions.
pub proof fn lemma_combo_increasing(combo: Seq<usize>, i: int, j: int)
    requires
        forall|q: int| 0 <= q && q + 1 < combo.len() ==> #[trigger] combo[q] < combo[q + 1],
        0 <= i < j < combo.len(),
    ensures
        combo[i] < combo[j],
    decreases j - i,
{
    if i + 1 < j {
        lemma_combo_increasing(combo, i + 1, j);
    }
}

/// `child` is the scheduler that committing the step `s` on `parent` yields.
pub open spec fn child_of(child: Scheduler, parent: Scheduler, s: Seq<usize>) -> bool {
    &&& child.wf_partial()
    &&& parent.time.view().step_admissible(s)
    &&& s.len() >= 1
    &&& child.time.view() == parent.time.view().focus(s, s.len() as int)
    &&& child.time.view().remaining == parent.time.view().remaining - s.len()
    &&& child.space.adj() == parent.space.adj()
    &&& child.space.status@ == measure_seq(parent.space.status@, parent.space.adj(), s)
    &&& child.space.current_memory == count_live(child.space.status@)
    &&& child.space.max_memory == max_int(
        parent.space.max_memory as int,
        count_live(child.space.status@) + s.len(),
    )
}

/// A node of the search tree: the time order and the spatial graph advance
/// together, and a partitioner enumerates the measurement steps that lead to
/// the node's children.
#[derive(Debug)]
pub struct Scheduler {
    /// The partial-order front.
    pub time: PathGenerator,
    /// The spatial view.
    pub space: Graph,
    /// Enumerates the subsets of the measurable front; reset by each focus.
    pub part: Partition,
}

impl Scheduler {
    /// Structural invariant: both sides cover the same nodes, agree on which
    /// are measured, and the partitioner enumerates the current front.
    pub open spec fn wf(self) -> bool {
        &&& self.time.wf()
        &&& self.space.wf()
        &&& self.part.wf()
        &&& self.space.status@.len() == self.time.view().n()
        &&& forall|v: usize|
            v < self.time.view().n() ==> ((self.time.view().status[v as int]
                == OrderStatus::Measured) <==> (self.space.status@[v as int]
                == NodeStatus::Measured))
        &&& self.part.set@ == self.time.view().measurable
        &&& !self.part.started
        &&& !self.part.exhausted
    }

    /// As `wf`, but the partitioner may have advanced.
    pub open spec fn wf_partial(self) -> bool {
        &&& self.time.wf()
        &&& self.space.wf()
        &&& self.part.wf()
        &&& self.space.status@.len() == self.time.view().n()
        &&& forall|v: usize|
            v < self.time.view().n() ==> ((self.time.view().status[v as int]
                == OrderStatus::Measured) <==> (self.space.status@[v as int]
                == NodeStatus::Measured))
        &&& self.part.set@ == self.time.view().measurable
    }

    /// Pairs a front and a spatial view that cover the same nodes and agree
    /// on the measured set.
    pub fn new(time: PathGenerator, space: Graph) -> (r: Scheduler)
        requires
            time.wf(),
            space.wf(),
            space.status@.len() == time.view().n(),
            forall|v: usize|
                v < time.view().n() ==> ((time.view().status[v as int] == OrderStatus::Measured)
                    <==> (space.status@[v as int] == NodeStatus::Measured)),
        ensures
            r.wf(),
            r.time == time,
            r.space == space,
    {
        let part = Partition::new(crate::space::clone_usize_vec(time.measurable()));
        Scheduler { time, space, part }
    }

    /// The underlying time order.
    pub fn time(&self) -> (r: &PathGenerator)
        ensures
            r == &self.time,
    {
        &self.time
    }

    /// The underlying spatial view.
    pub fn space(&self) -> (r: &Graph)
        ensures
            r == &self.space,
    {
        &self.space
    }

    /// An identical scheduler with a fresh partitioner.
    pub fn duplicate(&self) -> (r: Scheduler)
        requires
            self.wf_partial(),
        ensures
            r.wf(),
            r.time.view() == self.time.view(),
            r.space.adj() == self.space.adj(),
            r.space.status@ == self.space.status@,
            r.space.current_memory == self.space.current_memory,
            r.space.max_memory == self.space.max_memory,
    {
        let time = self.time.duplicate();
        let space = self.space.duplicate();
        let part = Partition::new(crate::space::clone_usize_vec(time.measurable()));
        Scheduler { time, space, part }
    }

    /// Commits the step `measure_set` in place: the time order validates it,
    /// and only then does the spatial view advance.  On failure both sides
    /// are unchanged and the error names the first offending node.
    pub fn focus_inplace(&mut self, measure_set: &Vec<usize>) -> (r: Result<(), InstructionError>)
        requires
            old(self).wf_partial(),
        ensures
            final(self).wf(),
            r matches Ok(()) <==> old(self).time.view().step_admissible(measure_set@),
            r matches Ok(()) ==> final(self).time.view() == old(self).time.view().focus(
                measure_set@,
                measure_set@.len() as int,
            ) && final(self).space.adj() == old(self).space.adj() && final(self).space.status@
                == measure_seq(old(self).space.status@, old(self).space.adj(), measure_set@)
                && final(self).space.current_memory == count_live(final(self).space.status@)
                && final(self).space.max_memory == max_int(
                old(self).space.max_memory as int,
                count_live(final(self).space.status@) + measure_set@.len(),
            ),
            r matches Err(e) ==> final(self).time.view() == old(self).time.view()
                && final(self).space == old(self).space && exists|i: int|
                #![trigger old(self).time.view().step_error_at(measure_set@, i)]
                old(self).time.view().is_first_step_error(measure_set@, i) && old(
                    self,
                ).time.view().step_error_at(measure_set@, i) == Some(e),
    {
        let ghost tm = self.time.view();
        let r = self.time.focus_inplace(measure_set);
        match r {
            Ok(()) => {
                proof {
                    lemma_time_step_gives_space_step(tm, self.space.status@, measure_set@);
                }
                self.space.focus_inplace_unchecked(measure_set);
                proof {
                    crate::time::lemma_focus_props(tm, measure_set@, measure_set@.len() as int);
                    crate::space::lemma_measure_seq_measured(
                        old(self).space.status@,
                        old(self).space.adj(),
                        measure_set@,
                    );
                    assert(measure_set@.take(measure_set@.len() as int) =~= measure_set@);
                    assert forall|v: usize|
                        v < self.time.view().n() implies ((self.time.view().status[v as int]
                        == OrderStatus::Measured) <==> (self.space.status@[v as int]
                        == NodeStatus::Measured)) by {
                        assert((tm.status[v as int] == OrderStatus::Measured) <==> (old(
                            self,
                        ).space.status@[v as int] == NodeStatus::Measured));
                    }
                }
                let part = Partition::new(crate::space::clone_usize_vec(self.time.measurable()));
                self.part = part;
                Ok(())
            },
            Err(e) => {
                let part = Partition::new(crate::space::clone_usize_vec(self.time.measurable()));
                self.part = part;
                Err(e)
            },
        }
    }

    /// As `focus_inplace`, but returns the focused scheduler and leaves this
    /// one untouched; the branching variant used by the search.
    pub fn focus(&self, measure_set: &Vec<usize>) -> (r: Result<Scheduler, InstructionError>)
        requires
            self.wf_partial(),
        ensures
            r matches Ok(c) <==> self.time.view().step_admissible(measure_set@),
            r matches Ok(c) ==> c.wf() && c.time.view() == self.time.view().focus(
                measure_set@,
                measure_set@.len() as int,
            ) && c.space.adj() == self.space.adj() && c.space.status@ == measure_seq(
                self.space.status@,
                self.space.adj(),
                measure_set@,
            ) && c.space.current_memory == count_live(c.space.status@) && c.space.max_memory
                == max_int(
                self.space.max_memory as int,
                count_live(c.space.status@) + measure_set@.len(),
            ),
            r matches Err(e) ==> exists|i: int|
                #![trigger self.time.view().step_error_at(measure_set@, i)]
                self.time.view().is_first_step_error(measure_set@, i)
                    && self.time.view().step_error_at(measure_set@, i) == Some(e),
    {
        let mut c = self.duplicate();
        match c.focus_inplace(measure_set) {
            Ok(()) => Ok(c),
            Err(e) => Err(e),
        }
    }

    /// Produces the next enumerated step and the child scheduler that
    /// committing it yields, or `None` when every child has been produced.
    pub fn next_and_focus(&mut self) -> (r: Option<(Scheduler, Vec<usize>)>)
        requires
            old(self).wf_partial(),
        ensures
            final(self).wf_partial(),
            final(self).time == old(self).time,
            final(self).space == old(self).space,
            r is None <==> old(self).part.done(),
            r matches Some(p) ==> crate::partition::next_rel(
                old(self).part,
                final(self).part,
                Some(p.1@),
            ),
            r is None ==> crate::partition::next_rel(
                old(self).part,
                final(self).part,
                None::<Seq<usize>>,
            ),
            r matches Some(p) ==> {
                &&& p.0.wf()
                &&& old(self).time.view().step_admissible(p.1@)
                &&& p.1@.len() >= 1
                &&& p.0.time.view() == old(self).time.view().focus(p.1@, p.1@.len() as int)
                &&& p.0.time.view().remaining == old(self).time.view().remaining - p.1@.len()
                &&& p.0.space.adj() == old(self).space.adj()
                &&& p.0.space.status@ == measure_seq(
                    old(self).space.status@,
                    old(self).space.adj(),
                    p.1@,
                )
                &&& p.0.space.current_memory == count_live(p.0.space.status@)
                &&& p.0.space.max_memory == max_int(
                    old(self).space.max_memory as int,
                    count_live(p.0.space.status@) + p.1@.len(),
                )
                &&& p.0.space.max_memory >= old(self).space.max_memory
            },
    {
        let step = self.part.next();
        match step {
            Some(s) => {
                proof {
                    lemma_elems_admissible(self.time.view(), self.part.combo@);
                    crate::time::lemma_focus_props(self.time.view(), s@, s@.len() as int);
                }
                let c = self.focus_child(&s);
                Some((c, s))
            },
            None => None,
        }
    }

    /// Builds the child for a step already known to be admissible.
    fn focus_child(&self, measure_set: &Vec<usize>) -> (c: Scheduler)
        requires
            self.wf_partial(),
            self.time.view().step_admissible(measure_set@),
        ensures
            c.wf(),
            c.time.view() == self.time.view().focus(measure_set@, measure_set@.len() as int),
            c.space.adj() == self.space.adj(),
            c.space.status@ == measure_seq(self.space.status@, self.space.adj(), measure_set@),
            c.space.current_memory == count_live(c.space.status@),
            c.space.max_memory == max_int(
                self.space.max_memory as int,
                count_live(c.space.status@) + measure_set@.len(),
            ),
    {
        let mut c = self.duplicate();
        let r = c.focus_inplace(measure_set);
        match r {
            Ok(()) => c,
            Err(_) => {
                // the step is admissible, so the time order accepted it
                proof {
                    assert(false);
                }
                c
            },
        }
    }

    /// When every mentioned node is measured, the peak memory of the
    /// completed schedule; `None` otherwise.
    pub fn at_leaf(&self) -> (r: Option<usize>)
        ensures
            self.time.view().remaining == 0 ==> r == Some(self.space.max_memory),
            self.time.view().remaining != 0 ==> r is None,
    {
        if self.time.at_leaf() {
            Some(self.space.max_memory())
        } else {
            None
        }
    }
}

} // verus!
