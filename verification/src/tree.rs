//! The depth-first walker over the scheduler tree: an explicit stack of
//! schedulers that emits a `Forward` event when it descends into a child and
//! a `Backward` event when it returns from a subtree.

use vstd::prelude::*;

use crate::scheduler::Scheduler;
use crate::scheduler::child_of;

verus! {

/// One event of the walk.
#[derive(Debug)]
pub enum Step {
    /// Descending into the child reached by this measurement step.
    Forward(Vec<usize>),
    /// Returning from a subtree; carries the peak memory when the subtree's
    /// root was a completed schedule.
    Backward(Option<usize>),
}

/// The walker: the stack of schedulers from the root to the current node.
#[derive(Debug)]
pub struct Sweep {
    /// The path of schedulers; the last entry is the current node.
    pub stack: Vec<Scheduler>,
}

/// `post` is `pre` with the current node's next child pushed via step `s`:
/// the node's enumeration produced `s` and moved on by one.
pub open spec fn forward_ok(pre: Sweep, post: Sweep, s: Seq<usize>) -> bool {
    &&& pre.stack@.len() > 0
    &&& post.stack@.len() == pre.stack@.len() + 1
    &&& forall|i: int| 0 <= i < pre.stack@.len() - 1 ==> post.stack@[i] == pre.stack@[i]
    &&& post.stack@[pre.stack@.len() - 1].time == pre.stack@.last().time
    &&& post.stack@[pre.stack@.len() - 1].space == pre.stack@.last().space
    &&& crate::partition::next_rel(
        pre.stack@.last().part,
        post.stack@[pre.stack@.len() - 1].part,
        Some(s),
    )
    &&& child_of(post.stack@.last(), pre.stack@.last(), s)
}

/// `post` is `pre` with the current node popped, which happens only once the
/// node's enumeration is exhausted; `leaf` is its peak memory exactly when
/// it was a completed schedule.
pub open spec fn backward_ok(pre: Sweep, post: Sweep, leaf: Option<usize>) -> bool {
    &&& pre.stack@.len() > 0
    &&& pre.stack@.last().part.done()
    &&& post.stack@ == pre.stack@.drop_last()
    &&& (pre.stack@.last().time.view().remaining == 0 ==> leaf == Some(
        pre.stack@.last().space.max_memory,
    ))
    &&& (pre.stack@.last().time.view().remaining != 0 ==> leaf is None)
}

impl Sweep {
    /// Structural invariant: every stacked scheduler is sound and each child
    /// has strictly fewer unmeasured nodes than its parent.
    pub open spec fn wf(self) -> bool {
        &&& forall|i: int| 0 <= i < self.stack@.len() ==> (#[trigger] self.stack@[i]).wf_partial()
        &&& forall|i: int|
            0 <= i && i + 1 < self.stack@.len() ==> self.stack@[i + 1].time.view().remaining < (
            #[trigger] self.stack@[i]).time.view().remaining
    }

    /// A walker that starts at `root`.
    pub fn new(root: Scheduler) -> (r: Sweep)
        requires
            root.wf_partial(),
        ensures
            r.wf(),
            r.stack@.len() == 1,
            r.stack@[0] == root,
    {
        let mut stack: Vec<Scheduler> = Vec::new();
        stack.push(root);
        Sweep { stack }
    }

    /// Whether the walk is over.
    pub fn is_done(&self) -> (r: bool)
        ensures
            r == (self.stack@.len() == 0),
    {
        self.stack.len() == 0
    }

    /// The current node of the walk.
    pub fn current(&self) -> (r: &Scheduler)
        requires
            self.stack@.len() > 0,
        ensures
            r == &self.stack@.last(),
    {
        &self.stack[self.stack.len() - 1]
    }

    /// Advances the walk by one event: descends into the current node's next
    /// child, or pops the node once its children are exhausted.  `None` means
    /// the walk is over.
    pub fn next(&mut self) -> (r: Option<Step>)
        requires
            old(self).wf(),
        ensures
            final(self).wf(),
            r is None <==> old(self).stack@.len() == 0,
            r is None ==> *final(self) == *old(self),
            r matches Some(Step::Forward(s)) ==> forward_ok(*old(self), *final(self), s@),
            r matches Some(Step::Backward(leaf)) ==> backward_ok(*old(self), *final(self), leaf),
    {
        let n = self.stack.len();
        if n == 0 {
            return None;
        }
        let idx = n - 1;
        let ghost pre_top = self.stack@.last();
        let top = &mut self.stack[idx];
        let stepped = top.next_and_focus();
        proof {
            assert(self.stack@ == old(self).stack@.update(idx as int, self.stack@[idx as int]));
        }
        match stepped {
            Some((child, s)) => {
                proof {
                    assert(self.stack@[idx as int].time == pre_top.time);
                    assert(self.stack@[idx as int].space == pre_top.space);
                    assert(child_of(child, pre_top, s@));
                }
                self.stack.push(child);
                proof {
                    assert forall|i: int|
                        0 <= i && i + 1 < self.stack@.len() implies self.stack@[i
                        + 1].time.view().remaining < (
                    #[trigger] self.stack@[i]).time.view().remaining by {
                        if i + 1 < idx {
                            assert(self.stack@[i] == old(self).stack@[i]);
                            assert(self.stack@[i + 1] == old(self).stack@[i + 1]);
                        } else if i + 1 == idx {
                            assert(self.stack@[i] == old(self).stack@[i]);
                            assert(self.stack@[idx as int].time == pre_top.time);
                            assert(old(self).stack@[idx as int].time.view().remaining < old(
                                self,
                            ).stack@[i].time.view().remaining);
                        } else {
                            assert(i == idx);
                            assert(self.stack@[i].time == pre_top.time);
                        }
                    }
                }
                Some(Step::Forward(s))
            },
            None => {
                let popped = self.stack.pop().unwrap();
                let leaf = popped.at_leaf();
                proof {
                    assert(popped.time == pre_top.time);
                    assert(popped.space == pre_top.space);
                    assert(self.stack@ =~= old(self).stack@.drop_last());
                }
                Some(Step::Backward(leaf))
            },
        }
    }

    /// Discards the child that the last `Forward` event descended into,
    /// without walking its subtree; fails only when the walk is already over.
    pub fn skip_current(&mut self) -> (r: Result<(), ()>)
        requires
            old(self).wf(),
        ensures
            final(self).wf(),
            old(self).stack@.len() == 0 ==> r is Err && *final(self) == *old(self),
            old(self).stack@.len() > 0 ==> r is Ok && final(self).stack@ == old(
                self,
            ).stack@.drop_last(),
    {
        if self.stack.len() == 0 {
            return Err(());
        }
        self.stack.pop();
        proof {
            assert(self.stack@ =~= old(self).stack@.drop_last());
        }
        Ok(())
    }
}

} // verus!
