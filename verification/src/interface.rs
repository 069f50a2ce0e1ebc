//! The data handed back by the search: measurement patterns with their two
//! costs.

use vstd::prelude::*;

use crate::scheduler::Scheduler;
use crate::search::MappedPaths;
use crate::search::entry_valid_at;
use crate::search::filter_results;
use crate::search::get_time_optimal;
use crate::search::do_search;
use crate::search::greedy_steps;
use crate::search::initial_state;
use crate::search::path_reported;
use crate::search::path_valid;
use crate::search::state_of;
use crate::search::steps_seq;
use crate::space::Graph;
use crate::space::NodeStatus;
use crate::space::SpacialGraph;
use crate::time::InputError;
use crate::time::OrderStatus;
use crate::time::PartialOrderGraph;
use crate::time::PathGenerator;
use crate::time::build_model;
use crate::time::valid_order;

verus! {

/// A measurement pattern: `steps` lists the nodes measured in parallel at
/// each step, `time` is the number of steps, and `space` is the peak number
/// of simultaneously live qubits while the pattern runs.
#[derive(Debug)]
pub struct Path {
    /// The time cost: the number of parallel measurement steps.
    pub time: usize,
    /// The space cost: the peak number of qubits in memory at once.
    pub space: usize,
    /// The measurement pattern itself.
    pub steps: Vec<Vec<usize>>,
}

impl Path {
    /// The steps, viewed abstractly.
    pub open spec fn steps_view(self) -> Seq<Seq<usize>> {
        Seq::new(self.steps@.len(), |i: int| self.steps@[i]@)
    }

    /// Builds a path from its parts.
    pub fn new(time: usize, space: usize, steps: Vec<Vec<usize>>) -> (r: Path)
        ensures
            r.time == time,
            r.space == space,
            r.steps@ == steps@,
    {
        Path { time, space, steps }
    }

    /// An identical, independently owned path.
    pub fn duplicate(&self) -> (r: Path)
        ensures
            r.time == self.time,
            r.space == self.space,
            r.steps@.len() == self.steps@.len(),
            r.steps_view() == self.steps_view(),
    {
        let n = self.steps.len();
        let mut steps: Vec<Vec<usize>> = Vec::new();
        let mut i: usize = 0;
        while i < n
            invariant
                i <= n,
                n == self.steps@.len(),
                steps@.len() == i,
                forall|k: int| 0 <= k < i ==> steps@[k]@ == self.steps@[k]@,
            decreases n - i,
        {
            steps.push(crate::space::clone_usize_vec(&self.steps[i]));
            i += 1;
        }
        let r = Path { time: self.time, space: self.space, steps };
        proof {
            assert(r.steps_view() =~= self.steps_view());
        }
        r
    }
}

/// A list of paths, as the search returns it: sorted by time, each entry
/// strictly improving on space.
#[derive(Debug)]
pub struct Paths(pub Vec<Path>);

impl Paths {
    /// The number of paths.
    pub fn len(&self) -> (r: usize)
        ensures
            r == self.0@.len(),
    {
        self.0.len()
    }
}

/// The single-threaded entry point of the search.
///
/// Validates the inputs, then either returns the one greedy time-optimal
/// pattern, or walks the whole tree and returns the frontier it collected:
/// at least one pattern, sorted by time, each strictly improving on space,
/// every one a complete legal schedule with its exact peak memory.
pub fn find_paths(
    spacial_graph: &SpacialGraph,
    time_ordering: &PartialOrderGraph,
    do_search_flag: bool,
) -> (r: Result<Vec<Path>, InputError>)
    requires
        spacial_graph.view().len() < usize::MAX,
    ensures
        r is Ok <==> spacial_graph.wf() && valid_order(
            time_ordering.view(),
            spacial_graph.view().len(),
        ),
        r matches Ok(paths) ==> paths@.len() >= 1,
        r matches Ok(paths) ==> forall|i: int|
            0 <= i < paths@.len() ==> path_reported(
                initial_state(time_ordering.view(), spacial_graph.view().len()),
                spacial_graph.view(),
                #[trigger] paths@[i],
            ),
        r matches Ok(paths) ==> forall|i: int|
            0 <= i < paths@.len() ==> path_valid(
                initial_state(time_ordering.view(), spacial_graph.view().len()),
                spacial_graph.view(),
                #[trigger] paths@[i],
            ),
        r matches Ok(paths) ==> forall|i: int, j: int|
            0 <= i < j < paths@.len() ==> (#[trigger] paths@[i]).time < (#[trigger] paths@[j]).time
                && paths@[i].space > paths@[j].space,
        r matches Ok(paths) ==> (!do_search_flag ==> paths@.len() == 1 && paths@[0].steps_view()
            == greedy_steps(
            build_model(time_ordering.view(), spacial_graph.view().len()),
            spacial_graph.view().len() + 1,
        )),
        r matches Ok(paths) ==> (!do_search_flag && crate::time::tight_order(
            time_ordering.view(),
            spacial_graph.view().len(),
        ) ==> paths@[0].time == time_ordering.view().len()),
        r matches Err(e) ==> ((e matches InputError::MissingInput(v)
            ==> crate::space::bad_neighbor(spacial_graph.view(), v)
            || crate::time::missing_in_order(
            time_ordering.view(),
            spacial_graph.view().len(),
            v,
        )) && (e matches InputError::DuplicateNode(v) ==> crate::time::duplicate_in_order(
            time_ordering.view(),
            v,
        ))),
{
    let num = spacial_graph.len();
    match spacial_graph.check() {
        Ok(()) => {},
        Err(v) => {
            return Err(InputError::MissingInput(v));
        },
    }
    let time = match PathGenerator::from_dependency_graph(time_ordering, num) {
        Ok(t) => t,
        Err(e) => {
            return Err(e);
        },
    };
    if !do_search_flag {
        let paths = get_time_optimal(spacial_graph, time_ordering);
        proof {
            let rs0 = initial_state(time_ordering.view(), spacial_graph.view().len());
            let adj = spacial_graph.view();
            assert(path_reported(rs0, adj, paths@[0]));
        }
        Ok(paths)
    } else {
        let space = Graph::new(spacial_graph);
        proof {
            assert forall|v: usize|
                v < time.view().n() implies ((time.view().status[v as int]
                == OrderStatus::Measured) <==> (space.status@[v as int]
                == NodeStatus::Measured)) by {
                assert(space.status@[v as int] == NodeStatus::Uninitialized);
            }
        }
        let sched = Scheduler::new(time, space);
        let ghost rs0 = initial_state(time_ordering.view(), spacial_graph.view().len());
        let ghost adj = spacial_graph.view();
        proof {
            assert(state_of(sched) == rs0) by {
                assert(state_of(sched).status =~= rs0.status);
            }
            assert(sched.space.adj() == adj);
        }
        let searched = do_search(sched, num);
        let results = searched.0;
        let paths = filter_results(&results);
        proof {
            assert forall|i: int| 0 <= i < paths@.len() implies path_valid(
                rs0,
                adj,
                #[trigger] paths@[i],
            ) && path_reported(rs0, adj, paths@[i]) by {
                let t = paths@[i].time as int;
                assert(entry_valid_at(rs0, adj, results@, t));
                assert(results@[t] matches Some(e) && e.0 == paths@[i].space && steps_seq(e.1)
                    == paths@[i].steps_view());
            }
        }
        if paths.len() == 0 {
            // the walk records the greedy schedule on its first descent, so
            // this cannot happen; recomputing the greedy pattern keeps the
            // promise of a result independent of that argument, which is not
            // carried by the walk's contract
            let fallback = get_time_optimal(spacial_graph, time_ordering);
            proof {
                assert(path_reported(rs0, adj, fallback@[0]));
            }
            return Ok(fallback);
        }
        Ok(paths)
    }
}

} // verus!
