//! End-to-end scenarios for the schedule search.

use mbqc_scheduling::find_paths;
use mbqc_scheduling::get_time_optimal;
use mbqc_scheduling::interface::Path;
use mbqc_scheduling::partition::Partition;
use mbqc_scheduling::scheduler::InstructionError;
use mbqc_scheduling::scheduler::Scheduler;
use mbqc_scheduling::search::backward;
use mbqc_scheduling::search::filter_results;
use mbqc_scheduling::search::forward;
use mbqc_scheduling::search::DriveEvent;
use mbqc_scheduling::search::merge_best_memory;
use mbqc_scheduling::search::merge_results;
use mbqc_scheduling::search::minimum_path_length;
use mbqc_scheduling::search::SearchDriver;
use mbqc_scheduling::space::Graph;
use mbqc_scheduling::space::SpacialGraph;
use mbqc_scheduling::time::InputError;
use mbqc_scheduling::time::PartialOrderGraph;
use mbqc_scheduling::time::PathGenerator;
use mbqc_scheduling::tree::Step;
use mbqc_scheduling::tree::Sweep;

fn chain3() -> (SpacialGraph, PartialOrderGraph) {
    let graph = SpacialGraph(vec![vec![1], vec![0, 2], vec![1]]);
    let order = PartialOrderGraph(vec![
        vec![(0, vec![])],
        vec![(1, vec![0])],
        vec![(2, vec![1])],
    ]);
    (graph, order)
}

fn tradeoff4() -> (SpacialGraph, PartialOrderGraph) {
    let graph = SpacialGraph(vec![vec![2], vec![3], vec![0], vec![1]]);
    let order = PartialOrderGraph(vec![
        vec![(0, vec![]), (1, vec![])],
        vec![(2, vec![0]), (3, vec![1])],
    ]);
    (graph, order)
}

#[test]
fn empty_order_single_trivial_path() {
    let graph = SpacialGraph(vec![]);
    let order = PartialOrderGraph(vec![]);
    let paths = find_paths(&graph, &order, false).unwrap();
    assert_eq!(paths.len(), 1);
    assert_eq!(paths[0].time, 0);
    assert_eq!(paths[0].space, 0);
    assert_eq!(paths[0].steps, Vec::<Vec<usize>>::new());
    let searched = find_paths(&graph, &order, true).unwrap();
    assert_eq!(searched.len(), 1);
    assert_eq!(searched[0].time, 0);
    assert_eq!(searched[0].space, 0);
}

#[test]
fn chain_of_three_time_optimal() {
    let (graph, order) = chain3();
    let paths = find_paths(&graph, &order, false).unwrap();
    assert_eq!(paths.len(), 1);
    assert_eq!(paths[0].time, 3);
    assert_eq!(paths[0].space, 2);
    assert_eq!(paths[0].steps, vec![vec![0], vec![1], vec![2]]);
}

#[test]
fn chain_of_three_search() {
    let (graph, order) = chain3();
    let paths = find_paths(&graph, &order, true).unwrap();
    assert_eq!(paths.len(), 1);
    assert_eq!(paths[0].time, 3);
    assert_eq!(paths[0].space, 2);
    assert_eq!(paths[0].steps, vec![vec![0], vec![1], vec![2]]);
}

#[test]
fn parallelizable_triangle() {
    let graph = SpacialGraph(vec![vec![1, 2], vec![0, 2], vec![0, 1]]);
    let order = PartialOrderGraph(vec![vec![(0, vec![]), (1, vec![]), (2, vec![])]]);
    let paths = find_paths(&graph, &order, false).unwrap();
    assert_eq!(paths.len(), 1);
    assert_eq!(paths[0].time, 1);
    assert_eq!(paths[0].space, 3);
    assert_eq!(paths[0].steps, vec![vec![0, 1, 2]]);
}

#[test]
fn time_space_tradeoff() {
    let (graph, order) = tradeoff4();
    let paths = find_paths(&graph, &order, true).unwrap();
    // the frontier holds the fully parallel and the fully serial extremes
    assert!(paths.iter().any(|p| p.time == 2 && p.space == 4));
    assert!(paths.iter().any(|p| p.time == 4 && p.space == 2));
    let two = paths.iter().find(|p| p.time == 2).unwrap();
    assert_eq!(two.steps, vec![vec![0, 1], vec![2, 3]]);
    // sorted by time, strictly improving on space
    for w in paths.windows(2) {
        assert!(w[0].time < w[1].time);
        assert!(w[0].space > w[1].space);
    }
    for p in &paths {
        assert_eq!(p.time, p.steps.len());
    }
}

#[test]
fn immediate_deadline_returns_valid_partial_results() {
    // a deadline that fires before the first event leaves the collected
    // results empty but well-formed
    let (graph, order) = tradeoff4();
    let time = PathGenerator::from_dependency_graph(&order, 4).unwrap();
    let space = Graph::new(&graph);
    let root = Scheduler::new(time, space);
    let mut driver = SearchDriver::new(root, 4);
    let paths = filter_results(&driver.results);
    assert!(paths.is_empty());
    // a deadline that fires after a few events still leaves a coherent map
    let mut steps_taken = 0;
    while steps_taken < 3 {
        if driver.step() {
            break;
        }
        steps_taken += 1;
    }
    let partial = filter_results(&driver.results);
    for w in partial.windows(2) {
        assert!(w[0].time < w[1].time);
        assert!(w[0].space > w[1].space);
    }
}

#[test]
fn probabilistic_with_always_accept_matches_deterministic() {
    let (graph, order) = tradeoff4();
    let time = PathGenerator::from_dependency_graph(&order, 4).unwrap();
    let space = Graph::new(&graph);
    let root = Scheduler::new(time, space);
    let mut det = SearchDriver::new(root, 4);
    while !det.step() {}
    let time2 = PathGenerator::from_dependency_graph(&order, 4).unwrap();
    let space2 = Graph::new(&graph);
    let root2 = Scheduler::new(time2, space2);
    let mut prob = SearchDriver::new(root2, 4);
    loop {
        match prob.step_probabilistic() {
            DriveEvent::Done => break,
            DriveEvent::Progressed => {}
            DriveEvent::PendingAccept(_) => prob.resolve(true),
        }
    }
    assert_eq!(det.best_memory, prob.best_memory);
    let det_paths = filter_results(&det.results);
    let prob_paths = filter_results(&prob.results);
    assert_eq!(det_paths.len(), prob_paths.len());
    for (a, b) in det_paths.iter().zip(prob_paths.iter()) {
        assert_eq!(a.time, b.time);
        assert_eq!(a.space, b.space);
        assert_eq!(a.steps, b.steps);
    }
}

#[test]
fn best_memory_stays_monotone() {
    let (graph, order) = tradeoff4();
    let time = PathGenerator::from_dependency_graph(&order, 4).unwrap();
    let space = Graph::new(&graph);
    let root = Scheduler::new(time, space);
    let mut driver = SearchDriver::new(root, 4);
    loop {
        for w in driver.best_memory.windows(2) {
            assert!(w[0] >= w[1]);
        }
        if driver.step() {
            break;
        }
    }
    for w in driver.best_memory.windows(2) {
        assert!(w[0] >= w[1]);
    }
}

#[test]
fn greedy_time_equals_number_of_layers() {
    let (graph, order) = chain3();
    let paths = get_time_optimal(&graph, &order);
    assert_eq!(paths[0].time, order.0.len());
    let (graph4, order4) = tradeoff4();
    let paths4 = get_time_optimal(&graph4, &order4);
    assert_eq!(paths4[0].time, order4.0.len());
}

#[test]
fn not_measurable_and_already_measured() {
    let (graph, order) = chain3();
    let time = PathGenerator::from_dependency_graph(&order, 3).unwrap();
    let space = Graph::new(&graph);
    let mut sched = Scheduler::new(time, space);
    // node 1 still has an unmet predecessor
    assert_eq!(
        sched.focus_inplace(&vec![1]),
        Err(InstructionError::NotMeasurable(1))
    );
    // a node named twice in one step is already measured the second time
    assert_eq!(
        sched.focus_inplace(&vec![0, 0]),
        Err(InstructionError::AlreadyMeasured(0))
    );
    assert_eq!(sched.focus_inplace(&vec![0]), Ok(()));
    assert_eq!(
        sched.focus_inplace(&vec![0]),
        Err(InstructionError::AlreadyMeasured(0))
    );
    // a node outside the graph is never measurable
    assert_eq!(
        sched.focus_inplace(&vec![7]),
        Err(InstructionError::NotMeasurable(7))
    );
}

#[test]
fn missing_and_duplicate_input() {
    let graph = SpacialGraph(vec![vec![], vec![], vec![]]);
    let bad_node = PartialOrderGraph(vec![vec![(5, vec![])]]);
    assert_eq!(
        find_paths(&graph, &bad_node, false).unwrap_err(),
        InputError::MissingInput(5)
    );
    let bad_dep = PartialOrderGraph(vec![vec![(0, vec![])], vec![(1, vec![2])]]);
    assert_eq!(
        find_paths(&graph, &bad_dep, false).unwrap_err(),
        InputError::MissingInput(2)
    );
    let dup = PartialOrderGraph(vec![vec![(0, vec![])], vec![(0, vec![])]]);
    assert_eq!(
        find_paths(&graph, &dup, false).unwrap_err(),
        InputError::DuplicateNode(0)
    );
    // a dependency in the same layer is not in an earlier one
    let same_layer = PartialOrderGraph(vec![vec![(0, vec![]), (1, vec![0])]]);
    assert_eq!(
        find_paths(&graph, &same_layer, false).unwrap_err(),
        InputError::MissingInput(0)
    );
    // a neighbor outside the graph is rejected as well
    let bad_graph = SpacialGraph(vec![vec![9]]);
    let order = PartialOrderGraph(vec![vec![(0, vec![])]]);
    assert_eq!(
        find_paths(&bad_graph, &order, false).unwrap_err(),
        InputError::MissingInput(9)
    );
}

#[test]
fn pareto_filter_keeps_strict_improvements() {
    let results: Vec<Option<(usize, Vec<Vec<usize>>)>> = vec![
        None,
        Some((5, vec![vec![0]])),
        Some((5, vec![vec![0], vec![1]])),
        Some((3, vec![vec![0], vec![1], vec![2]])),
        Some((4, vec![vec![0], vec![1], vec![2], vec![3]])),
    ];
    let kept = filter_results(&results);
    assert_eq!(kept.len(), 2);
    assert_eq!((kept[0].time, kept[0].space), (1, 5));
    assert_eq!((kept[1].time, kept[1].space), (3, 3));
    assert_eq!(kept[1].steps, vec![vec![0], vec![1], vec![2]]);
}

#[test]
fn minimum_path_length_cases() {
    let (_, order) = chain3();
    let time = PathGenerator::from_dependency_graph(&order, 3).unwrap();
    // nodes with unmet predecessors remain: at least two more layers
    assert_eq!(minimum_path_length(&time, &vec![]), 3);
    let free = PartialOrderGraph(vec![vec![(0, vec![]), (1, vec![])]]);
    let time_free = PathGenerator::from_dependency_graph(&free, 2).unwrap();
    // everything is measurable: at least one more layer
    assert_eq!(minimum_path_length(&time_free, &vec![vec![9]]), 3);
    let done = PartialOrderGraph(vec![]);
    let time_done = PathGenerator::from_dependency_graph(&done, 0).unwrap();
    // a completed schedule: only the current layer counts
    assert_eq!(minimum_path_length(&time_done, &vec![vec![9]]), 2);
}

#[test]
fn partition_enumerates_subsets_larger_first() {
    let mut part = Partition::new(vec![4, 7, 9]);
    let mut seen = Vec::new();
    while let Some(s) = part.next() {
        seen.push(s);
    }
    assert_eq!(
        seen,
        vec![
            vec![4, 7, 9],
            vec![4, 7],
            vec![4, 9],
            vec![7, 9],
            vec![4],
            vec![7],
            vec![9],
        ]
    );
    let mut empty = Partition::new(vec![]);
    assert_eq!(empty.next(), None);
}

#[test]
fn merging_fronts_takes_pointwise_minimum() {
    let mut shared = vec![9, 7, 5, 5];
    let mut local = vec![8, 7, 6, 2];
    merge_best_memory(&mut shared, &mut local);
    assert_eq!(shared, vec![8, 7, 5, 2]);
    assert_eq!(local, vec![8, 7, 5, 2]);
}

#[test]
fn merging_results_moves_improvements() {
    let mut shared_best = vec![9, 5];
    let mut shared_results: Vec<Option<(usize, Vec<Vec<usize>>)>> = vec![None, Some((5, vec![vec![1]]))];
    let local_best = vec![7, 6];
    let mut local_results: Vec<Option<(usize, Vec<Vec<usize>>)>> = vec![Some((7, vec![vec![0]])), Some((6, vec![vec![2]]))];
    merge_results(
        &mut shared_best,
        &mut shared_results,
        &local_best,
        &mut local_results,
    );
    assert_eq!(shared_best, vec![7, 5]);
    assert_eq!(shared_results[0], Some((7, vec![vec![0]])));
    assert_eq!(shared_results[1], Some((5, vec![vec![1]])));
}

#[test]
fn returned_paths_replay_on_a_fresh_scheduler() {
    // every reported step is a legal focus on the state its prefix reaches
    let (graph, order) = tradeoff4();
    let paths = find_paths(&graph, &order, true).unwrap();
    for p in &paths {
        let time = PathGenerator::from_dependency_graph(&order, 4).unwrap();
        let space = Graph::new(&graph);
        let mut sched = Scheduler::new(time, space);
        for step in &p.steps {
            assert_eq!(sched.focus_inplace(step), Ok(()));
        }
        assert_eq!(sched.at_leaf(), Some(p.space));
    }
}

#[test]
fn scheduler_accessors_report_the_pair() {
    let (graph, order) = chain3();
    let time = PathGenerator::from_dependency_graph(&order, 3).unwrap();
    let space = Graph::new(&graph);
    let sched = Scheduler::new(time, space);
    assert_eq!(sched.time().num_remaining_nodes(), 3);
    assert!(sched.time().has_unmeasureable());
    assert_eq!(sched.space().max_memory(), 0);
    assert_eq!(sched.space().current_memory(), 0);
    assert_eq!(sched.at_leaf(), None);
    let p = Path::new(1, 2, vec![vec![0]]);
    assert_eq!(p.duplicate().steps, vec![vec![0]]);
}

#[test]
fn manual_sweep_matches_driver() {
    // the driver is the loop over forward and backward; writing that loop
    // by hand over the raw sweep events finds the same frontier
    let (graph, order) = tradeoff4();
    let time = PathGenerator::from_dependency_graph(&order, 4).unwrap();
    let space = Graph::new(&graph);
    let mut sweep = Sweep::new(Scheduler::new(time, space));
    let mut results: Vec<Option<(usize, Vec<Vec<usize>>)>> = vec![None; 5];
    let mut best_memory = vec![usize::MAX; 5];
    let mut current_path: Vec<Vec<usize>> = Vec::new();
    while let Some(event) = sweep.next() {
        match event {
            Step::Forward(measure) => {
                if forward(measure, &mut sweep, &best_memory, &mut current_path) {
                    break;
                }
            }
            Step::Backward(leaf) => {
                backward(leaf, &mut current_path, &mut best_memory, &mut results);
            }
        }
    }
    let manual = filter_results(&results);
    let auto = find_paths(&graph, &order, true).unwrap();
    assert_eq!(manual.len(), auto.len());
    for (a, b) in manual.iter().zip(auto.iter()) {
        assert_eq!(a.time, b.time);
        assert_eq!(a.space, b.space);
        assert_eq!(a.steps, b.steps);
    }
}
