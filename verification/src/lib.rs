//! Search engine for Pareto-optimal measurement schedules in measurement-based
//! quantum computation.
//!
//! Given a spatial graph (which qubits are entangled) and a layered partial
//! order (which qubits must be measured before which others), the library
//! enumerates legal measurement schedules and reports, for each achievable
//! number of parallel steps, a pattern with the smallest peak number of qubits
//! that are simultaneously live in memory.

pub mod interface;
pub mod partition;
pub mod scheduler;
pub mod search;
pub mod space;
pub mod time;
pub mod tracker;
pub mod tree;

pub use interface::Path;
pub use interface::Paths;
pub use interface::find_paths;
pub use scheduler::InstructionError;
pub use scheduler::Scheduler;
pub use search::get_time_optimal;
pub use time::InputError;
pub use tracker::BufferedVector;
pub use tracker::Live;
pub use tracker::PauliTuple;
pub use tracker::PauliVec;
pub use tracker::Vector;
pub use space::Graph;
pub use space::NodeStatus;
pub use space::SpacialGraph;
pub use time::PartialOrderGraph;
pub use time::PathGenerator;
