//! Message shapes of the protocol binding workers to the coordinator.

use vstd::prelude::*;

verus! {

/// The kind of work carried by a task-assignment reply.
#[derive(Clone, Copy, PartialEq, Eq, Structural, Debug)]
pub enum TaskType {
    NoTask,
    MapTask,
    ReduceTask,
}

impl TaskType {
    /// Decodes a task kind from its wire integer. Any integer other
    /// than the three assigned codes is an encoding error.
    pub fn try_from(v: i32) -> (r: Result<TaskType, ()>)
        ensures
            v == 0 ==> r == Ok::<TaskType, ()>(TaskType::NoTask),
            v == 1 ==> r == Ok::<TaskType, ()>(TaskType::MapTask),
            v == 2 ==> r == Ok::<TaskType, ()>(TaskType::ReduceTask),
            !(v == 0 || v == 1 || v == 2) ==> r == Err::<TaskType, ()>(()),
    {
        if v == 0 {
            Ok(TaskType::NoTask)
        } else if v == 1 {
            Ok(TaskType::MapTask)
        } else if v == 2 {
            Ok(TaskType::ReduceTask)
        } else {
            Err(())
        }
    }

    /// The integer code this kind takes on the wire.
    pub fn as_i32(&self) -> (r: i32)
        ensures
            *self == TaskType::NoTask ==> r == 0,
            *self == TaskType::MapTask ==> r == 1,
            *self == TaskType::ReduceTask ==> r == 2,
    {
        match self {
            TaskType::NoTask => 0,
            TaskType::MapTask => 1,
            TaskType::ReduceTask => 2,
        }
    }
}

/// Reply to a worker's request for work.
pub struct RequestReply {
    pub kind: TaskType,
    pub filename: String,
    pub task_no: usize,
    pub n_reduce: usize,
    pub intermediates: Vec<String>,
    pub done: bool,
}

/// A worker's completion report, a kind-discriminated variant: map
/// completions are keyed by input filename, reduce completions by
/// partition ordinal.
pub enum ReportArgs {
    MapDone { task: String, intermediates: Vec<String> },
    ReduceDone { id: usize },
}

/// The views of a sequence of strings.
pub open spec fn strs_view(v: Seq<String>) -> Seq<Seq<char>> {
    v.map_values(|s: String| s@)
}

} // verus!
