//! A distributed MapReduce core: a coordinator hands map and reduce
//! tasks to workers under a lease-timeout policy and tracks their
//! completion; workers sort, partition and encode map output, then
//! merge, group and render reduce output.  The task-assignment state
//! machine, the partitioning and grouping arithmetic, and the
//! intermediate-file codec are verified; processes, transport and
//! file I/O live outside the library.

use vstd::prelude::*;

pub mod codec;
pub mod coordinator;
pub mod kv;
pub mod task;
pub mod worker;

pub use coordinator::Coordinator;
pub use kv::KeyValue;

verus! {

} // verus!
