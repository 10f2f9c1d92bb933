// Commit engine of a DAG-based Byzantine-fault-tolerant consensus: a
// physical DAG store with garbage collection, a virtual DAG for leader
// election and quorum evidence, the commit rule, and the round driver.

pub mod certificate;
pub mod committee;
pub mod committer;
pub mod consensus;
pub mod store;
pub mod virtual_dag;
