//! A leader-based replicated key/value map: the pure state machine of one node, and a cluster
//! that drives several of them.
//!
//! The nodes keep their logs and states in memory, and are called on one call stack: there are no
//! sockets, no timers and no persistence here.

pub mod cluster;
pub mod node;

pub use cluster::{ClusterError, RaftCluster};
pub use node::{Cmd, Log, LogEntry, Node, NodeId, Role};
