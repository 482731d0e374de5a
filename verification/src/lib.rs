//! A watchdog library: when a watched "guardian" process dies, the processes
//! in a configured target set — and every descendant they have spawned — are
//! terminated with an escalating signal policy (graceful first, forced after
//! a grace period).
//!
//! The verified core covers process-tree discovery from OS process-table
//! snapshots, post-order termination planning, target-list parsing, and the
//! kill-list bookkeeping of the two-phase escalation protocol. The OS
//! primitives (table enumeration, liveness checks, signal delivery) are
//! trusted platform services.

mod escalate;
mod order;
mod parse;
mod platform;
mod tree;

pub use escalate::KillList;
pub use escalate::escalate_forced;
pub use escalate::escalate_graceful;
pub use escalate::get_dog_pid;
pub use escalate::kill_process_group;
pub use escalate::send_signal_to_pids;
pub use order::get_pids_by_depth;
pub use order::get_processes_in_dfs_order;
pub use parse::parse_target_pids;
pub use platform::get_all_processes;
pub use platform::is_process_alive;
pub use tree::ProcessNode;
pub use tree::build_process_tree;
pub use tree::build_tree_from_table;
