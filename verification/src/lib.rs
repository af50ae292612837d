//! Control core of a lightweight workload orchestrator: a server state
//! manager that merges declarative desired state over a dotted field mask,
//! rejects cyclic workload dependencies and diffs states into added and
//! deleted workload sets; a delete-condition graph; a polling state-checker
//! core; and the podman runtime-config reader.
pub mod cycle_check;
pub mod delete_graph;
pub mod doc;
pub mod objects;
pub mod podman_config;
pub mod polling;
pub mod server_state;
pub mod state;
pub mod state_doc;
pub mod workload_state_db;
