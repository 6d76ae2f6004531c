//! Workloads, and what they are compared by.

pub mod ant_build;
pub mod ant_colony;
pub mod ant_observe;
pub mod ant_scoring;
pub mod ant_trace;
pub mod backend_bench;
pub mod build_laws;
pub mod bulk_frontier;
pub mod class_queues;
pub mod cohort_setup;
pub mod cohort_study;
pub mod discovery_bench;
pub mod discovery_laws;
pub mod discovery_search;
pub mod dispatch_laws;
pub mod dynamic_search;
pub mod export_laws;
pub mod export_run;
pub mod graph_laws;
pub mod irregular_arrival;
pub mod multi_input_graph;
pub mod multi_input_run;
pub mod policies;
pub mod run_laws;
pub mod self_tuning;
pub mod share_laws;
pub mod streaming_graph;
pub mod streaming_run;
pub mod study_laws;
pub mod supervision_tree;
pub mod territories;
pub mod tuning_laws;
pub mod tuning_replay;
