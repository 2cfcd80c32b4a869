pub mod closed_loop;
pub mod decomposer;
pub mod decomposer_laws;
pub mod evolution;
pub mod graph_laws;
pub mod graph_model;
pub mod pipeline;
pub mod roles;
pub mod self_fix;
pub mod task_graph;
