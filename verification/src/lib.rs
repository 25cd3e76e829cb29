//! Verified core of a boot-time service supervisor: a generation-checked
//! dependency graph with cycle-reporting resolution, a service registry that
//! links declarative service descriptors into that graph and orchestrates
//! startup, and a launch-plan builder that fixes the order of the privileged
//! steps a child process must perform before replacing its image.

pub mod command;
pub mod dep_graph;
pub mod maps;
pub mod service;
pub mod service_tree;
