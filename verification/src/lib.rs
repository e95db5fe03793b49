//! Plans content-addressed Nix derivations from a Cargo unit graph.
pub mod build_wrap;
pub mod compile;
pub mod derivation;
pub mod env_wrap;
pub mod laws;
pub mod order;
pub mod package;
pub mod path;
pub mod path_laws;
pub mod planner;
pub mod script;
pub mod sorted;
pub mod store;
pub mod survey;
pub mod target_env;
pub mod text;
pub mod tools;
pub mod unit_drv;
pub mod unit_graph;
pub mod util;
