pub mod action_map;
pub mod ast;
pub mod graph;
pub mod manifest;
pub mod matcher;
