//! Blueprints: the node graph model, its validation and its execution.

pub mod actions;
pub mod graph;
pub mod labels;
pub mod model;
pub mod validation;
pub mod variables;
pub mod vm;
