//! Sandbox identity, construction and lifecycle.

pub mod bootstrap;
pub mod builder;
pub mod labels;
pub mod lifecycle;
pub mod naming;
pub mod plan;
pub mod remodel;
pub mod staging;
