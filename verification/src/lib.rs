//! The logic of microkitchen: kitchens, sandboxes and the broker that decides
//! what a sandbox may reach.

pub mod broker;
pub mod cli;
pub mod config;
pub mod digest;
pub mod ids;
pub mod ip;
pub mod maps;
pub mod mise;
pub mod paths;
pub mod sandbox;
pub mod state;
pub mod text;
pub mod time;
pub mod tree;
