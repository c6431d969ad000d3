pub mod activities;
pub mod ancestors;
pub mod build_state;
pub mod cli;
pub mod events;
pub mod graph;
pub mod idmap;
pub mod parser;
pub mod render;
pub mod reports;
pub mod state;
pub mod terminal;
pub mod text;
pub mod tracking;
pub mod types;
