//! Rules and state of a coding agent, its model routing, its tools and its chat gateway.

pub mod agent;
pub mod ai;
pub mod bench;
pub mod claw;
pub mod config;
pub mod environ;
pub mod graph;
pub mod json;
pub mod record;
pub mod registry;
pub mod text;
pub mod tools;
pub mod work;
