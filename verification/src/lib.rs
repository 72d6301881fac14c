//! Attention triage for herdr agents: a JSON reader, the ranking of agents by who needs
//! attention first, the time each agent has spent in its status, and the rendered list.

pub mod text;
pub mod json_spec;
pub mod json;
pub mod json_laws;
pub mod herdr;
pub mod priority;
pub mod render;
pub mod tracker;
pub mod config;
