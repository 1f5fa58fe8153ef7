//! Routing of sequencer ports by name: the catalog of endpoints, the
//! configuration of routes, their resolution, and the state of the
//! interactive view.

pub mod browse;
pub mod config;
pub mod ports;
pub mod text;
