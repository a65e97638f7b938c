//! Low level implementation: bindings, forks and constraint tracking.
pub mod bindings;
pub mod budget;
pub mod commute;
pub mod constraints;
pub mod engine;
pub mod fork;
pub mod ground;
pub mod laws;
pub mod lvarlist;
pub mod mkmvmap;
pub mod order;
pub mod persistent;
pub mod reading;
pub mod resolving;
pub mod semantics;
pub mod state;
pub mod store_laws;
