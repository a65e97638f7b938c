//! A logic programming library: logical variables and values, states that
//! hold their bindings, constraints and pending forks, and goals that
//! relate values to each other.
pub mod collections;
pub mod list;
pub mod value;
pub mod kernel;
pub mod goals;
