//! Collections of logical values.
pub mod lmap;
pub mod lvec;
