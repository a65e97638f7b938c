//! Fork points: places where a state splits into alternatives.
use crate::collections::lmap::LMapFork;
use crate::goals::Goal;
use crate::list::List;
use std::rc::Rc;
use vstd::prelude::*;

verus! {

/// A pending fork of a state: each alternative is evaluated when the state's
/// resolved states are enumerated.
#[derive(Debug, Clone)]
pub enum Fork {
    /// One state for each of the two goals that succeeds.
    Either(Rc<Goal>, Rc<Goal>),
    /// One state for each goal of the list that succeeds.
    Any(Rc<List<Goal>>),
    /// One state for each entry of a map that a key/value pair unifies with.
    LMapEntry(LMapFork),
}

} // verus!
