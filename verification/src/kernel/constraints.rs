//! Constraints: code that runs when variables are resolved.
use crate::collections::lmap::MapSubset;
use crate::collections::lvec::{Get, Slice, Subset};
use crate::goals::not::NotConstraint;
use crate::goals::project::{Assert1, Assert2, Map1, Map2};
use vstd::prelude::*;

verus! {

/// A constraint: it is attempted when added to a state, and attempted again
/// whenever one of the variables it waits for is bound.
#[derive(Debug, Clone)]
pub enum Constraint {
    Assert1(Assert1),
    Assert2(Assert2),
    Map1(Map1),
    Map2(Map2),
    Get(Get),
    Slice(Slice),
    Subset(Subset),
    MapSubset(MapSubset),
    Not(NotConstraint),
}

} // verus!
