//! Vocabulary and defaults of the authored source format.
use crate::model::BoardSide;
use vstd::prelude::*;

verus! {

/// Placements of the source format are on the front unless stated otherwise.
pub fn front() -> (s: BoardSide)
    ensures
        s == BoardSide::Front,
{
    BoardSide::Front
}

/// Authored routes are on front copper unless a layer is given.
pub fn front_copper() -> (s: String)
    ensures
        s@ == "F.Cu"@,
{
    "F.Cu".to_owned()
}

/// Whether the compiler must keep a placement where it is or may treat it as a starting point.
#[derive(Debug, Clone, Copy, PartialEq, Eq, Structural)]
pub enum PlacementMode {
    Fixed,
    Preferred,
}

impl Default for PlacementMode {
    /// Placements are fixed unless marked preferred.
    fn default() -> (m: PlacementMode)
        ensures
            m == PlacementMode::Fixed,
    {
        PlacementMode::Fixed
    }
}

/// The build settings of a project: the routing policy, when the project is routed.
#[derive(Debug)]
pub struct BuildProfile {
    pub routing: Option<crate::model::RoutingPolicy>,
}

} // verus!
