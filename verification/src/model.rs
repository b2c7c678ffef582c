//! Shared vocabulary of the project format and the defaults it fills in.
use vstd::prelude::*;

verus! {

/// Length unit of a project document.
#[derive(Debug, Clone, Copy, PartialEq, Eq, Structural)]
pub enum Units {
    Mm,
}

/// Side of the board a footprint sits on.
#[derive(Debug, Clone, Copy, PartialEq, Eq, Structural)]
pub enum BoardSide {
    Front,
    Back,
}

/// Router backend named by a routing policy.
#[derive(Debug, Clone, Copy, PartialEq, Eq, Structural)]
pub enum RoutingEngine {
    KicadRoutingTools,
}

/// Lengths are millimetres unless a document says otherwise.
pub fn default_units() -> (u: Units)
    ensures
        u == Units::Mm,
{
    Units::Mm
}

/// The KiCad release series a project targets by default.
pub fn default_kicad_series() -> (v: u32)
    ensures
        v == 10,
{
    10
}

/// Routing selects every net unless told otherwise: the single pattern `*`.
pub fn default_route_nets() -> (v: Vec<String>)
    ensures
        v@.len() == 1,
        v@[0]@ == "*"@,
{
    let mut v: Vec<String> = Vec::new();
    v.push("*".to_owned());
    v
}

/// Footprints sit on the front unless placed otherwise.
pub fn default_side() -> (s: BoardSide)
    ensures
        s == BoardSide::Front,
{
    BoardSide::Front
}

/// Routes and zones are on front copper unless a layer is given.
pub fn default_front_copper() -> (s: String)
    ensures
        s@ == "F.Cu"@,
{
    "F.Cu".to_owned()
}

/// Silkscreen text is on the front silkscreen unless a layer is given.
pub fn default_front_silk() -> (s: String)
    ensures
        s@ == "F.SilkS"@,
{
    "F.SilkS".to_owned()
}

/// What a project says of itself: its name, an optional title and the KiCad release series it
/// targets.
#[derive(Debug)]
pub struct ProjectMeta {
    pub name: String,
    pub title: Option<String>,
    pub kicad: u32,
}

/// What a module says of itself: its id and an optional title.
#[derive(Debug)]
pub struct ModuleMeta {
    pub id: String,
    pub title: Option<String>,
}

/// How a project is routed: the engine, the net patterns it routes, extra router arguments,
/// and where its route cache lives when not beside the source.
#[derive(Debug)]
pub struct RoutingPolicy {
    pub engine: RoutingEngine,
    pub nets: Vec<String>,
    pub extra_args: Vec<String>,
    pub cache: Option<String>,
}

} // verus!
