//! The decisions of a routing run, as a state machine: the caller performs each action (load
//! the project, find the tools, stage the board, run the router, read footprints, extract and
//! check copper, regenerate, validate, publish) and reports what it gave; each step decides the
//! next action or ends the run with its exit class. Copper outside the selection is restored,
//! the router may not move footprints or drop locked copper, the board is validated before the
//! cache is published, and empty router output is refused.
use crate::diagnostic::{diag_views, opt_view, DiagV, Diagnostic, Severity};
use crate::pipeline::ExitClass;
use crate::routing::{pattern_bytes, preserve_copper, preserved, Copper, CopperV};
use crate::connectivity::{atom_of, children_of, head_of, Sexp};
use crate::text::{text2, views};
use vstd::prelude::*;

verus! {

/// Where a routing run stands: the report it waits for.
#[derive(Debug, Clone, Copy, PartialEq, Eq, Structural)]
pub enum RouteStage {
    Loading,
    Tools,
    Preparing,
    Selecting,
    Caching,
    Staging,
    Before,
    Routing,
    After,
    Copying,
    Extracting,
    Validating,
    Regenerating,
    Checking,
    Publishing,
    Finished,
}

/// The state of a routing run: its stage, the input file, the diagnostics so far, whether some
/// net joins two terminals, the selected net patterns, the footprint placements before
/// routing, the router's output, and whether the checked copper is empty.
#[derive(Debug)]
pub struct RouteState {
    pub stage: RouteStage,
    pub input: String,
    pub diagnostics: Vec<Diagnostic>,
    pub connected: bool,
    pub selected: Vec<String>,
    pub initial: Vec<(String, String)>,
    pub stdout: String,
    pub copper_empty: bool,
}

/// Why staging the board failed: no staging directory, no baseline board, no baseline cache,
/// the staged project could not be written, or KiCad could not prepare the board.
#[derive(Debug)]
pub enum StageFailure {
    Directory(String),
    Baseline(String),
    BaselineCache(String),
    Write(String),
    Drc(String),
}

/// What running the router gave: it did not start, it failed (its trimmed standard error and
/// output), or it finished with its output and the diagnostics of its completion summary.
#[derive(Debug)]
pub enum RouterRun {
    NotStarted(String),
    Failed(String, String),
    Finished(String, Vec<Diagnostic>),
}

/// Why publishing the cache failed: no cache path, or the cache file could not be written.
#[derive(Debug)]
pub enum PublishFailure {
    Path(String),
    Write(String, String),
}

/// What the caller reports after performing an action.
#[derive(Debug)]
pub enum RouteEvent {
    /// The project was loaded: its diagnostics, whether it exists, whether it has a routing
    /// policy, and the error of its cache path if any.
    Loaded(Vec<Diagnostic>, bool, bool, Option<String>),
    /// Which of kicad-cli, the router and a suitable Python were found.
    Tools(bool, bool, bool),
    /// Libraries, lock, layout and validation gave these diagnostics; whether some net joins
    /// two terminals.
    Prepared(Vec<Diagnostic>, bool),
    /// The net selection, or its error.
    Selected(Result<Vec<String>, Diagnostic>),
    /// Applying the previous cache: its error if any, and whether every net is selected.
    CacheApplied(Option<Diagnostic>, bool),
    Staged(Option<StageFailure>),
    /// The footprint placements of a board, or why they could not be read.
    Footprints(Result<Vec<(String, String)>, String>),
    Routed(RouterRun),
    /// Copying the routed board for validation; the error if any.
    Copied(Option<String>),
    /// The copper before routing and the routed copper, or why it could not be extracted.
    Extracted(Result<(Copper, Copper), String>),
    /// The structural validation of the normalized project.
    Validated(Vec<Diagnostic>),
    /// Regenerating the project; the error if any.
    Regenerated(Option<String>),
    /// The KiCad validation of the regenerated project.
    Checked(Vec<Diagnostic>),
    Published(Option<PublishFailure>),
}

/// What the caller does next.
#[derive(Debug)]
pub enum RouteAction {
    FindTools,
    Prepare,
    Select,
    ApplyCache,
    /// Lock the copper outside these patterns and stage the board.
    Stage(Vec<String>),
    ReadFootprints,
    /// Run the router on the nets of these patterns.
    RunRouter(Vec<String>),
    CopyBoard,
    ExtractCache,
    /// Normalize and validate the project with this copper.
    Validate(Copper),
    Regenerate,
    CheckWithKicad,
    Publish,
    Finish(ExitClass),
}

/// The plain value of a routing state.
pub struct RouteStateV {
    pub stage: RouteStage,
    pub input: Seq<char>,
    pub diagnostics: Seq<DiagV>,
    pub connected: bool,
    pub selected: Seq<Seq<char>>,
    pub initial: Seq<(Seq<char>, Seq<char>)>,
    pub stdout: Seq<char>,
    pub copper_empty: bool,
}

impl View for RouteState {
    type V = RouteStateV;

    open spec fn view(&self) -> RouteStateV {
        RouteStateV {
            stage: self.stage,
            input: self.input@,
            diagnostics: diag_views(self.diagnostics@),
            connected: self.connected,
            selected: views(self.selected@),
            initial: crate::modules::pair_views(self.initial@),
            stdout: self.stdout@,
            copper_empty: self.copper_empty,
        }
    }
}

/// The plain value of a staging failure.
pub enum StageFailureV {
    Directory(Seq<char>),
    Baseline(Seq<char>),
    BaselineCache(Seq<char>),
    Write(Seq<char>),
    Drc(Seq<char>),
}

/// The plain value of a router run.
pub enum RouterRunV {
    NotStarted(Seq<char>),
    Failed(Seq<char>, Seq<char>),
    Finished(Seq<char>, Seq<DiagV>),
}

/// The plain value of a publishing failure.
pub enum PublishFailureV {
    Path(Seq<char>),
    Write(Seq<char>, Seq<char>),
}

/// The plain value of an event.
pub enum RouteEventV {
    Loaded(Seq<DiagV>, bool, bool, Option<Seq<char>>),
    Tools(bool, bool, bool),
    Prepared(Seq<DiagV>, bool),
    Selected(Result<Seq<Seq<char>>, DiagV>),
    CacheApplied(Option<DiagV>, bool),
    Staged(Option<StageFailureV>),
    Footprints(Result<Seq<(Seq<char>, Seq<char>)>, Seq<char>>),
    Routed(RouterRunV),
    Copied(Option<Seq<char>>),
    Extracted(Result<(CopperV, CopperV), Seq<char>>),
    Validated(Seq<DiagV>),
    Regenerated(Option<Seq<char>>),
    Checked(Seq<DiagV>),
    Published(Option<PublishFailureV>),
}

/// The plain value of an action.
pub enum RouteActionV {
    FindTools,
    Prepare,
    Select,
    ApplyCache,
    Stage(Seq<Seq<char>>),
    ReadFootprints,
    RunRouter(Seq<Seq<char>>),
    CopyBoard,
    ExtractCache,
    Validate(CopperV),
    Regenerate,
    CheckWithKicad,
    Publish,
    Finish(ExitClass),
}

impl View for RouteEvent {
    type V = RouteEventV;

    open spec fn view(&self) -> RouteEventV {
        match self {
            RouteEvent::Loaded(ds, p, q, c) => RouteEventV::Loaded(diag_views(ds@), *p, *q, opt_view(*c)),
            RouteEvent::Tools(a, b, c) => RouteEventV::Tools(*a, *b, *c),
            RouteEvent::Prepared(ds, c) => RouteEventV::Prepared(diag_views(ds@), *c),
            RouteEvent::Selected(r) => RouteEventV::Selected(
                match r {
                    Ok(v) => Ok(views(v@)),
                    Err(d) => Err(d@),
                },
            ),
            RouteEvent::CacheApplied(e, f) => RouteEventV::CacheApplied(
                match e {
                    Some(d) => Some(d@),
                    None => None,
                },
                *f,
            ),
            RouteEvent::Staged(f) => RouteEventV::Staged(
                match f {
                    Some(StageFailure::Directory(m)) => Some(StageFailureV::Directory(m@)),
                    Some(StageFailure::Baseline(m)) => Some(StageFailureV::Baseline(m@)),
                    Some(StageFailure::BaselineCache(m)) => Some(StageFailureV::BaselineCache(m@)),
                    Some(StageFailure::Write(m)) => Some(StageFailureV::Write(m@)),
                    Some(StageFailure::Drc(m)) => Some(StageFailureV::Drc(m@)),
                    None => None,
                },
            ),
            RouteEvent::Footprints(r) => RouteEventV::Footprints(
                match r {
                    Ok(v) => Ok(crate::modules::pair_views(v@)),
                    Err(e) => Err(e@),
                },
            ),
            RouteEvent::Routed(run) => RouteEventV::Routed(
                match run {
                    RouterRun::NotStarted(e) => RouterRunV::NotStarted(e@),
                    RouterRun::Failed(a, b) => RouterRunV::Failed(a@, b@),
                    RouterRun::Finished(o, ds) => RouterRunV::Finished(o@, diag_views(ds@)),
                },
            ),
            RouteEvent::Copied(e) => RouteEventV::Copied(opt_view(*e)),
            RouteEvent::Extracted(r) => RouteEventV::Extracted(
                match r {
                    Ok((a, b)) => Ok((a@, b@)),
                    Err(e) => Err(e@),
                },
            ),
            RouteEvent::Validated(ds) => RouteEventV::Validated(diag_views(ds@)),
            RouteEvent::Regenerated(e) => RouteEventV::Regenerated(opt_view(*e)),
            RouteEvent::Checked(ds) => RouteEventV::Checked(diag_views(ds@)),
            RouteEvent::Published(f) => RouteEventV::Published(
                match f {
                    Some(PublishFailure::Path(m)) => Some(PublishFailureV::Path(m@)),
                    Some(PublishFailure::Write(m, p)) => Some(PublishFailureV::Write(m@, p@)),
                    None => None,
                },
            ),
        }
    }
}

impl View for RouteAction {
    type V = RouteActionV;

    open spec fn view(&self) -> RouteActionV {
        match self {
            RouteAction::FindTools => RouteActionV::FindTools,
            RouteAction::Prepare => RouteActionV::Prepare,
            RouteAction::Select => RouteActionV::Select,
            RouteAction::ApplyCache => RouteActionV::ApplyCache,
            RouteAction::Stage(v) => RouteActionV::Stage(views(v@)),
            RouteAction::ReadFootprints => RouteActionV::ReadFootprints,
            RouteAction::RunRouter(v) => RouteActionV::RunRouter(views(v@)),
            RouteAction::CopyBoard => RouteActionV::CopyBoard,
            RouteAction::ExtractCache => RouteActionV::ExtractCache,
            RouteAction::Validate(c) => RouteActionV::Validate(c@),
            RouteAction::Regenerate => RouteActionV::Regenerate,
            RouteAction::CheckWithKicad => RouteActionV::CheckWithKicad,
            RouteAction::Publish => RouteActionV::Publish,
            RouteAction::Finish(e) => RouteActionV::Finish(*e),
        }
    }
}

} // verus!

verus! {

/// The plain error `code: message` about `file` with the help text `help`.
pub open spec fn error_v(code: Seq<char>, message: Seq<char>, file: Seq<char>, help: Option<Seq<char>>) -> DiagV {
    DiagV { severity: Severity::Error, code, message, file, span: None, path: None, related: Seq::empty(), help }
}

/// Whether some diagnostic is an error.
pub open spec fn has_error(ds: Seq<DiagV>) -> bool {
    exists|i: int| 0 <= i < ds.len() && (#[trigger] ds[i]).severity == Severity::Error
}

/// Whether some diagnostic is a KiCad error (a code starting with `KICAD`).
pub open spec fn has_kicad_error(ds: Seq<DiagV>) -> bool {
    exists|i: int| 0 <= i < ds.len() && (#[trigger] ds[i]).severity == Severity::Error && "KICAD"@.is_prefix_of(ds[i].code)
}

/// Whether some diagnostic is a design error: an ERC, DRC or router error.
pub open spec fn has_violation(ds: Seq<DiagV>) -> bool {
    exists|i: int|
        0 <= i < ds.len() && (#[trigger] ds[i]).severity == Severity::Error && (ds[i].code == "ERC"@ || ds[i].code == "DRC"@
            || ds[i].code == "ROUTER"@)
}

/// Whether copper holds no route and no via.
pub open spec fn copper_is_empty(c: CopperV) -> bool {
    c.vias.len() == 0 && forall|i: int| 0 <= i < c.routes.len() ==> (#[trigger] c.routes[i]).routes.len() == 0
}

/// The run ends, invalid.
pub open spec fn stop(s: RouteStateV) -> (RouteStateV, RouteActionV) {
    (RouteStateV { stage: RouteStage::Finished, ..s }, RouteActionV::Finish(ExitClass::Invalid))
}

/// The run ends, invalid, with one more error.
pub open spec fn fail(s: RouteStateV, d: DiagV) -> (RouteStateV, RouteActionV) {
    stop(RouteStateV { diagnostics: s.diagnostics.push(d), ..s })
}

/// The run moves on to `stage` with `action`.
pub open spec fn next(s: RouteStateV, stage: RouteStage, action: RouteActionV) -> (RouteStateV, RouteActionV) {
    (RouteStateV { stage, ..s }, action)
}

/// The error of a staging failure.
pub open spec fn stage_error(f: StageFailureV, input: Seq<char>) -> DiagV {
    match f {
        StageFailureV::Directory(m) => error_v("IO002"@, "cannot create routing staging directory: "@ + m, input, None),
        StageFailureV::Baseline(m) => error_v("GEN001"@, m, input, None),
        StageFailureV::BaselineCache(m) => error_v("ROUTE012"@, m, input, None),
        StageFailureV::Write(m) => error_v("GEN001"@, "cannot write staged project: "@ + m, input, None),
        StageFailureV::Drc(m) => error_v("KICAD005"@, "KiCad could not prepare the staged board for routing: "@ + m, input, None),
    }
}

/// What router output says of its completion: its last summary line, else a notice that it
/// has none.
pub open spec fn completion_summary(stdout: Seq<char>) -> Seq<char> {
    let lines = crate::pipeline::summary_lines_upto(stdout, (stdout.len() + 1) as nat);
    if lines.len() > 0 {
        lines.last()
    } else {
        "router produced no machine-readable completion summary"@
    }
}

/// One step of a routing run: what the state and the reported event lead to. An event that
/// does not answer the stage's action ends the run, invalid.
pub open spec fn route_transition(s: RouteStateV, e: RouteEventV) -> (RouteStateV, RouteActionV) {
    match (s.stage, e) {
        (RouteStage::Loading, RouteEventV::Loaded(ds, project, policy, cache)) => {
            let s1 = RouteStateV { diagnostics: s.diagnostics + ds, ..s };
            if !project || has_error(s1.diagnostics) {
                stop(s1)
            } else if !policy {
                fail(
                    s1,
                    error_v(
                        "ROUTE007"@,
                        "pcb.routing is required by 'kil route'"@,
                        s.input,
                        Some("add a kicad-routing-tools routing policy to the PCB section"@),
                    ),
                )
            } else {
                match cache {
                    Some(m) => fail(s1, error_v("ROUTE001"@, m, s.input, None)),
                    None => next(s1, RouteStage::Tools, RouteActionV::FindTools),
                }
            }
        },
        (RouteStage::Tools, RouteEventV::Tools(cli, router, python)) => if !cli {
            fail(
                s,
                error_v(
                    "KICAD001"@,
                    "kicad-cli was not found"@,
                    s.input,
                    Some("install KiCad 10, add kicad-cli to PATH, or pass --kicad-cli"@),
                ),
            )
        } else if !router {
            fail(
                s,
                error_v(
                    "ROUTE008"@,
                    "KiCadRoutingTools route.py was not found"@,
                    s.input,
                    Some("reinstall kil, or pass --krt PATH to a KiCadRoutingTools checkout"@),
                ),
            )
        } else if !python {
            fail(
                s,
                error_v(
                    "ROUTE009"@,
                    "Python 3.9+ with numpy, scipy and shapely was not found"@,
                    s.input,
                    Some("reinstall kil, or pass --python PATH to a compatible Python environment"@),
                ),
            )
        } else {
            next(s, RouteStage::Preparing, RouteActionV::Prepare)
        },
        (RouteStage::Preparing, RouteEventV::Prepared(ds, connected)) => {
            let s1 = RouteStateV { diagnostics: s.diagnostics + ds, connected, ..s };
            if has_error(s1.diagnostics) {
                stop(s1)
            } else {
                next(s1, RouteStage::Selecting, RouteActionV::Select)
            }
        },
        (RouteStage::Selecting, RouteEventV::Selected(r)) => match r {
            Err(d) => fail(s, d),
            Ok(nets) => next(RouteStateV { selected: nets, ..s }, RouteStage::Caching, RouteActionV::ApplyCache),
        },
        (RouteStage::Caching, RouteEventV::CacheApplied(error, full)) => match error {
            Some(d) => if !full {
                fail(s, d)
            } else {
                next(s, RouteStage::Staging, RouteActionV::Stage(s.selected))
            },
            None => next(s, RouteStage::Staging, RouteActionV::Stage(s.selected)),
        },
        (RouteStage::Staging, RouteEventV::Staged(f)) => match f {
            Some(f) => fail(s, stage_error(f, s.input)),
            None => next(s, RouteStage::Before, RouteActionV::ReadFootprints),
        },
        (RouteStage::Before, RouteEventV::Footprints(r)) => match r {
            Err(m) => fail(s, error_v("ROUTE021"@, m, s.input, None)),
            Ok(state) => next(RouteStateV { initial: state, ..s }, RouteStage::Routing, RouteActionV::RunRouter(s.selected)),
        },
        (RouteStage::Routing, RouteEventV::Routed(run)) => match run {
            RouterRunV::NotStarted(m) => fail(s, error_v("ROUTE010"@, "cannot start KiCadRoutingTools: "@ + m, s.input, None)),
            RouterRunV::Failed(err, out) => fail(
                s,
                error_v(
                    "ROUTE011"@,
                    "KiCadRoutingTools failed: "@ + if err.len() == 0 {
                        out
                    } else {
                        err
                    },
                    s.input,
                    Some("inspect router output, placement and routing policy"@),
                ),
            ),
            RouterRunV::Finished(out, ds) => next(
                RouteStateV { diagnostics: s.diagnostics + ds, stdout: out, ..s },
                RouteStage::After,
                RouteActionV::ReadFootprints,
            ),
        },
        (RouteStage::After, RouteEventV::Footprints(r)) => match r {
            Err(m) => fail(s, error_v("ROUTE021"@, m, s.input, None)),
            Ok(state) => if state != s.initial {
                fail(
                    s,
                    error_v(
                        "ROUTE019"@,
                        "router changed footprint placement; placement changes require source edits"@,
                        s.input,
                        None,
                    ),
                )
            } else {
                next(s, RouteStage::Copying, RouteActionV::CopyBoard)
            },
        },
        (RouteStage::Copying, RouteEventV::Copied(e)) => match e {
            Some(m) => fail(s, error_v("ROUTE013"@, "cannot stage routed board for validation: "@ + m, s.input, None)),
            None => next(s, RouteStage::Extracting, RouteActionV::ExtractCache),
        },
        (RouteStage::Extracting, RouteEventV::Extracted(r)) => match r {
            Err(m) => fail(s, error_v("ROUTE012"@, m, s.input, None)),
            Ok((before, after)) => {
                let (c, res) = preserved(pattern_bytes_v(s.selected), before, after);
                match res {
                    Err(m) => fail(s, error_v("ROUTE020"@, m, s.input, None)),
                    Ok(_) => next(
                        RouteStateV { copper_empty: copper_is_empty(c), ..s },
                        RouteStage::Validating,
                        RouteActionV::Validate(c),
                    ),
                }
            },
        },
        (RouteStage::Validating, RouteEventV::Validated(ds)) => if has_error(ds) {
            stop(RouteStateV { diagnostics: s.diagnostics + ds, ..s })
        } else {
            next(s, RouteStage::Regenerating, RouteActionV::Regenerate)
        },
        (RouteStage::Regenerating, RouteEventV::Regenerated(e)) => match e {
            Some(m) => fail(s, error_v("GEN001"@, m, s.input, None)),
            None => next(s, RouteStage::Checking, RouteActionV::CheckWithKicad),
        },
        (RouteStage::Checking, RouteEventV::Checked(ds)) => {
            let s1 = RouteStateV { diagnostics: s.diagnostics + ds, ..s };
            if has_kicad_error(ds) {
                stop(s1)
            } else if s.copper_empty && s.connected {
                fail(
                    s1,
                    error_v(
                        "ROUTE015"@,
                        "router returned success but emitted no copper; "@ + completion_summary(s.stdout),
                        s.input,
                        Some("adjust placement/router options; the previous route cache was not replaced"@),
                    ),
                )
            } else {
                next(s1, RouteStage::Publishing, RouteActionV::Publish)
            }
        },
        (RouteStage::Publishing, RouteEventV::Published(f)) => match f {
            Some(PublishFailureV::Path(m)) => fail(s, error_v("ROUTE001"@, m, s.input, None)),
            Some(PublishFailureV::Write(m, file)) => fail(s, error_v("ROUTE014"@, "cannot publish routing cache: "@ + m, file, None)),
            None => (
                RouteStateV { stage: RouteStage::Finished, ..s },
                RouteActionV::Finish(
                    if has_violation(s.diagnostics) {
                        ExitClass::DesignViolations
                    } else {
                        ExitClass::Success
                    },
                ),
            ),
        },
        _ => stop(s),
    }
}

/// The patterns of selected nets as the selection matches them.
pub open spec fn pattern_bytes_v(selected: Seq<Seq<char>>) -> Seq<Seq<u8>> {
    selected.map_values(|p: Seq<char>| vstd::utf8::encode_utf8(p))
}

} // verus!

verus! {

/// The error `code: message` about `file`, with help text `help` when given.
pub(crate) fn error(code: &str, message: &str, file: &str, help: Option<&str>) -> (d: Diagnostic)
    ensures
        d@ == error_v(
            code@,
            message@,
            file@,
            match help {
                Some(h) => Some(h@),
                None => None,
            },
        ),
{
    let d = Diagnostic::error(code, message, file);
    let d = match help {
        Some(h) => d.with_help(h),
        None => d,
    };
    assert(d@.related =~= Seq::<crate::diagnostic::RelatedV>::empty());
    d
}

/// Appends diagnostics in order.
pub(crate) fn extend(dst: &mut Vec<Diagnostic>, src: Vec<Diagnostic>)
    ensures
        diag_views(final(dst)@) == diag_views(old(dst)@) + diag_views(src@),
{
    let mut src = src;
    let ghost a = dst@;
    let ghost b = src@;
    dst.append(&mut src);
    assert(diag_views(a + b) =~= diag_views(a) + diag_views(b));
}

/// Whether some diagnostic is an error.
pub(crate) fn any_error(ds: &Vec<Diagnostic>) -> (r: bool)
    ensures
        r == has_error(diag_views(ds@)),
{
    let mut i: usize = 0;
    while i < ds.len()
        invariant
            i <= ds@.len(),
            forall|k: int| 0 <= k < i ==> (#[trigger] diag_views(ds@)[k]).severity != Severity::Error,
        decreases ds.len() - i,
    {
        assert(diag_views(ds@)[i as int] == ds@[i as int]@);
        if ds[i].severity == Severity::Error {
            return true;
        }
        i += 1;
    }
    false
}

/// Whether some diagnostic is a KiCad error.
pub(crate) fn any_kicad_error(ds: &Vec<Diagnostic>) -> (r: bool)
    ensures
        r == has_kicad_error(diag_views(ds@)),
{
    let mut i: usize = 0;
    while i < ds.len()
        invariant
            i <= ds@.len(),
            forall|k: int|
                0 <= k < i ==> !((#[trigger] diag_views(ds@)[k]).severity == Severity::Error && "KICAD"@.is_prefix_of(
                    diag_views(ds@)[k].code,
                )),
        decreases ds.len() - i,
    {
        assert(diag_views(ds@)[i as int] == ds@[i as int]@);
        if ds[i].severity == Severity::Error && crate::pipeline::text_has_prefix(ds[i].code.as_str(), "KICAD") {
            return true;
        }
        i += 1;
    }
    false
}

/// Whether some diagnostic is a design error.
fn any_violation(ds: &Vec<Diagnostic>) -> (r: bool)
    ensures
        r == has_violation(diag_views(ds@)),
{
    let mut i: usize = 0;
    while i < ds.len()
        invariant
            i <= ds@.len(),
            forall|k: int|
                0 <= k < i ==> !((#[trigger] diag_views(ds@)[k]).severity == Severity::Error && (diag_views(ds@)[k].code == "ERC"@
                    || diag_views(ds@)[k].code == "DRC"@ || diag_views(ds@)[k].code == "ROUTER"@)),
        decreases ds.len() - i,
    {
        assert(diag_views(ds@)[i as int] == ds@[i as int]@);
        let c = ds[i].code.as_str();
        if ds[i].severity == Severity::Error && (crate::text::same_text(c, "ERC") || crate::text::same_text(c, "DRC")
            || crate::text::same_text(c, "ROUTER")) {
            return true;
        }
        i += 1;
    }
    false
}

/// Whether copper holds no route and no via.
fn copper_empty(c: &Copper) -> (r: bool)
    ensures
        r == copper_is_empty(c@),
{
    if c.vias.len() > 0 {
        return false;
    }
    let mut i: usize = 0;
    while i < c.routes.len()
        invariant
            i <= c.routes@.len(),
            c.vias@.len() == 0,
            forall|k: int| 0 <= k < i ==> (#[trigger] c@.routes[k]).routes.len() == 0,
        decreases c.routes.len() - i,
    {
        assert(c@.routes[i as int] == c.routes@[i as int]@);
        if c.routes[i].routes.len() > 0 {
            return false;
        }
        i += 1;
    }
    true
}

fn stop_run(s: RouteState) -> (r: (RouteState, RouteAction))
    ensures
        (r.0@, r.1@) == stop(s@),
{
    let mut s = s;
    s.stage = RouteStage::Finished;
    (s, RouteAction::Finish(ExitClass::Invalid))
}

fn fail_run(s: RouteState, d: Diagnostic) -> (r: (RouteState, RouteAction))
    ensures
        (r.0@, r.1@) == fail(s@, d@),
{
    let mut s = s;
    let ghost before = s.diagnostics@;
    s.diagnostics.push(d);
    assert(diag_views(s.diagnostics@) =~= diag_views(before).push(d@));
    stop_run(s)
}

fn next_run(s: RouteState, stage: RouteStage, action: RouteAction) -> (r: (RouteState, RouteAction))
    ensures
        (r.0@, r.1@) == next(s@, stage, action@),
{
    let mut s = s;
    s.stage = stage;
    (s, action)
}

fn copy_texts(v: &Vec<String>) -> (r: Vec<String>)
    ensures
        views(r@) == views(v@),
{
    let mut out: Vec<String> = Vec::new();
    let mut i: usize = 0;
    while i < v.len()
        invariant
            i <= v@.len(),
            views(out@) == views(v@).take(i as int),
        decreases v.len() - i,
    {
        let ghost before = out@;
        out.push(v[i].clone());
        proof {
            crate::text::lemma_views_push(before, out@.last());
        }
        assert(views(v@).take(i + 1) =~= views(v@).take(i as int).push(v@[i as int]@));
        i += 1;
    }
    assert(views(v@).take(v@.len() as int) =~= views(v@));
    out
}

} // verus!

verus! {

/// One step of a routing run (see `route_transition`): from the state and the report of the
/// last action, the next state and action.
pub fn route_step(state: RouteState, event: RouteEvent) -> (r: (RouteState, RouteAction))
    ensures
        (r.0@, r.1@) == route_transition(state@, event@),
{
    let mut s = state;
    let ghost s0 = s@;
    let ghost e0 = event@;
    match event {
        RouteEvent::Loaded(ds, project, policy, cache) => {
            if s.stage != RouteStage::Loading {
                return stop_run(s);
            }
            extend(&mut s.diagnostics, ds);
            if !project || any_error(&s.diagnostics) {
                return stop_run(s);
            }
            if !policy {
                let d = error(
                    "ROUTE007",
                    "pcb.routing is required by 'kil route'",
                    s.input.as_str(),
                    Some("add a kicad-routing-tools routing policy to the PCB section"),
                );
                return fail_run(s, d);
            }
            match cache {
                Some(m) => {
                    let d = error("ROUTE001", m.as_str(), s.input.as_str(), None);
                    fail_run(s, d)
                },
                None => next_run(s, RouteStage::Tools, RouteAction::FindTools),
            }
        },
        RouteEvent::Tools(cli, router, python) => {
            if s.stage != RouteStage::Tools {
                return stop_run(s);
            }
            if !cli {
                let d = error(
                    "KICAD001",
                    "kicad-cli was not found",
                    s.input.as_str(),
                    Some("install KiCad 10, add kicad-cli to PATH, or pass --kicad-cli"),
                );
                fail_run(s, d)
            } else if !router {
                let d = error(
                    "ROUTE008",
                    "KiCadRoutingTools route.py was not found",
                    s.input.as_str(),
                    Some("reinstall kil, or pass --krt PATH to a KiCadRoutingTools checkout"),
                );
                fail_run(s, d)
            } else if !python {
                let d = error(
                    "ROUTE009",
                    "Python 3.9+ with numpy, scipy and shapely was not found",
                    s.input.as_str(),
                    Some("reinstall kil, or pass --python PATH to a compatible Python environment"),
                );
                fail_run(s, d)
            } else {
                next_run(s, RouteStage::Preparing, RouteAction::Prepare)
            }
        },
        RouteEvent::Prepared(ds, connected) => {
            if s.stage != RouteStage::Preparing {
                return stop_run(s);
            }
            extend(&mut s.diagnostics, ds);
            s.connected = connected;
            if any_error(&s.diagnostics) {
                stop_run(s)
            } else {
                next_run(s, RouteStage::Selecting, RouteAction::Select)
            }
        },
        RouteEvent::Selected(r) => {
            if s.stage != RouteStage::Selecting {
                return stop_run(s);
            }
            match r {
                Err(d) => fail_run(s, d),
                Ok(nets) => {
                    s.selected = nets;
                    next_run(s, RouteStage::Caching, RouteAction::ApplyCache)
                },
            }
        },
        RouteEvent::CacheApplied(err, full) => {
            if s.stage != RouteStage::Caching {
                return stop_run(s);
            }
            match err {
                Some(d) => {
                    if !full {
                        return fail_run(s, d);
                    }
                },
                None => {},
            }
            let sel = copy_texts(&s.selected);
            next_run(s, RouteStage::Staging, RouteAction::Stage(sel))
        },
        RouteEvent::Staged(f) => {
            if s.stage != RouteStage::Staging {
                return stop_run(s);
            }
            match f {
                Some(f) => {
                    let d = match f {
                        StageFailure::Directory(m) => {
                            let t = text2("cannot create routing staging directory: ", m.as_str());
                            error("IO002", t.as_str(), s.input.as_str(), None)
                        },
                        StageFailure::Baseline(m) => error("GEN001", m.as_str(), s.input.as_str(), None),
                        StageFailure::BaselineCache(m) => error("ROUTE012", m.as_str(), s.input.as_str(), None),
                        StageFailure::Write(m) => {
                            let t = text2("cannot write staged project: ", m.as_str());
                            error("GEN001", t.as_str(), s.input.as_str(), None)
                        },
                        StageFailure::Drc(m) => {
                            let t = text2("KiCad could not prepare the staged board for routing: ", m.as_str());
                            error("KICAD005", t.as_str(), s.input.as_str(), None)
                        },
                    };
                    fail_run(s, d)
                },
                None => next_run(s, RouteStage::Before, RouteAction::ReadFootprints),
            }
        },
        RouteEvent::Footprints(r) => {
            if s.stage == RouteStage::Before {
                match r {
                    Err(m) => {
                        let d = error("ROUTE021", m.as_str(), s.input.as_str(), None);
                        fail_run(s, d)
                    },
                    Ok(st) => {
                        s.initial = st;
                        let sel = copy_texts(&s.selected);
                        next_run(s, RouteStage::Routing, RouteAction::RunRouter(sel))
                    },
                }
            } else if s.stage == RouteStage::After {
                match r {
                    Err(m) => {
                        let d = error("ROUTE021", m.as_str(), s.input.as_str(), None);
                        fail_run(s, d)
                    },
                    Ok(st) => {
                        if !crate::lock::same_pairs(&st, &s.initial) {
                            let d = error(
                                "ROUTE019",
                                "router changed footprint placement; placement changes require source edits",
                                s.input.as_str(),
                                None,
                            );
                            fail_run(s, d)
                        } else {
                            next_run(s, RouteStage::Copying, RouteAction::CopyBoard)
                        }
                    },
                }
            } else {
                stop_run(s)
            }
        },
        RouteEvent::Routed(run) => {
            if s.stage != RouteStage::Routing {
                return stop_run(s);
            }
            match run {
                RouterRun::NotStarted(m) => {
                    let t = text2("cannot start KiCadRoutingTools: ", m.as_str());
                    let d = error("ROUTE010", t.as_str(), s.input.as_str(), None);
                    fail_run(s, d)
                },
                RouterRun::Failed(err, out) => {
                    let shown = if err.as_str().unicode_len() == 0 {
                        out
                    } else {
                        err
                    };
                    let t = text2("KiCadRoutingTools failed: ", shown.as_str());
                    let d = error("ROUTE011", t.as_str(), s.input.as_str(), Some("inspect router output, placement and routing policy"));
                    fail_run(s, d)
                },
                RouterRun::Finished(out, ds) => {
                    extend(&mut s.diagnostics, ds);
                    s.stdout = out;
                    next_run(s, RouteStage::After, RouteAction::ReadFootprints)
                },
            }
        },
        RouteEvent::Copied(e) => {
            if s.stage != RouteStage::Copying {
                return stop_run(s);
            }
            match e {
                Some(m) => {
                    let t = text2("cannot stage routed board for validation: ", m.as_str());
                    let d = error("ROUTE013", t.as_str(), s.input.as_str(), None);
                    fail_run(s, d)
                },
                None => next_run(s, RouteStage::Extracting, RouteAction::ExtractCache),
            }
        },
        RouteEvent::Extracted(r) => {
            if s.stage != RouteStage::Extracting {
                return stop_run(s);
            }
            match r {
                Err(m) => {
                    let d = error("ROUTE012", m.as_str(), s.input.as_str(), None);
                    fail_run(s, d)
                },
                Ok((before, after)) => {
                    let mut after = after;
                    assert(pattern_bytes(s.selected@) =~= pattern_bytes_v(views(s.selected@)));
                    match preserve_copper(&before, &mut after, s.selected.as_slice()) {
                        Err(m) => {
                            let d = error("ROUTE020", m.as_str(), s.input.as_str(), None);
                            fail_run(s, d)
                        },
                        Ok(_) => {
                            s.copper_empty = copper_empty(&after);
                            next_run(s, RouteStage::Validating, RouteAction::Validate(after))
                        },
                    }
                },
            }
        },
        RouteEvent::Validated(ds) => {
            if s.stage != RouteStage::Validating {
                return stop_run(s);
            }
            if any_error(&ds) {
                extend(&mut s.diagnostics, ds);
                stop_run(s)
            } else {
                next_run(s, RouteStage::Regenerating, RouteAction::Regenerate)
            }
        },
        RouteEvent::Regenerated(e) => {
            if s.stage != RouteStage::Regenerating {
                return stop_run(s);
            }
            match e {
                Some(m) => {
                    let d = error("GEN001", m.as_str(), s.input.as_str(), None);
                    fail_run(s, d)
                },
                None => next_run(s, RouteStage::Checking, RouteAction::CheckWithKicad),
            }
        },
        RouteEvent::Checked(ds) => {
            if s.stage != RouteStage::Checking {
                return stop_run(s);
            }
            let kicad = any_kicad_error(&ds);
            extend(&mut s.diagnostics, ds);
            if kicad {
                stop_run(s)
            } else if s.copper_empty && s.connected {
                let lines = crate::pipeline::summary_lines(s.stdout.as_str());
                let summary = if lines.len() > 0 {
                    lines[lines.len() - 1].clone()
                } else {
                    "router produced no machine-readable completion summary".to_owned()
                };
                let t = text2("router returned success but emitted no copper; ", summary.as_str());
                let d = error(
                    "ROUTE015",
                    t.as_str(),
                    s.input.as_str(),
                    Some("adjust placement/router options; the previous route cache was not replaced"),
                );
                fail_run(s, d)
            } else {
                next_run(s, RouteStage::Publishing, RouteAction::Publish)
            }
        },
        RouteEvent::Published(f) => {
            if s.stage != RouteStage::Publishing {
                return stop_run(s);
            }
            match f {
                Some(PublishFailure::Path(m)) => {
                    let d = error("ROUTE001", m.as_str(), s.input.as_str(), None);
                    fail_run(s, d)
                },
                Some(PublishFailure::Write(m, file)) => {
                    let t = text2("cannot publish routing cache: ", m.as_str());
                    let d = error("ROUTE014", t.as_str(), file.as_str(), None);
                    fail_run(s, d)
                },
                None => {
                    let exit = if any_violation(&s.diagnostics) {
                        ExitClass::DesignViolations
                    } else {
                        ExitClass::Success
                    };
                    s.stage = RouteStage::Finished;
                    (s, RouteAction::Finish(exit))
                },
            }
        },
    }
}

} // verus!

verus! {

/// The atom at position `i` of a list node.
pub open spec fn nth_atom(n: Sexp, i: int) -> Option<Seq<char>> {
    match n {
        Sexp::List(items) => if 0 <= i < items@.len() {
            atom_of(items@[i])
        } else {
            None
        },
        _ => None,
    }
}

/// The atoms of `items` from position 1 up to `k`, separated by spaces.
pub open spec fn atoms_text(items: Seq<Sexp>, k: nat) -> Seq<char>
    decreases k,
{
    if k <= 1 || k > items.len() {
        Seq::empty()
    } else {
        let prev = atoms_text(items, (k - 1) as nat);
        match atom_of(items[k - 1]) {
            Some(a) => if prev.len() == 0 {
                a
            } else {
                prev + " "@ + a
            },
            None => prev,
        }
    }
}

/// What a footprint's children from position 2 up to `k` say of it, each later child
/// overriding an earlier one: its `Reference` property, its UUID, the atoms of its position
/// and its layer.
pub struct FootprintFacts {
    pub reference: Option<Seq<char>>,
    pub uuid: Option<Seq<char>>,
    pub at: Seq<char>,
    pub layer: Option<Seq<char>>,
}

/// The facts of the first `k` children of a footprint (the first two are its head and name).
pub open spec fn footprint_facts(items: Seq<Sexp>, k: nat) -> FootprintFacts
    decreases k,
{
    if k <= 2 || k > items.len() {
        FootprintFacts { reference: None, uuid: None, at: Seq::empty(), layer: None }
    } else {
        let f = footprint_facts(items, (k - 1) as nat);
        let c = items[k - 1];
        if head_of(c) == Some("layer"@) {
            FootprintFacts { layer: nth_atom(c, 1), ..f }
        } else if head_of(c) == Some("at"@) {
            FootprintFacts {
                at: match c {
                    Sexp::List(xs) => atoms_text(xs@, xs@.len()),
                    _ => Seq::empty(),
                },
                ..f
            }
        } else if head_of(c) == Some("uuid"@) {
            FootprintFacts { uuid: nth_atom(c, 1), ..f }
        } else if head_of(c) == Some("property"@) && nth_atom(c, 1) == Some("Reference"@) {
            FootprintFacts { reference: nth_atom(c, 2), ..f }
        } else {
            f
        }
    }
}

/// The key of a footprint: `reference:R` for a printed reference, else `uuid:U`, else none.
pub open spec fn footprint_key(f: FootprintFacts) -> Option<Seq<char>> {
    match f.reference {
        Some(r) if r.len() > 0 => Some("reference:"@ + r),
        _ => match f.uuid {
            Some(u) if u.len() > 0 => Some("uuid:"@ + u),
            _ => None,
        },
    }
}

/// The placement of a footprint as written: the atoms of its position and its layer.
pub open spec fn footprint_placement(f: FootprintFacts) -> Seq<char> {
    f.at + "|"@ + match f.layer {
        Some(l) => l,
        None => Seq::empty(),
    }
}

/// The placements of the first `n` footprints of board `name`, in ascending key order, or the
/// first footprint without a key or with a key already taken.
pub open spec fn states_upto(fps: Seq<Sexp>, name: Seq<char>, n: nat) -> Result<Seq<(Seq<char>, Seq<char>)>, Seq<char>>
    decreases n,
{
    if n == 0 || n > fps.len() {
        Ok(Seq::empty())
    } else {
        match states_upto(fps, name, (n - 1) as nat) {
            Err(e) => Err(e),
            Ok(m) => {
                let items = match fps[n - 1] {
                    Sexp::List(xs) => xs@,
                    _ => Seq::empty(),
                };
                let f = footprint_facts(items, items.len());
                match footprint_key(f) {
                    None => Err("board '"@ + name + "' has a footprint without a reference or UUID"@),
                    Some(key) => if crate::lock::has_key(m, key) {
                        Err("board '"@ + name + "' has duplicate footprint reference '"@ + key + "'"@)
                    } else {
                        Ok(crate::kicad::sorted_put(m, key, footprint_placement(f)))
                    },
                }
            },
        }
    }
}

/// The footprint placements of board `name` (see `states_upto`).
pub open spec fn footprint_states(board: Sexp, name: Seq<char>) -> Result<Seq<(Seq<char>, Seq<char>)>, Seq<char>> {
    let fps = children_of(board, "footprint"@);
    states_upto(fps, name, fps.len())
}

} // verus!

verus! {

fn atom_exec(n: &Sexp) -> (r: Option<String>)
    ensures
        match atom_of(*n) {
            Some(t) => r matches Some(s) && s@ == t,
            None => r is None,
        },
{
    match n {
        Sexp::Symbol(s) => Some(s.clone()),
        Sexp::Quoted(s) => Some(s.clone()),
        Sexp::List(_) => None,
    }
}

fn nth_atom_exec(n: &Sexp, i: usize) -> (r: Option<String>)
    ensures
        match nth_atom(*n, i as int) {
            Some(t) => r matches Some(s) && s@ == t,
            None => r is None,
        },
{
    match n {
        Sexp::List(items) => if i < items.len() {
            atom_exec(&items[i])
        } else {
            None
        },
        _ => None,
    }
}

fn atoms_text_exec(items: &Vec<Sexp>) -> (r: String)
    ensures
        r@ == atoms_text(items@, items@.len()),
{
    let mut out = String::new();
    if items.len() <= 1 {
        return out;
    }
    let mut k: usize = 1;
    while k < items.len()
        invariant
            1 <= k <= items@.len(),
            out@ == atoms_text(items@, k as nat),
        decreases items.len() - k,
    {
        match atom_exec(&items[k]) {
            Some(a) => {
                if out.as_str().unicode_len() > 0 {
                    out.append(" ");
                }
                out.append(a.as_str());
            },
            None => {},
        }
        assert(out@ =~= atoms_text(items@, (k + 1) as nat));
        k += 1;
    }
    out
}

fn has_key_exec(m: &Vec<(String, String)>, key: &str) -> (r: bool)
    ensures
        r == crate::lock::has_key(crate::modules::pair_views(m@), key@),
{
    let ghost mv = crate::modules::pair_views(m@);
    let mut i: usize = 0;
    while i < m.len()
        invariant
            i <= m@.len(),
            mv == crate::modules::pair_views(m@),
            forall|t: int| 0 <= t < i ==> #[trigger] mv[t].0 != key@,
        decreases m.len() - i,
    {
        assert(mv[i as int] == (m@[i as int].0@, m@[i as int].1@));
        if crate::text::same_text(m[i].0.as_str(), key) {
            assert(mv[i as int].0 == key@);
            return true;
        }
        i += 1;
    }
    false
}

proof fn lemma_states_err(fps: Seq<Sexp>, name: Seq<char>, k: nat, n: nat)
    requires
        k <= n <= fps.len(),
        states_upto(fps, name, k) is Err,
    ensures
        states_upto(fps, name, n) == states_upto(fps, name, k),
    decreases n - k,
{
    if k < n {
        lemma_states_err(fps, name, k, (n - 1) as nat);
    }
}


/// What a footprint's children say of it (see `footprint_facts`).
fn scan_footprint(items: &Vec<Sexp>) -> (r: (Option<String>, Option<String>, String, Option<String>))
    ensures
        ({
            let f = footprint_facts(items@, items@.len());
            &&& crate::elaboration::text_opt(r.0) == f.reference
            &&& crate::elaboration::text_opt(r.1) == f.uuid
            &&& r.2@ == f.at
            &&& crate::elaboration::text_opt(r.3) == f.layer
        }),
{
        let mut reference: Option<String> = None;
        let mut uuid: Option<String> = None;
        let mut at = String::new();
        let mut layer: Option<String> = None;
        let mut k: usize = 2;
        proof {
            reveal_strlit("");
        }
        while k < items.len()
            invariant
                ({
                    let f = footprint_facts(items@, k as nat);
                    &&& 2 <= k
                    &&& (k == 2 || k <= items@.len())
                    &&& crate::elaboration::text_opt(reference) == f.reference
                    &&& crate::elaboration::text_opt(uuid) == f.uuid
                    &&& at@ == f.at
                    &&& crate::elaboration::text_opt(layer) == f.layer
                }),
            decreases items.len() - k,
        {
            let c = &items[k];
            let ghost before = footprint_facts(items@, k as nat);
            assert(items@[k as int] == *c);
            if crate::connectivity::head_is(c, "layer") {
                layer = nth_atom_exec(c, 1);
            } else if crate::connectivity::head_is(c, "at") {
                at = match c {
                    Sexp::List(xs) => atoms_text_exec(xs),
                    _ => String::new(),
                };
            } else if crate::connectivity::head_is(c, "uuid") {
                uuid = nth_atom_exec(c, 1);
            } else if crate::connectivity::head_is(c, "property") {
                let key = nth_atom_exec(c, 1);
                let is_reference = match &key {
                    Some(t) => crate::text::same_text(t.as_str(), "Reference"),
                    None => false,
                };
                if is_reference {
                    reference = nth_atom_exec(c, 2);
                }
            }
            assert(footprint_facts(items@, (k + 1) as nat).reference == crate::elaboration::text_opt(reference));
            assert(footprint_facts(items@, (k + 1) as nat).uuid == crate::elaboration::text_opt(uuid));
            assert(footprint_facts(items@, (k + 1) as nat).layer == crate::elaboration::text_opt(layer));
            assert(footprint_facts(items@, (k + 1) as nat).at == at@);
            k += 1;
        }
        assert(footprint_facts(items@, items@.len()) == footprint_facts(items@, k as nat));
        (reference, uuid, at, layer)
}

/// The footprint placements of a board read as an S-expression, named `name` in errors: each
/// footprint under `reference:R` for its printed reference, else `uuid:U` for its UUID, with
/// the atoms of its position and its layer, in ascending key order. A footprint without a
/// reference or UUID, or a key taken twice, is an error.
pub fn footprint_state(board: &Sexp, name: &str) -> (r: Result<Vec<(String, String)>, String>)
    ensures
        match (r, footprint_states(*board, name@)) {
            (Ok(a), Ok(b)) => crate::modules::pair_views(a@) == b,
            (Err(a), Err(b)) => a@ == b,
            _ => false,
        },
{
    let ghost fps = children_of(*board, "footprint"@);
    let pos = crate::connectivity::positions_of(board, "footprint");
    let mut state: Vec<(String, String)> = Vec::new();
    let mut n: usize = 0;
    assert(crate::modules::pair_views(state@) =~= Seq::<(Seq<char>, Seq<char>)>::empty());
    while n < pos.len()
        invariant
            n <= pos@.len(),
            pos@.len() == fps.len(),
            fps == children_of(*board, "footprint"@),
            forall|t: int|
                0 <= t < pos@.len() ==> (board matches Sexp::List(items) && pos@[t] < items@.len() && items@[#[trigger] pos@[t] as int]
                    == fps[t]),
            states_upto(fps, name@, n as nat) == Ok::<Seq<(Seq<char>, Seq<char>)>, Seq<char>>(crate::modules::pair_views(state@)),
        decreases pos.len() - n,
    {
        let fp = crate::connectivity::item(board, pos[n]);
        assert(*fp == fps[n as int]);
        let empty: Vec<Sexp> = Vec::new();
        let items = match fp {
            Sexp::List(xs) => xs,
            _ => &empty,
        };
        let ghost iv = match fps[n as int] {
            Sexp::List(xs) => xs@,
            _ => Seq::<Sexp>::empty(),
        };
        assert(items@ == iv);
        let (reference, uuid, at, layer) = scan_footprint(items);
        let ghost f = footprint_facts(iv, iv.len());
        let key: Option<String> = match &reference {
            Some(r) if r.as_str().unicode_len() > 0 => Some(text2("reference:", r.as_str())),
            _ => match &uuid {
                Some(u) if u.as_str().unicode_len() > 0 => Some(text2("uuid:", u.as_str())),
                _ => None,
            },
        };
        let placement = match &layer {
            Some(l) => crate::text::text3(at.as_str(), "|", l.as_str()),
            None => text2(at.as_str(), "|"),
        };
        assert(placement@ =~= footprint_placement(f));
        assert(crate::elaboration::text_opt(key) == footprint_key(f));
        match key {
            None => {
                proof {
                    lemma_states_err(fps, name@, (n + 1) as nat, fps.len());
                }
                return Err(crate::text::text3("board '", name, "' has a footprint without a reference or UUID"));
            },
            Some(key) => {
                if has_key_exec(&state, key.as_str()) {
                    proof {
                        lemma_states_err(fps, name@, (n + 1) as nat, fps.len());
                    }
                    return Err(crate::text::text5("board '", name, "' has duplicate footprint reference '", key.as_str(), "'"));
                }
                state = crate::kicad::sorted_put_exec(state, &key, &placement);
            },
        }
        n += 1;
    }
    Ok(state)
}

} // verus!

verus! {

/// The routing cache is published only after the board was regenerated and checked: the
/// publish action follows only a KiCad check without KiCad errors, and never when the router
/// emitted no copper for a design that has connections.
pub proof fn law_cache_is_published_only_after_validation(s: RouteStateV, e: RouteEventV)
    requires
        route_transition(s, e).1 is Publish,
    ensures
        s.stage == RouteStage::Checking,
        e matches RouteEventV::Checked(ds) && !has_kicad_error(ds),
        !(s.copper_empty && s.connected),
{
}

/// The router may not move footprints: the run goes on past the routed board only when its
/// footprint placements equal those of the board before routing; otherwise it ends with
/// ROUTE019.
pub proof fn law_moved_footprints_are_refused(s: RouteStateV, state: Seq<(Seq<char>, Seq<char>)>)
    requires
        s.stage == RouteStage::After,
        state != s.initial,
    ensures
        route_transition(s, RouteEventV::Footprints(Ok(state))).1 == RouteActionV::Finish(ExitClass::Invalid),
        route_transition(s, RouteEventV::Footprints(Ok(state))).0.diagnostics.last().code == "ROUTE019"@,
{
}

/// The copper handed on for validation is the routed copper with the copper outside the
/// selection restored from the previous cache and every locked route and via of the selection
/// kept; a run that lost locked copper ends with ROUTE020.
pub proof fn law_validated_copper_is_preserved(s: RouteStateV, before: CopperV, after: CopperV)
    requires
        s.stage == RouteStage::Extracting,
    ensures
        ({
            let (c, res) = preserved(pattern_bytes_v(s.selected), before, after);
            let r = route_transition(s, RouteEventV::Extracted(Ok((before, after))));
            &&& res is Ok ==> r.1 == RouteActionV::Validate(c)
            &&& res is Err ==> r.1 == RouteActionV::Finish(ExitClass::Invalid) && r.0.diagnostics.last().code == "ROUTE020"@
        }),
{
}

/// A finished run stays finished, and every failure ends it as invalid input.
pub proof fn law_finished_runs_stay_finished(s: RouteStateV, e: RouteEventV)
    requires
        s.stage == RouteStage::Finished,
    ensures
        route_transition(s, e).0.stage == RouteStage::Finished,
        route_transition(s, e).1 == RouteActionV::Finish(ExitClass::Invalid),
{
}

} // verus!

verus! {

use crate::kicad::sorted_put;
use crate::route_workflow::{lemma_lex_antisym, lemma_lex_total, lemma_lex_trans, lex_le};

proof fn lemma_put_commutes(m: Seq<(Seq<char>, Seq<char>)>, a: Seq<char>, x: Seq<char>, b: Seq<char>, y: Seq<char>)
    requires
        a != b,
        !crate::lock::has_key(m, a),
        !crate::lock::has_key(m, b),
    ensures
        crate::kicad::sorted_put(crate::kicad::sorted_put(m, a, x), b, y) == crate::kicad::sorted_put(
            crate::kicad::sorted_put(m, b, y),
            a,
            x,
        ),
    decreases m.len(),
{
    lemma_lex_total(a, b);
    if lex_le(a, b) && lex_le(b, a) {
        lemma_lex_antisym(a, b);
    }
    if m.len() == 0 {
        let sa = seq![(a, x)];
        let sb = seq![(b, y)];
        assert(sorted_put(m, a, x) == sa);
        assert(sorted_put(m, b, y) == sb);
        assert(sa.drop_first() =~= Seq::<(Seq<char>, Seq<char>)>::empty());
        assert(sb.drop_first() =~= Seq::<(Seq<char>, Seq<char>)>::empty());
        if lex_le(b, a) {
            assert(sorted_put(sa, b, y) =~= seq![(b, y), (a, x)]);
            assert(sorted_put(sb, a, x) =~= seq![sb[0]] + sorted_put(sb.drop_first(), a, x));
            assert(sorted_put(sb, a, x) =~= seq![(b, y), (a, x)]);
        } else {
            assert(sorted_put(sa, b, y) =~= seq![sa[0]] + sorted_put(sa.drop_first(), b, y));
            assert(sorted_put(sa, b, y) =~= seq![(a, x), (b, y)]);
            assert(sorted_put(sb, a, x) =~= seq![(a, x), (b, y)]);
        }
    } else {
        let h = m[0];
        assert(h.0 != a && h.0 != b) by {
            if h.0 == a {
                assert(crate::lock::has_key(m, a));
            }
            if h.0 == b {
                assert(crate::lock::has_key(m, b));
            }
        }
        let t = m.drop_first();
        assert(!crate::lock::has_key(t, a) && !crate::lock::has_key(t, b)) by {
            if crate::lock::has_key(t, a) {
                let i = choose|i: int| 0 <= i < t.len() && #[trigger] t[i].0 == a;
                assert(m[i + 1].0 == a);
            }
            if crate::lock::has_key(t, b) {
                let i = choose|i: int| 0 <= i < t.len() && #[trigger] t[i].0 == b;
                assert(m[i + 1].0 == b);
            }
        }
        if lex_le(a, h.0) && lex_le(b, h.0) {
            assert(seq![(a, x)] + m =~= seq![(a, x)] + m);
            let am = seq![(a, x)] + m;
            let bm = seq![(b, y)] + m;
            assert(am.drop_first() =~= m);
            assert(bm.drop_first() =~= m);
            assert(sorted_put(m, b, y) =~= seq![(b, y)] + m);
            if lex_le(b, a) {
                assert(sorted_put(am, b, y) =~= seq![(b, y)] + am);
                assert(sorted_put(bm, a, x) =~= seq![bm[0]] + sorted_put(m, a, x));
                assert(sorted_put(bm, a, x) =~= seq![(b, y), (a, x)] + m);
            } else {
                assert(sorted_put(am, b, y) =~= seq![am[0]] + sorted_put(m, b, y));
                assert(sorted_put(am, b, y) =~= seq![(a, x), (b, y)] + m);
                assert(sorted_put(bm, a, x) =~= seq![(a, x)] + bm);
            }
        } else if lex_le(a, h.0) {
            if lex_le(b, a) {
                lemma_lex_trans(b, a, h.0);
            }
            let am = seq![(a, x)] + m;
            assert(am.drop_first() =~= m);
            assert(sorted_put(am, b, y) =~= seq![am[0]] + sorted_put(m, b, y));
            let mb = sorted_put(m, b, y);
            assert(mb =~= seq![h] + sorted_put(t, b, y));
            assert(sorted_put(mb, a, x) =~= seq![(a, x)] + mb);
        } else if lex_le(b, h.0) {
            if lex_le(a, b) {
                lemma_lex_trans(a, b, h.0);
            }
            let bm = seq![(b, y)] + m;
            assert(bm.drop_first() =~= m);
            assert(sorted_put(bm, a, x) =~= seq![bm[0]] + sorted_put(m, a, x));
            let ma = sorted_put(m, a, x);
            assert(ma =~= seq![h] + sorted_put(t, a, x));
            assert(sorted_put(ma, b, y) =~= seq![(b, y)] + ma);
        } else {
            lemma_put_commutes(t, a, x, b, y);
            let ma = sorted_put(m, a, x);
            let mb = sorted_put(m, b, y);
            assert(ma =~= seq![h] + sorted_put(t, a, x));
            assert(mb =~= seq![h] + sorted_put(t, b, y));
            assert(ma.drop_first() =~= sorted_put(t, a, x));
            assert(mb.drop_first() =~= sorted_put(t, b, y));
        }
    }
}

/// The footprints of a board with those at positions `k` and `k + 1` exchanged.
pub open spec fn swapped(fps: Seq<Sexp>, k: int) -> Seq<Sexp> {
    fps.update(k, fps[k + 1]).update(k + 1, fps[k])
}

proof fn lemma_states_swap(fps: Seq<Sexp>, name: Seq<char>, k: int, n: nat)
    requires
        0 <= k,
        k + 2 <= n <= fps.len(),
        states_upto(fps, name, n) is Ok,
    ensures
        states_upto(swapped(fps, k), name, n) == states_upto(fps, name, n),
    decreases n,
{
    let g = swapped(fps, k);
    if n > k + 2 {
        lemma_states_swap(fps, name, k, (n - 1) as nat);
        assert(g[n - 1] == fps[n - 1]);
    } else {
        assert forall|j: nat| j <= k implies states_upto(g, name, j) == states_upto(fps, name, j) by {
            lemma_states_prefix(fps, g, name, j, k);
        }
        let m = states_upto(fps, name, k as nat)->Ok_0;
        assert(g[k] == fps[k + 1] && g[k + 1] == fps[k]);
        let fa = fps[k];
        let fb = fps[k + 1];
        let ia = match fa {
            Sexp::List(xs) => xs@,
            _ => Seq::empty(),
        };
        let ib = match fb {
            Sexp::List(xs) => xs@,
            _ => Seq::empty(),
        };
        let s1 = states_upto(fps, name, (k + 1) as nat);
        let s2 = states_upto(fps, name, (k + 2) as nat);
        assert(s1 is Ok);
        assert(states_upto(fps, name, k as nat) is Ok);
        let a = footprint_key(footprint_facts(ia, ia.len()))->0;
        let b = footprint_key(footprint_facts(ib, ib.len()))->0;
        let pa = footprint_placement(footprint_facts(ia, ia.len()));
        let pb = footprint_placement(footprint_facts(ib, ib.len()));
        assert(footprint_key(footprint_facts(ia, ia.len())) is Some);
        assert(!crate::lock::has_key(m, a));
        let ma = crate::kicad::sorted_put(m, a, pa);
        assert(s1 == Ok::<Seq<(Seq<char>, Seq<char>)>, Seq<char>>(ma));
        assert(footprint_key(footprint_facts(ib, ib.len())) is Some);
        assert(!crate::lock::has_key(ma, b));
        crate::lock::lemma_sorted_put_has(m, a, pa, b);
        let mb = crate::kicad::sorted_put(m, b, pb);
        crate::lock::lemma_sorted_put_has(m, b, pb, a);
        assert(states_upto(g, name, k as nat) == states_upto(fps, name, k as nat));
        assert(states_upto(g, name, (k + 1) as nat) == Ok::<Seq<(Seq<char>, Seq<char>)>, Seq<char>>(mb));
        lemma_put_commutes(m, a, pa, b, pb);
    }
}

proof fn lemma_states_prefix(fps: Seq<Sexp>, g: Seq<Sexp>, name: Seq<char>, j: nat, k: int)
    requires
        j <= k,
        k + 2 <= fps.len(),
        g.len() == fps.len(),
        forall|i: int| 0 <= i < k ==> g[i] == fps[i],
    ensures
        states_upto(g, name, j) == states_upto(fps, name, j),
    decreases j,
{
    if j > 0 {
        lemma_states_prefix(fps, g, name, (j - 1) as nat, k);
    }
}

/// The footprint placements of a board do not depend on the order of its footprints:
/// exchanging two neighbouring footprints of a board whose placements are read leaves them
/// unchanged (any reordering is a series of such exchanges).
pub proof fn law_footprint_state_ignores_order(fps: Seq<Sexp>, name: Seq<char>, k: int)
    requires
        0 <= k,
        k + 1 < fps.len(),
        states_upto(fps, name, fps.len()) is Ok,
    ensures
        states_upto(swapped(fps, k), name, fps.len()) == states_upto(fps, name, fps.len()),
{
    lemma_states_swap(fps, name, k, fps.len());
}

} // verus!
