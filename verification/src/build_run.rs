//! The decisions of a check or build run, as a state machine: the caller loads the project,
//! finds kicad-cli, resolves libraries and layout, applies the route cache, stages and
//! generates the project, validates it with KiCad and, for a build, publishes it; each step
//! decides the next action or ends the run with its exit class.
use crate::diagnostic::{diag_views, opt_view, DiagV, Diagnostic, RelatedDiagnostic, Severity};
use crate::pipeline::ExitClass;
use crate::route_run::{any_error, any_kicad_error, error, error_v, extend, has_error, has_kicad_error};
use crate::text::{same_text, text2};
use vstd::prelude::*;

verus! {

/// Where a check or build stands: the report it waits for.
#[derive(Debug, Clone, Copy, PartialEq, Eq, Structural)]
pub enum BuildStage {
    Loading,
    Tools,
    Preparing,
    Caching,
    Staging,
    Checking,
    Publishing,
    Finished,
}

/// The state of a check or build: its stage, the input file, whether it publishes, and the
/// diagnostics so far.
#[derive(Debug)]
pub struct BuildState {
    pub stage: BuildStage,
    pub input: String,
    pub publish: bool,
    pub diagnostics: Vec<Diagnostic>,
}

/// Why staging the generated project failed.
#[derive(Debug)]
pub enum BuildStageFailure {
    /// The staging parent directory could not be created.
    Parent(String),
    /// The staging directory could not be created.
    Directory(String),
    /// The generated project could not be written.
    Write(String),
    /// The written project is not what was generated.
    Generated(String),
}

/// What the caller reports after performing an action.
#[derive(Debug)]
pub enum BuildEvent {
    /// The project was loaded: its diagnostics and whether it exists.
    Loaded(Vec<Diagnostic>, bool),
    /// Whether kicad-cli was found.
    Tools(bool),
    /// Libraries, lock, layout and validation gave these diagnostics; whether the project has
    /// a routing policy.
    Prepared(Vec<Diagnostic>, bool),
    /// Applying the route cache: its error, or the validation findings before and after it.
    CacheApplied(Result<(Vec<Diagnostic>, Vec<Diagnostic>), Diagnostic>),
    /// Staging the generated project; the failure if any.
    Staged(Option<BuildStageFailure>),
    /// The KiCad validation of the staged project.
    Checked(Vec<Diagnostic>),
    /// Publishing the staged project; the error if any.
    Published(Option<String>),
}

/// What the caller does next.
#[derive(Debug, PartialEq, Eq, Structural)]
pub enum BuildAction {
    /// Look for kicad-cli.
    FindTools,
    /// Resolve libraries, verify the lock, resolve the layout and validate the project.
    Prepare,
    /// Apply the route cache and validate the project before and after it.
    ApplyCache,
    /// Generate the project and write it to a staging directory.
    Stage,
    /// Run KiCad's checks on the staged project.
    CheckWithKicad,
    /// Move the staged project to the output directory.
    Publish,
    /// End the run with this exit class.
    Finish(ExitClass),
}

/// The plain value of a build state.
pub struct BuildStateV {
    pub stage: BuildStage,
    pub input: Seq<char>,
    pub publish: bool,
    pub diagnostics: Seq<DiagV>,
}

/// The plain value of a staging failure.
pub enum BuildStageFailureV {
    Parent(Seq<char>),
    Directory(Seq<char>),
    Write(Seq<char>),
    Generated(Seq<char>),
}

/// The plain value of an event.
pub enum BuildEventV {
    Loaded(Seq<DiagV>, bool),
    Tools(bool),
    Prepared(Seq<DiagV>, bool),
    CacheApplied(Result<(Seq<DiagV>, Seq<DiagV>), DiagV>),
    Staged(Option<BuildStageFailureV>),
    Checked(Seq<DiagV>),
    Published(Option<Seq<char>>),
}

impl View for BuildState {
    type V = BuildStateV;

    open spec fn view(&self) -> BuildStateV {
        BuildStateV { stage: self.stage, input: self.input@, publish: self.publish, diagnostics: diag_views(self.diagnostics@) }
    }
}

impl View for BuildEvent {
    type V = BuildEventV;

    open spec fn view(&self) -> BuildEventV {
        match self {
            BuildEvent::Loaded(ds, p) => BuildEventV::Loaded(diag_views(ds@), *p),
            BuildEvent::Tools(c) => BuildEventV::Tools(*c),
            BuildEvent::Prepared(ds, r) => BuildEventV::Prepared(diag_views(ds@), *r),
            BuildEvent::CacheApplied(r) => BuildEventV::CacheApplied(
                match r {
                    Ok((a, b)) => Ok((diag_views(a@), diag_views(b@))),
                    Err(d) => Err(d@),
                },
            ),
            BuildEvent::Staged(f) => BuildEventV::Staged(
                match f {
                    Some(BuildStageFailure::Parent(m)) => Some(BuildStageFailureV::Parent(m@)),
                    Some(BuildStageFailure::Directory(m)) => Some(BuildStageFailureV::Directory(m@)),
                    Some(BuildStageFailure::Write(m)) => Some(BuildStageFailureV::Write(m@)),
                    Some(BuildStageFailure::Generated(m)) => Some(BuildStageFailureV::Generated(m@)),
                    None => None,
                },
            ),
            BuildEvent::Checked(ds) => BuildEventV::Checked(diag_views(ds@)),
            BuildEvent::Published(e) => BuildEventV::Published(crate::diagnostic::opt_view(*e)),
        }
    }
}

/// The findings of `after` that `before` does not hold, in order.
pub open spec fn new_findings(before: Seq<DiagV>, after: Seq<DiagV>) -> Seq<DiagV>
    decreases after.len(),
{
    if after.len() == 0 {
        Seq::empty()
    } else {
        new_findings(before, after.drop_last()) + if before.contains(after.last()) {
            Seq::<DiagV>::empty()
        } else {
            seq![after.last()]
        }
    }
}

/// Whether some diagnostic is an ERC or DRC error.
pub open spec fn has_design_error(ds: Seq<DiagV>) -> bool {
    exists|i: int| 0 <= i < ds.len() && (#[trigger] ds[i]).severity == Severity::Error && (ds[i].code == "ERC"@ || ds[i].code == "DRC"@)
}

/// The run ends, invalid.
pub open spec fn halt(s: BuildStateV) -> (BuildStateV, BuildAction) {
    (BuildStateV { stage: BuildStage::Finished, ..s }, BuildAction::Finish(ExitClass::Invalid))
}

/// The run ends, invalid, with one more error.
pub open spec fn refuse(s: BuildStateV, d: DiagV) -> (BuildStateV, BuildAction) {
    halt(BuildStateV { diagnostics: s.diagnostics.push(d), ..s })
}

/// The run ends after validation: with design violations when an ERC or DRC error was found.
pub open spec fn complete(s: BuildStateV) -> (BuildStateV, BuildAction) {
    (
        BuildStateV { stage: BuildStage::Finished, ..s },
        BuildAction::Finish(
            if has_design_error(s.diagnostics) {
                ExitClass::DesignViolations
            } else {
                ExitClass::Success
            },
        ),
    )
}

/// The error of a staging failure.
pub open spec fn build_stage_error(f: BuildStageFailureV, input: Seq<char>) -> DiagV {
    match f {
        BuildStageFailureV::Parent(m) => error_v("IO002"@, "cannot create staging parent: "@ + m, input, None),
        BuildStageFailureV::Directory(m) => error_v("IO002"@, "cannot create staging directory: "@ + m, input, None),
        BuildStageFailureV::Write(m) => error_v("GEN001"@, "cannot write staged project: "@ + m, input, None),
        BuildStageFailureV::Generated(m) => error_v("GEN002"@, m, input, None),
    }
}

/// One step of a check or build. A project with errors after loading or preparation is
/// invalid; a routed project takes its copper from the route cache and adds the validation
/// findings that the cache introduced; the staged project is validated by KiCad before a
/// build publishes it; an event that does not answer the stage's action ends the run.
pub open spec fn build_transition(s: BuildStateV, e: BuildEventV) -> (BuildStateV, BuildAction) {
    match (s.stage, e) {
        (BuildStage::Loading, BuildEventV::Loaded(ds, project)) => {
            let s1 = BuildStateV { diagnostics: s.diagnostics + ds, ..s };
            if !project || has_error(s1.diagnostics) {
                halt(s1)
            } else {
                (BuildStateV { stage: BuildStage::Tools, ..s1 }, BuildAction::FindTools)
            }
        },
        (BuildStage::Tools, BuildEventV::Tools(cli)) => if !cli {
            refuse(
                s,
                error_v(
                    "KICAD001"@,
                    "kicad-cli was not found"@,
                    s.input,
                    Some("install KiCad 10, add kicad-cli to PATH, or pass --kicad-cli"@),
                ),
            )
        } else {
            (BuildStateV { stage: BuildStage::Preparing, ..s }, BuildAction::Prepare)
        },
        (BuildStage::Preparing, BuildEventV::Prepared(ds, routing)) => {
            let s1 = BuildStateV { diagnostics: s.diagnostics + ds, ..s };
            if has_error(s1.diagnostics) {
                halt(s1)
            } else if routing {
                (BuildStateV { stage: BuildStage::Caching, ..s1 }, BuildAction::ApplyCache)
            } else {
                (BuildStateV { stage: BuildStage::Staging, ..s1 }, BuildAction::Stage)
            }
        },
        (BuildStage::Caching, BuildEventV::CacheApplied(r)) => match r {
            Err(d) => refuse(s, d),
            Ok((before, after)) => {
                let s1 = BuildStateV { diagnostics: s.diagnostics + new_findings(before, after), ..s };
                if has_error(s1.diagnostics) {
                    halt(s1)
                } else {
                    (BuildStateV { stage: BuildStage::Staging, ..s1 }, BuildAction::Stage)
                }
            },
        },
        (BuildStage::Staging, BuildEventV::Staged(f)) => match f {
            Some(f) => refuse(s, build_stage_error(f, s.input)),
            None => (BuildStateV { stage: BuildStage::Checking, ..s }, BuildAction::CheckWithKicad),
        },
        (BuildStage::Checking, BuildEventV::Checked(ds)) => {
            let s1 = BuildStateV { diagnostics: s.diagnostics + ds, ..s };
            if has_kicad_error(ds) {
                halt(s1)
            } else if s.publish {
                (BuildStateV { stage: BuildStage::Publishing, ..s1 }, BuildAction::Publish)
            } else {
                complete(s1)
            }
        },
        (BuildStage::Publishing, BuildEventV::Published(e)) => match e {
            Some(m) => refuse(s, error_v("IO003"@, "atomic publish failed: "@ + m, s.input, None)),
            None => complete(s),
        },
        _ => halt(s),
    }
}

/// Whether two related locations are the same.
fn same_related(a: &RelatedDiagnostic, b: &RelatedDiagnostic) -> (r: bool)
    ensures
        r == (a@ == b@),
{
    let paths = match (&a.path, &b.path) {
        (Some(x), Some(y)) => same_text(x.as_str(), y.as_str()),
        (None, None) => true,
        _ => false,
    };
    let spans = match (&a.span, &b.span) {
        (Some(x), Some(y)) => *x == *y,
        (None, None) => true,
        _ => false,
    };
    same_text(a.message.as_str(), b.message.as_str()) && paths && spans
}

/// Whether two optional texts are the same.
fn same_opt_text(a: &Option<String>, b: &Option<String>) -> (r: bool)
    ensures
        r == (opt_view(*a) == opt_view(*b)),
{
    match (a, b) {
        (Some(x), Some(y)) => same_text(x.as_str(), y.as_str()),
        (None, None) => true,
        _ => false,
    }
}

/// Whether two diagnostics are the same finding.
fn same_diagnostic(a: &Diagnostic, b: &Diagnostic) -> (r: bool)
    ensures
        r == (a@ == b@),
{
    if a.severity != b.severity || !same_text(a.code.as_str(), b.code.as_str()) || !same_text(
        a.message.as_str(),
        b.message.as_str(),
    ) || !same_text(a.file.as_str(), b.file.as_str()) || !same_opt_text(&a.path, &b.path) || !same_opt_text(
        &a.help,
        &b.help,
    ) {
        return false;
    }
    let spans = match (&a.span, &b.span) {
        (Some(x), Some(y)) => *x == *y,
        (None, None) => true,
        _ => false,
    };
    if !spans || a.related.len() != b.related.len() {
        assert(a@.related.len() == a.related@.len() && b@.related.len() == b.related@.len());
        return false;
    }
    let mut i: usize = 0;
    while i < a.related.len()
        invariant
            i <= a.related@.len(),
            a.related@.len() == b.related@.len(),
            forall|k: int| 0 <= k < i ==> (#[trigger] a.related@[k])@ == b.related@[k]@,
        decreases a.related.len() - i,
    {
        if !same_related(&a.related[i], &b.related[i]) {
            assert(a@.related[i as int] != b@.related[i as int]);
            return false;
        }
        i += 1;
    }
    assert(a@.related =~= b@.related);
    true
}

/// Whether `ds` holds the finding `d`.
fn holds_diagnostic(ds: &Vec<Diagnostic>, d: &Diagnostic) -> (r: bool)
    ensures
        r == diag_views(ds@).contains(d@),
{
    let mut i: usize = 0;
    while i < ds.len()
        invariant
            i <= ds@.len(),
            forall|k: int| 0 <= k < i ==> (#[trigger] diag_views(ds@)[k]) != d@,
        decreases ds.len() - i,
    {
        assert(diag_views(ds@)[i as int] == ds@[i as int]@);
        if same_diagnostic(&ds[i], d) {
            assert(diag_views(ds@)[i as int] == d@);
            return true;
        }
        i += 1;
    }
    false
}

/// The findings of `after` that `before` does not hold, in order.
fn findings_added(before: &Vec<Diagnostic>, after: Vec<Diagnostic>) -> (r: Vec<Diagnostic>)
    ensures
        diag_views(r@) == new_findings(diag_views(before@), diag_views(after@)),
{
    let ghost bv = diag_views(before@);
    let ghost av = diag_views(after@);
    let total: usize = after.len();
    let ghost n = after@.len();
    let mut rest = after;
    let mut out: Vec<Diagnostic> = Vec::new();
    let mut k: usize = 0;
    while k < total
        invariant
            k + rest@.len() == n,
            n == total,
            av.len() == n,
            diag_views(rest@) == av.skip(k as int),
            diag_views(out@) == new_findings(bv, av.take(k as int)),
            bv == diag_views(before@),
        decreases total - k,
    {
        let ghost r0 = rest@;
        let d = rest.remove(0);
        assert(d@ == av[k as int]) by {
            assert(diag_views(r0)[0] == av.skip(k as int)[0]);
        }
        assert(diag_views(rest@) =~= av.skip(k + 1)) by {
            assert forall|j: int| 0 <= j < rest@.len() implies diag_views(rest@)[j] == av.skip(k + 1)[j] by {
                assert(rest@[j] == r0[j + 1]);
                assert(diag_views(r0)[j + 1] == av.skip(k as int)[j + 1]);
            }
        }
        assert(av.take(k + 1).drop_last() =~= av.take(k as int));
        let keep = !holds_diagnostic(before, &d);
        let ghost o0 = out@;
        if keep {
            out.push(d);
            assert(diag_views(out@) =~= diag_views(o0) + seq![av[k as int]]);
        } else {
            assert(diag_views(out@) =~= diag_views(o0) + Seq::<DiagV>::empty());
        }
        k += 1;
    }
    assert(av.take(n as int) =~= av);
    out
}

/// Whether some diagnostic is an ERC or DRC error.
fn any_design_error(ds: &Vec<Diagnostic>) -> (r: bool)
    ensures
        r == has_design_error(diag_views(ds@)),
{
    let mut i: usize = 0;
    while i < ds.len()
        invariant
            i <= ds@.len(),
            forall|k: int|
                0 <= k < i ==> !((#[trigger] diag_views(ds@)[k]).severity == Severity::Error && (diag_views(ds@)[k].code == "ERC"@
                    || diag_views(ds@)[k].code == "DRC"@)),
        decreases ds.len() - i,
    {
        assert(diag_views(ds@)[i as int] == ds@[i as int]@);
        let c = ds[i].code.as_str();
        if ds[i].severity == Severity::Error && (same_text(c, "ERC") || same_text(c, "DRC")) {
            return true;
        }
        i += 1;
    }
    false
}

fn halt_run(s: BuildState) -> (r: (BuildState, BuildAction))
    ensures
        (r.0@, r.1) == halt(s@),
{
    let mut s = s;
    s.stage = BuildStage::Finished;
    (s, BuildAction::Finish(ExitClass::Invalid))
}

fn refuse_run(s: BuildState, d: Diagnostic) -> (r: (BuildState, BuildAction))
    ensures
        (r.0@, r.1) == refuse(s@, d@),
{
    let mut s = s;
    let ghost before = s.diagnostics@;
    s.diagnostics.push(d);
    assert(diag_views(s.diagnostics@) =~= diag_views(before).push(d@));
    halt_run(s)
}

fn complete_run(s: BuildState) -> (r: (BuildState, BuildAction))
    ensures
        (r.0@, r.1) == complete(s@),
{
    let mut s = s;
    let violations = any_design_error(&s.diagnostics);
    s.stage = BuildStage::Finished;
    if violations {
        (s, BuildAction::Finish(ExitClass::DesignViolations))
    } else {
        (s, BuildAction::Finish(ExitClass::Success))
    }
}

fn advance(s: BuildState, stage: BuildStage, action: BuildAction) -> (r: (BuildState, BuildAction))
    ensures
        r.0@ == (BuildStateV { stage, ..s@ }),
        r.1 == action,
{
    let mut s = s;
    s.stage = stage;
    (s, action)
}

/// One step of a check or build (see `build_transition`): from the state and the report of
/// the last action, the next state and action.
pub fn build_step(state: BuildState, event: BuildEvent) -> (r: (BuildState, BuildAction))
    ensures
        (r.0@, r.1) == build_transition(state@, event@),
{
    let mut s = state;
    match event {
        BuildEvent::Loaded(ds, project) => {
            if s.stage != BuildStage::Loading {
                return halt_run(s);
            }
            extend(&mut s.diagnostics, ds);
            if !project || any_error(&s.diagnostics) {
                halt_run(s)
            } else {
                advance(s, BuildStage::Tools, BuildAction::FindTools)
            }
        },
        BuildEvent::Tools(cli) => {
            if s.stage != BuildStage::Tools {
                return halt_run(s);
            }
            if !cli {
                let d = error(
                    "KICAD001",
                    "kicad-cli was not found",
                    s.input.as_str(),
                    Some("install KiCad 10, add kicad-cli to PATH, or pass --kicad-cli"),
                );
                refuse_run(s, d)
            } else {
                advance(s, BuildStage::Preparing, BuildAction::Prepare)
            }
        },
        BuildEvent::Prepared(ds, routing) => {
            if s.stage != BuildStage::Preparing {
                return halt_run(s);
            }
            extend(&mut s.diagnostics, ds);
            if any_error(&s.diagnostics) {
                halt_run(s)
            } else if routing {
                advance(s, BuildStage::Caching, BuildAction::ApplyCache)
            } else {
                advance(s, BuildStage::Staging, BuildAction::Stage)
            }
        },
        BuildEvent::CacheApplied(r) => {
            if s.stage != BuildStage::Caching {
                return halt_run(s);
            }
            match r {
                Err(d) => refuse_run(s, d),
                Ok((before, after)) => {
                    let added = findings_added(&before, after);
                    extend(&mut s.diagnostics, added);
                    if any_error(&s.diagnostics) {
                        halt_run(s)
                    } else {
                        advance(s, BuildStage::Staging, BuildAction::Stage)
                    }
                },
            }
        },
        BuildEvent::Staged(f) => {
            if s.stage != BuildStage::Staging {
                return halt_run(s);
            }
            match f {
                Some(f) => {
                    let d = match f {
                        BuildStageFailure::Parent(m) => {
                            let t = text2("cannot create staging parent: ", m.as_str());
                            error("IO002", t.as_str(), s.input.as_str(), None)
                        },
                        BuildStageFailure::Directory(m) => {
                            let t = text2("cannot create staging directory: ", m.as_str());
                            error("IO002", t.as_str(), s.input.as_str(), None)
                        },
                        BuildStageFailure::Write(m) => {
                            let t = text2("cannot write staged project: ", m.as_str());
                            error("GEN001", t.as_str(), s.input.as_str(), None)
                        },
                        BuildStageFailure::Generated(m) => error("GEN002", m.as_str(), s.input.as_str(), None),
                    };
                    refuse_run(s, d)
                },
                None => advance(s, BuildStage::Checking, BuildAction::CheckWithKicad),
            }
        },
        BuildEvent::Checked(ds) => {
            if s.stage != BuildStage::Checking {
                return halt_run(s);
            }
            let kicad = any_kicad_error(&ds);
            extend(&mut s.diagnostics, ds);
            if kicad {
                halt_run(s)
            } else if s.publish {
                advance(s, BuildStage::Publishing, BuildAction::Publish)
            } else {
                complete_run(s)
            }
        },
        BuildEvent::Published(e) => {
            if s.stage != BuildStage::Publishing {
                return halt_run(s);
            }
            match e {
                Some(m) => {
                    let t = text2("atomic publish failed: ", m.as_str());
                    let d = error("IO003", t.as_str(), s.input.as_str(), None);
                    refuse_run(s, d)
                },
                None => complete_run(s),
            }
        },
    }
}

/// A build publishes only what KiCad validated: the publish action follows the report of a
/// validation with no KiCad error, and only in a run that publishes; a check never publishes.
pub proof fn law_builds_publish_only_validated_projects(s: BuildStateV, e: BuildEventV)
    requires
        build_transition(s, e).1 == BuildAction::Publish,
    ensures
        s.stage == BuildStage::Checking,
        s.publish,
        e matches BuildEventV::Checked(ds) && !has_kicad_error(ds),
{
}

/// A project with an error after loading or preparation is never staged: the run ends,
/// invalid.
pub proof fn law_projects_with_errors_are_not_staged(s: BuildStateV, ds: Seq<DiagV>, routing: bool)
    requires
        s.stage == BuildStage::Preparing,
        has_error(s.diagnostics + ds),
    ensures
        build_transition(s, BuildEventV::Prepared(ds, routing)).1 == BuildAction::Finish(ExitClass::Invalid),
{
}

/// Applying the route cache adds only the validation findings that were not there before it.
pub proof fn law_cache_adds_only_new_findings(s: BuildStateV, before: Seq<DiagV>, after: Seq<DiagV>)
    requires
        s.stage == BuildStage::Caching,
    ensures
        ({
            let r = build_transition(s, BuildEventV::CacheApplied(Ok((before, after)))).0.diagnostics;
            &&& r.len() <= s.diagnostics.len() + after.len()
            &&& r.take(s.diagnostics.len() as int) == s.diagnostics
            &&& forall|i: int| s.diagnostics.len() <= i < r.len() ==> after.contains(#[trigger] r[i]) && !before.contains(r[i])
        }),
{
    lemma_new_findings(before, after);
    let r = build_transition(s, BuildEventV::CacheApplied(Ok((before, after)))).0.diagnostics;
    assert(r == s.diagnostics + new_findings(before, after));
    assert(r.take(s.diagnostics.len() as int) =~= s.diagnostics);
    assert forall|i: int| s.diagnostics.len() <= i < r.len() implies after.contains(#[trigger] r[i]) && !before.contains(r[i]) by {
        assert(r[i] == new_findings(before, after)[i - s.diagnostics.len()]);
    }
}

proof fn lemma_new_findings(before: Seq<DiagV>, after: Seq<DiagV>)
    ensures
        new_findings(before, after).len() <= after.len(),
        forall|i: int|
            0 <= i < new_findings(before, after).len() ==> after.contains(#[trigger] new_findings(before, after)[i]) && !before.contains(
                new_findings(before, after)[i],
            ),
    decreases after.len(),
{
    if after.len() > 0 {
        let a = after.drop_last();
        lemma_new_findings(before, a);
        let n = new_findings(before, after);
        let m = new_findings(before, a);
        assert forall|i: int| 0 <= i < n.len() implies after.contains(#[trigger] n[i]) && !before.contains(n[i]) by {
            if i < m.len() {
                assert(n[i] == m[i]);
                let j = choose|j: int| 0 <= j < a.len() && a[j] == m[i];
                assert(after[j] == a[j]);
            } else {
                assert(n[i] == after.last());
                assert(after[after.len() - 1] == after.last());
            }
        }
    }
}

/// A finished run stays finished: any further report ends it, invalid, and changes nothing else.
pub proof fn law_finished_builds_stay_finished(s: BuildStateV, e: BuildEventV)
    requires
        s.stage == BuildStage::Finished,
    ensures
        build_transition(s, e) == (s, BuildAction::Finish(ExitClass::Invalid)),
{
}

/// A run keeps its kind and its input: whether it publishes never changes, so a check, which
/// starts without publishing, never reaches the publish action.
pub proof fn law_runs_keep_their_kind(s: BuildStateV, e: BuildEventV)
    ensures
        build_transition(s, e).0.publish == s.publish,
        build_transition(s, e).0.input == s.input,
        !s.publish ==> build_transition(s, e).1 != BuildAction::Publish,
{
}

/// Whether every error among `ds` is an ERC or DRC error.
pub open spec fn only_design_errors(ds: Seq<DiagV>) -> bool {
    forall|i: int| 0 <= i < ds.len() && (#[trigger] ds[i]).severity == Severity::Error ==> (ds[i].code == "ERC"@ || ds[i].code == "DRC"@)
}

/// What a run reaching a stage has seen: no error before KiCad's checks, and only ERC and DRC
/// errors while publishing.
pub open spec fn run_consistent(s: BuildStateV) -> bool {
    match s.stage {
        BuildStage::Publishing => only_design_errors(s.diagnostics),
        BuildStage::Finished => true,
        _ => !has_error(s.diagnostics),
    }
}

/// Whether event `e` answers the action of stage `stage`.
pub open spec fn answers(stage: BuildStage, e: BuildEventV) -> bool {
    match (stage, e) {
        (BuildStage::Loading, BuildEventV::Loaded(..)) => true,
        (BuildStage::Tools, BuildEventV::Tools(..)) => true,
        (BuildStage::Preparing, BuildEventV::Prepared(..)) => true,
        (BuildStage::Caching, BuildEventV::CacheApplied(..)) => true,
        (BuildStage::Staging, BuildEventV::Staged(..)) => true,
        (BuildStage::Checking, BuildEventV::Checked(..)) => true,
        (BuildStage::Publishing, BuildEventV::Published(..)) => true,
        _ => false,
    }
}

/// Whether a report is one the caller can make: a project that could not be loaded comes with
/// an error, a failed route cache is an error, and KiCad reports errors only as KiCad, ERC or
/// DRC findings.
pub open spec fn well_reported(e: BuildEventV) -> bool {
    match e {
        BuildEventV::Loaded(ds, project) => project || has_error(ds),
        BuildEventV::CacheApplied(Err(d)) => d.severity == Severity::Error,
        BuildEventV::Checked(ds) => forall|i: int|
            0 <= i < ds.len() && (#[trigger] ds[i]).severity == Severity::Error ==> ("KICAD"@.is_prefix_of(ds[i].code)
                || ds[i].code == "ERC"@ || ds[i].code == "DRC"@),
        _ => true,
    }
}

/// The exit class of a run matches its findings: it succeeds only without errors, ends with
/// design violations only when it has errors and all of them are ERC or DRC errors, and is
/// invalid only with an error. Each step of a run whose reports answer its actions keeps what
/// the run has seen consistent with its stage.
pub proof fn law_exit_class_matches_findings(s: BuildStateV, e: BuildEventV)
    requires
        s.stage != BuildStage::Finished,
        run_consistent(s),
        answers(s.stage, e),
        well_reported(e),
    ensures
        run_consistent(build_transition(s, e).0),
        build_transition(s, e).1 == BuildAction::Finish(ExitClass::Success) ==> !has_error(build_transition(s, e).0.diagnostics),
        build_transition(s, e).1 == BuildAction::Finish(ExitClass::DesignViolations) ==> has_error(
            build_transition(s, e).0.diagnostics,
        ) && only_design_errors(build_transition(s, e).0.diagnostics),
        build_transition(s, e).1 == BuildAction::Finish(ExitClass::Invalid) ==> has_error(build_transition(s, e).0.diagnostics),
{
    let r = build_transition(s, e);
    let ds2 = r.0.diagnostics;
    match e {
        BuildEventV::Loaded(ds, p) => {
            if has_error(ds) {
                let i = choose|i: int| 0 <= i < ds.len() && (#[trigger] ds[i]).severity == Severity::Error;
                assert((s.diagnostics + ds)[s.diagnostics.len() + i] == ds[i]);
            }
            if !p || has_error(s.diagnostics + ds) {
            } else {
                assert(!has_error(s.diagnostics + ds));
            }
        },
        BuildEventV::Checked(ds) => {
            let all = s.diagnostics + ds;
            assert forall|i: int| 0 <= i < all.len() && (#[trigger] all[i]).severity == Severity::Error implies ("KICAD"@.is_prefix_of(
                all[i].code,
            ) || all[i].code == "ERC"@ || all[i].code == "DRC"@) by {
                if i >= s.diagnostics.len() {
                    assert(all[i] == ds[i - s.diagnostics.len()]);
                }
            }
            if !has_kicad_error(ds) {
                assert forall|i: int| 0 <= i < all.len() && (#[trigger] all[i]).severity == Severity::Error implies (all[i].code == "ERC"@
                    || all[i].code == "DRC"@) by {
                    if i >= s.diagnostics.len() {
                        assert(all[i] == ds[i - s.diagnostics.len()]);
                    }
                }
                if has_design_error(all) {
                    let i = choose|i: int| 0 <= i < all.len() && (#[trigger] all[i]).severity == Severity::Error && (all[i].code == "ERC"@
                        || all[i].code == "DRC"@);
                    assert(all[i].severity == Severity::Error);
                } else {
                    assert forall|i: int| 0 <= i < all.len() implies (#[trigger] all[i]).severity != Severity::Error by {
                        if all[i].severity == Severity::Error {
                            assert(all[i].code == "ERC"@ || all[i].code == "DRC"@);
                        }
                    }
                }
            } else {
                let i = choose|i: int| 0 <= i < ds.len() && (#[trigger] ds[i]).severity == Severity::Error && "KICAD"@.is_prefix_of(ds[i].code);
                assert(all[s.diagnostics.len() + i] == ds[i]);
            }
        },
        BuildEventV::Published(m) => {
            if m is Some {
                assert(ds2[ds2.len() - 1].severity == Severity::Error);
            } else if has_design_error(s.diagnostics) {
                let i = choose|i: int| 0 <= i < s.diagnostics.len() && (#[trigger] s.diagnostics[i]).severity == Severity::Error && (
                s.diagnostics[i].code == "ERC"@ || s.diagnostics[i].code == "DRC"@);
                assert(s.diagnostics[i].severity == Severity::Error);
            } else {
                assert forall|i: int| 0 <= i < s.diagnostics.len() implies (#[trigger] s.diagnostics[i]).severity != Severity::Error by {
                    if s.diagnostics[i].severity == Severity::Error {
                        assert(s.diagnostics[i].code == "ERC"@ || s.diagnostics[i].code == "DRC"@);
                    }
                }
            }
        },
        BuildEventV::CacheApplied(Ok((before, after))) => {
            let all = s.diagnostics + new_findings(before, after);
            if !has_error(all) {
            }
        },
        BuildEventV::Staged(Some(f)) => {
            assert(build_stage_error(f, s.input).severity == Severity::Error);
            assert(ds2[ds2.len() - 1] == build_stage_error(f, s.input));
        },
        BuildEventV::Tools(false) => {
            assert(ds2[ds2.len() - 1].severity == Severity::Error);
        },
        BuildEventV::CacheApplied(Err(d)) => {
            assert(ds2[ds2.len() - 1] == d);
        },
        _ => {},
    }
}

} // verus!
