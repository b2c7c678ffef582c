//! Outcomes of the compiler's commands, how they map to process exit codes, which nets a
//! routing run works on, and the findings of KiCad's check reports.
use crate::diagnostic::{Diagnostic, Severity};
use crate::modules::{json_fields, json_view, json_views, Json, JsonView};
use crate::routing::{chosen, pattern_bytes, selected};
use crate::text::{decimal, lemma_views_push, views};
use vstd::prelude::*;

verus! {

/// How a command ended.
#[derive(Debug, Clone, Copy, PartialEq, Eq, Structural)]
pub enum ExitClass {
    Success,
    Invalid,
    DesignViolations,
}

impl ExitClass {
    /// The process exit code: 0 for success, 1 for invalid input, 2 for design violations.
    pub fn code(self) -> (c: i32)
        ensures
            c == match self {
                ExitClass::Success => 0i32,
                ExitClass::Invalid => 1i32,
                ExitClass::DesignViolations => 2i32,
            },
    {
        match self {
            ExitClass::Success => 0,
            ExitClass::Invalid => 1,
            ExitClass::DesignViolations => 2,
        }
    }
}

/// What a build produced.
#[derive(Debug)]
pub struct BuildOutcome {
    pub exit: ExitClass,
    pub diagnostics: Vec<Diagnostic>,
    /// The directory holding the published artifacts, when any were published.
    pub output_dir: Option<String>,
    /// The project text the diagnostics refer to.
    pub source: String,
}

/// What a routing run produced.
#[derive(Debug)]
pub struct RouteOutcome {
    pub exit: ExitClass,
    pub diagnostics: Vec<Diagnostic>,
    /// The route cache that was written, when one was.
    pub cache_file: Option<String>,
    /// The project text the diagnostics refer to.
    pub source: String,
}

/// What `check` and `build` are asked to do: the source file, the output directory (by
/// default beside the source) and the `kicad-cli` to use (by default the one found).
#[derive(Debug, Clone)]
pub struct BuildOptions {
    pub input: String,
    pub output: Option<String>,
    pub kicad_cli: Option<String>,
}

/// What `route` is asked to do: the source file, the tools to use when not the ones found,
/// and the nets or the block to route (by default the routing policy's nets).
#[derive(Debug, Clone)]
pub struct RouteOptions {
    pub input: String,
    pub kicad_cli: Option<String>,
    pub krt: Option<String>,
    pub python: Option<String>,
    pub nets: Vec<String>,
    pub block: Option<String>,
}

/// Whether any diagnostic is an error.
pub open spec fn any_error(diags: Seq<Diagnostic>) -> bool {
    exists|k: int| 0 <= k < diags.len() && #[trigger] diags[k].severity == Severity::Error
}

/// Whether any diagnostic is an error.
pub fn has_errors(diags: &[Diagnostic]) -> (r: bool)
    ensures
        r == any_error(diags@),
{
    let mut i: usize = 0;
    while i < diags.len()
        invariant
            i <= diags@.len(),
            forall|k: int| 0 <= k < i ==> #[trigger] diags@[k].severity != Severity::Error,
        decreases diags.len() - i,
    {
        if diags[i].severity == Severity::Error {
            return true;
        }
        i += 1;
    }
    false
}

/// A build stopped by invalid input: nothing was published.
pub fn invalid(diagnostics: Vec<Diagnostic>, source: String) -> (o: BuildOutcome)
    ensures
        o.exit == ExitClass::Invalid,
        o.diagnostics@ == diagnostics@,
        o.output_dir is None,
        o.source@ == source@,
{
    BuildOutcome { exit: ExitClass::Invalid, diagnostics, output_dir: None, source }
}

/// A routing run stopped by invalid input: no cache was written.
pub fn invalid_route(diagnostics: Vec<Diagnostic>, source: String) -> (o: RouteOutcome)
    ensures
        o.exit == ExitClass::Invalid,
        o.diagnostics@ == diagnostics@,
        o.cache_file is None,
        o.source@ == source@,
{
    RouteOutcome { exit: ExitClass::Invalid, diagnostics, cache_file: None, source }
}

} // verus!

verus! {

/// The nets of the first block with id `id` at or after `from`.
pub open spec fn block_nets(blocks: Seq<(String, Vec<String>)>, id: Seq<char>, from: int) -> Option<Seq<Seq<char>>>
    decreases blocks.len() - from,
{
    if from < 0 || from >= blocks.len() {
        None
    } else if blocks[from].0@ == id {
        Some(views(blocks[from].1@))
    } else {
        block_nets(blocks, id, from + 1)
    }
}

/// Net names as root names `/NAME`.
pub open spec fn rooted(nets: Seq<Seq<char>>) -> Seq<Seq<char>> {
    nets.map_values(|n: Seq<char>| seq!['/'] + n)
}

/// The net patterns a routing run works on: those requested, else the nets of the requested
/// block as root names, else the routing policy's; `None` for a block that does not exist.
pub open spec fn selection(
    requested: Seq<Seq<char>>,
    block: Option<Seq<char>>,
    blocks: Seq<(String, Vec<String>)>,
    policy: Seq<Seq<char>>,
) -> Option<Seq<Seq<char>>> {
    if requested.len() > 0 {
        Some(requested)
    } else {
        match block {
            Some(id) => match block_nets(blocks, id, 0) {
                Some(nets) => Some(rooted(nets)),
                None => None,
            },
            None => Some(policy),
        }
    }
}

/// Whether the patterns choose some net of the project.
pub open spec fn selects_some(patterns: Seq<Seq<char>>, nets: Seq<Seq<char>>) -> bool {
    exists|i: int| 0 <= i < nets.len() && chosen(patterns.map_values(|p: Seq<char>| vstd::utf8::encode_utf8(p)), #[trigger] nets[i])
}

/// Chooses the nets of a routing run (see `selection`) and checks that they match some net of
/// the project: ROUTE017 names a block that does not exist, ROUTE018 a selection that matches
/// no net.
pub fn route_selection(
    options: &RouteOptions,
    blocks: &Vec<(String, Vec<String>)>,
    policy: &crate::model::RoutingPolicy,
    nets: &Vec<String>,
) -> (r: Result<Vec<String>, Diagnostic>)
    ensures
        match selection(
            views(options.nets@),
            match options.block {
                Some(b) => Some(b@),
                None => None,
            },
            blocks@,
            views(policy.nets@),
        ) {
            None => r matches Err(d) && d.severity == Severity::Error && d.code@ == "ROUTE017"@ && d.message@ == "unknown block '"@
                + options.block.unwrap()@ + "'"@ && d.file@ == options.input@ && d.help.is_some() && d.help.unwrap()@
                == "run 'kil inspect FILE' to list block ids"@,
            Some(sel) => if selects_some(sel, views(nets@)) {
                r matches Ok(v) && views(v@) == sel
            } else {
                r matches Err(d) && d.severity == Severity::Error && d.code@ == "ROUTE018"@ && d.message@
                    == "net selection matches no nets"@ && d.file@ == options.input@ && d.help is None
            },
        },
{
    let requested = &options.nets;
    let block: Option<&str> = match &options.block {
        Some(b) => Some(b.as_str()),
        None => None,
    };
    let file = options.input.as_str();
    let policy_nets = &policy.nets;
    let sel: Vec<String> = if requested.len() > 0 {
        crate::rules::copy_strings(requested)
    } else {
        match block {
            Some(id) => {
                let mut found: Option<usize> = None;
                let mut i: usize = 0;
                while i < blocks.len()
                    invariant_except_break
                        found is None,
                    invariant
                        i <= blocks@.len(),
                        block_nets(blocks@, id@, 0) == block_nets(blocks@, id@, i as int),
                    ensures
                        match found {
                            Some(k) => k < blocks@.len() && block_nets(blocks@, id@, 0) == Some(views(blocks@[k as int].1@)),
                            None => block_nets(blocks@, id@, 0) is None,
                        },
                    decreases blocks.len() - i,
                {
                    if crate::text::same_text(blocks[i].0.as_str(), id) {
                        found = Some(i);
                        break;
                    }
                    i += 1;
                }
                match found {
                    None => {
                        let message = crate::text::text3("unknown block '", id, "'");
                        return Err(
                            Diagnostic::error("ROUTE017", message.as_str(), file).with_help("run 'kil inspect FILE' to list block ids"),
                        );
                    },
                    Some(k) => {
                        let names = &blocks[k].1;
                        let mut out: Vec<String> = Vec::new();
                        let mut j: usize = 0;
                        while j < names.len()
                            invariant
                                j <= names@.len(),
                                views(out@) == rooted(views(names@)).take(j as int),
                            decreases names.len() - j,
                        {
                            let name = crate::text::text2("/", names[j].as_str());
                            let ghost before = out@;
                            out.push(name);
                            proof {
                                reveal_strlit("/");
                                assert("/"@ =~= seq!['/']);
                                assert(views(names@)[j as int] == names@[j as int]@);
                                assert(rooted(views(names@))[j as int] == seq!['/'] + names@[j as int]@);
                                lemma_views_push(before, out@.last());
                                assert(rooted(views(names@)).take(j + 1) =~= rooted(views(names@)).take(j as int).push(
                                    seq!['/'] + names@[j as int]@,
                                ));
                            }
                            j += 1;
                        }
                        assert(rooted(views(names@)).take(names@.len() as int) =~= rooted(views(names@)));
                        out
                    },
                }
            },
            None => crate::rules::copy_strings(policy_nets),
        }
    };
    let ghost gb: Option<Seq<char>> = if options.block is Some {
        Some(options.block.unwrap()@)
    } else {
        None
    };
    assert(selection(views(options.nets@), gb, blocks@, views(policy.nets@)) == Some(views(sel@)));
    assert(pattern_bytes(sel@) =~= views(sel@).map_values(|p: Seq<char>| vstd::utf8::encode_utf8(p)));
    let mut i: usize = 0;
    while i < nets.len()
        invariant
            i <= nets@.len(),
            selection(views(options.nets@), gb, blocks@, views(policy.nets@)) == Some(views(sel@)),
            gb == (if options.block is Some {
                Some(options.block.unwrap()@)
            } else {
                None
            }),
            pattern_bytes(sel@) == views(sel@).map_values(|p: Seq<char>| vstd::utf8::encode_utf8(p)),
            forall|k: int| 0 <= k < i ==> !chosen(pattern_bytes(sel@), #[trigger] views(nets@)[k]),
        decreases nets.len() - i,
    {
        if selected(sel.as_slice(), nets[i].as_str()) {
            assert(chosen(pattern_bytes(sel@), views(nets@)[i as int]));
            return Ok(sel);
        }
        i += 1;
    }
    Err(Diagnostic::error("ROUTE018", "net selection matches no nets", options.input.as_str()))
}

} // verus!

verus! {

/// Whether a diagnostic is a design violation that still leaves readable output: an ERC or
/// DRC error, or for a routing run also a ROUTER error.
pub open spec fn design_violation(d: Diagnostic, routing: bool) -> bool {
    d.severity == Severity::Error && (d.code@ == "ERC"@ || d.code@ == "DRC"@ || (routing && d.code@ == "ROUTER"@))
}

/// How a command that got through to the end exits: with design violations when some error is
/// one, else successfully.
pub fn completed_exit(diags: &Vec<Diagnostic>, routing: bool) -> (e: ExitClass)
    ensures
        e == if exists|i: int| 0 <= i < diags@.len() && design_violation(#[trigger] diags@[i], routing) {
            ExitClass::DesignViolations
        } else {
            ExitClass::Success
        },
{
    let mut i: usize = 0;
    while i < diags.len()
        invariant
            i <= diags@.len(),
            forall|k: int| 0 <= k < i ==> !design_violation(#[trigger] diags@[k], routing),
        decreases diags.len() - i,
    {
        let d = &diags[i];
        if d.severity == Severity::Error {
            let c = d.code.as_str();
            if crate::text::same_text(c, "ERC") || crate::text::same_text(c, "DRC") || (routing && crate::text::same_text(c, "ROUTER")) {
                assert(design_violation(diags@[i as int], routing));
                return ExitClass::DesignViolations;
            }
        }
        i += 1;
    }
    ExitClass::Success
}

/// Whether KiCad's own checks failed structurally: some error has a code beginning `KICAD`.
pub open spec fn structural_failure(diags: Seq<Diagnostic>) -> bool {
    exists|i: int| 0 <= i < diags.len() && diags[i].severity == Severity::Error && "KICAD"@.is_prefix_of(#[trigger] diags[i].code@)
}

/// Whether KiCad's own checks failed structurally (see `structural_failure`).
pub fn kicad_failed(diags: &Vec<Diagnostic>) -> (r: bool)
    ensures
        r == structural_failure(diags@),
{
    let prefix = crate::text::chars_of("KICAD");
    let mut i: usize = 0;
    while i < diags.len()
        invariant
            i <= diags@.len(),
            prefix@ == "KICAD"@,
            forall|k: int| 0 <= k < i ==> !(diags@[k].severity == Severity::Error && "KICAD"@.is_prefix_of(#[trigger] diags@[k].code@)),
        decreases diags.len() - i,
    {
        let d = &diags[i];
        if d.severity == Severity::Error {
            let c = crate::text::chars_of(d.code.as_str());
            if crate::library::has_prefix(&c, &prefix) {
                return true;
            }
        }
        i += 1;
    }
    false
}

} // verus!

verus! {

/// A finding of a KiCad check report: whether it is an error, and its message.
pub struct KicadFinding {
    pub error: bool,
    pub message: Seq<char>,
}

/// The value of the first member named `key` at or after `from`.
pub open spec fn member(o: Seq<(Seq<char>, JsonView)>, key: Seq<char>, from: int) -> Option<JsonView>
    decreases o.len() - from,
{
    if from < 0 || from >= o.len() {
        None
    } else if o[from].0 == key {
        Some(o[from].1)
    } else {
        member(o, key, from + 1)
    }
}

/// The text of a value, if it is a string.
pub open spec fn text_value(v: Option<JsonView>) -> Option<Seq<char>> {
    match v {
        Some(JsonView::Text(s)) => Some(s),
        _ => None,
    }
}

/// A character in ASCII lower case.
pub open spec fn lower_char(c: char) -> char {
    if 'A' <= c <= 'Z' {
        ((c as u32) + 32) as char
    } else {
        c
    }
}

/// A text in ASCII lower case.
pub open spec fn ascii_lower(s: Seq<char>) -> Seq<char> {
    s.map_values(|c: char| lower_char(c))
}

/// Whether `t` occurs in `s`.
pub open spec fn occurs_in(t: Seq<char>, s: Seq<char>) -> bool {
    exists|i: int| 0 <= i && i + t.len() <= s.len() && #[trigger] s.subrange(i, i + t.len()) == t
}

/// Whether a report object is a violation: it has a severity and a description or message.
pub open spec fn is_violation(o: Seq<(Seq<char>, JsonView)>) -> bool {
    member(o, "severity"@, 0) is Some && (member(o, "description"@, 0) is Some || member(o, "message"@, 0) is Some)
}

/// The finding a violation object reports: an error when its severity mentions `error` in
/// any case; the message is its type (or the report's code) and its description (or message).
pub open spec fn finding_of(o: Seq<(Seq<char>, JsonView)>, code: Seq<char>) -> KicadFinding {
    let severity = match text_value(member(o, "severity"@, 0)) {
        Some(s) => s,
        None => "warning"@,
    };
    let text = if member(o, "description"@, 0) is Some {
        member(o, "description"@, 0)
    } else {
        member(o, "message"@, 0)
    };
    let message = match text_value(text) {
        Some(s) => s,
        None => "KiCad violation"@,
    };
    let kind = match text_value(member(o, "type"@, 0)) {
        Some(s) => s,
        None => code,
    };
    KicadFinding { error: occurs_in("error"@, ascii_lower(severity)), message: kind + ": "@ + message }
}

/// The violations a report value holds, in document order: a violation object is one, other
/// objects and arrays hold those of their values.
pub open spec fn violations(v: JsonView, code: Seq<char>) -> Seq<KicadFinding>
    decreases v,
{
    match v {
        JsonView::Array(a) => violations_all(a, code),
        JsonView::Object(o) => if is_violation(o) {
            seq![finding_of(o, code)]
        } else {
            violations_in(o, code)
        },
        _ => Seq::empty(),
    }
}

/// The violations of the elements of an array.
pub open spec fn violations_all(a: Seq<JsonView>, code: Seq<char>) -> Seq<KicadFinding>
    decreases a,
{
    if a.len() == 0 {
        Seq::empty()
    } else {
        violations_all(a.drop_last(), code) + violations(a.last(), code)
    }
}

/// The violations of the member values of an object.
pub open spec fn violations_in(o: Seq<(Seq<char>, JsonView)>, code: Seq<char>) -> Seq<KicadFinding>
    decreases o,
{
    if o.len() == 0 {
        Seq::empty()
    } else {
        violations_in(o.drop_last(), code) + violations(o.last().1, code)
    }
}

/// What the diagnostic of a KiCad finding suggests.
pub open spec fn report_help() -> Seq<char> {
    "fix the IL source and rebuild; generated KiCad files are not authoritative"@
}

/// Whether `d` reports finding `f` of a `code` report about `file`.
pub open spec fn shows_finding(d: Diagnostic, f: KicadFinding, code: Seq<char>, file: Seq<char>) -> bool {
    &&& d.severity == (if f.error {
        Severity::Error
    } else {
        Severity::Warning
    })
    &&& d.code@ == code
    &&& d.message@ == f.message
    &&& d.file@ == file
    &&& d.span is None
    &&& d.path is None
    &&& d.related@.len() == 0
    &&& d.help.is_some() && d.help.unwrap()@ == report_help()
}

/// Whether `ds`, from position `start` on, report the findings `fs` in order.
pub open spec fn reports_findings(ds: Seq<Diagnostic>, start: int, fs: Seq<KicadFinding>, code: Seq<char>, file: Seq<char>) -> bool {
    &&& ds.len() == start + fs.len()
    &&& forall|k: int| 0 <= k < fs.len() ==> shows_finding(#[trigger] ds[start + k], fs[k], code, file)
}

/// The value of the first member named `key`.
fn member_of<'a>(o: &'a Vec<(String, Json)>, key: &str) -> (r: Option<&'a Json>)
    ensures
        match member(json_fields(o@), key@, 0) {
            Some(v) => r matches Some(j) && json_view(*j) == v,
            None => r is None,
        },
{
    proof {
        crate::modules::lemma_json_fields_len(o@);
    }
    let mut i: usize = 0;
    while i < o.len()
        invariant
            i <= o@.len(),
            json_fields(o@).len() == o@.len(),
            member(json_fields(o@), key@, 0) == member(json_fields(o@), key@, i as int),
        decreases o.len() - i,
    {
        proof {
            crate::modules::lemma_json_fields_index(o@, i as int);
        }
        if crate::text::same_text(o[i].0.as_str(), key) {
            return Some(&o[i].1);
        }
        i += 1;
    }
    None
}

/// The text of a value, if it is a string.
fn text_in(v: Option<&Json>) -> (r: Option<&String>)
    ensures
        text_value(
            match v {
                Some(j) => Some(json_view(*j)),
                None => None,
            },
        ) == match r {
            Some(s) => Some(s@),
            None => None::<Seq<char>>,
        },
{
    match v {
        Some(Json::Text(s)) => Some(s),
        _ => None,
    }
}

/// Whether `t` occurs in the ASCII lower-case form of `s`.
fn occurs_lowered(t: &str, s: &str) -> (r: bool)
    requires
        t@.len() > 0,
    ensures
        r == occurs_in(t@, ascii_lower(s@)),
{
    let c = crate::text::chars_of(s);
    let tc = crate::text::chars_of(t);
    let mut lower: Vec<char> = Vec::new();
    let mut i: usize = 0;
    while i < c.len()
        invariant
            i <= c@.len(),
            c@ == s@,
            lower@ == ascii_lower(s@).take(i as int),
        decreases c.len() - i,
    {
        let x = c[i];
        let y = if 'A' <= x && x <= 'Z' {
            let code: u32 = x as u32;
            assert(code <= 90) by {
                vstd::utf8::char_u32_cast(x, code);
            }
            let low: u8 = (code + 32) as u8;
            low as char
        } else {
            x
        };
        assert(y == lower_char(x)) by {
            if 'A' <= x && x <= 'Z' {
                vstd::utf8::char_u32_cast(x, x as u32);
            }
        }
        lower.push(y);
        assert(ascii_lower(s@).take(i + 1) =~= ascii_lower(s@).take(i as int).push(lower_char(x)));
        i += 1;
    }
    assert(ascii_lower(s@).take(c@.len() as int) =~= ascii_lower(s@));
    if tc.len() > lower.len() {
        return false;
    }
    let limit: usize = lower.len() - tc.len();
    let mut start: usize = 0;
    while start <= limit
        invariant
            tc@ == t@,
            lower@ == ascii_lower(s@),
            tc@.len() <= lower@.len(),
            limit == lower@.len() - tc@.len(),
            limit + tc@.len() == lower.len(),
            tc@.len() > 0,
            start <= limit + 1,
            forall|q: int| 0 <= q < start ==> #[trigger] lower@.subrange(q, q + tc@.len()) != tc@,
        decreases limit + 1 - start,
    {
        let mut k: usize = 0;
        let mut same = true;
        while k < tc.len()
            invariant
                k <= tc@.len(),
                start <= limit,
                limit == lower@.len() - tc@.len(),
                limit + tc@.len() == lower.len(),
                tc@.len() <= lower@.len(),
                same == forall|q: int| 0 <= q < k ==> lower@[start + q] == tc@[q],
            decreases tc.len() - k,
        {
            let idx: usize = start + k;
            if lower[idx] != tc[k] {
                same = false;
            }
            k += 1;
        }
        if same {
            assert(lower@.subrange(start as int, start + tc@.len()) =~= tc@);
            return true;
        }
        assert(lower@.subrange(start as int, start + tc@.len()) != tc@) by {
            let q = choose|q: int| 0 <= q < tc@.len() && lower@[start + q] != tc@[q];
            assert(lower@.subrange(start as int, start + tc@.len())[q] == lower@[start + q]);
        }
        start += 1;
    }
    false
}

} // verus!

verus! {

/// The diagnostic of a violation object.
fn violation_diagnostic(o: &Vec<(String, Json)>, file: &str, code: &str) -> (d: Diagnostic)
    ensures
        shows_finding(d, finding_of(json_fields(o@), code@), code@, file@),
{
    let severity = match text_in(member_of(o, "severity")) {
        Some(s) => s.as_str(),
        None => "warning",
    };
    proof {
        reveal_strlit("error");
    }
    let error = occurs_lowered("error", severity);
    let described = member_of(o, "description");
    let text = if described.is_some() {
        described
    } else {
        member_of(o, "message")
    };
    let message = match text_in(text) {
        Some(s) => s.as_str(),
        None => "KiCad violation",
    };
    let kind = match text_in(member_of(o, "type")) {
        Some(s) => s.as_str(),
        None => code,
    };
    let full = crate::text::text3(kind, ": ", message);
    let d = if error {
        Diagnostic::error(code, full.as_str(), file)
    } else {
        Diagnostic::warning(code, full.as_str(), file)
    };
    d.with_help("fix the IL source and rebuild; generated KiCad files are not authoritative")
}

proof fn lemma_findings_concat(
    ds: Seq<Diagnostic>,
    mid: Seq<Diagnostic>,
    start: int,
    a: Seq<KicadFinding>,
    b: Seq<KicadFinding>,
    code: Seq<char>,
    file: Seq<char>,
)
    requires
        0 <= start,
        reports_findings(mid, start, a, code, file),
        ds.take(start + a.len()) == mid,
        reports_findings(ds, start + a.len(), b, code, file),
    ensures
        reports_findings(ds, start, a + b, code, file),
{
    assert forall|k: int| 0 <= k < (a + b).len() implies shows_finding(#[trigger] ds[start + k], (a + b)[k], code, file) by {
        if k < a.len() {
            assert(ds[start + k] == mid[start + k]);
            assert(shows_finding(mid[start + k], a[k], code, file));
        } else {
            let j = k - a.len();
            assert(shows_finding(ds[start + a.len() + j], b[j], code, file));
        }
    }
}

/// Appends the diagnostics of the violations a KiCad report value holds (see `violations`).
pub fn collect_violations(value: &Json, file: &str, code: &str, out: &mut Vec<Diagnostic>)
    ensures
        final(out)@.take(old(out)@.len() as int) == old(out)@,
        reports_findings(final(out)@, old(out)@.len() as int, violations(json_view(*value), code@), code@, file@),
    decreases value,
{
    let ghost start = out@.len() as int;
    let ghost initial = out@;
    match value {
        Json::Array(a) => {
            let ghost v = json_views(a@);
            proof {
                crate::modules::lemma_json_views_len(a@);
                assert(out@.take(start) =~= initial);
                assert(violations_all(v.take(0), code@) =~= Seq::<KicadFinding>::empty());
            }
            let mut i: usize = 0;
            while i < a.len()
                invariant
                    i <= a@.len(),
                    *value == Json::Array(*a),
                    v == json_views(a@),
                    v.len() == a@.len(),
                    start == initial.len(),
                    out@.take(start) == initial,
                    reports_findings(out@, start, violations_all(v.take(i as int), code@), code@, file@),
                decreases a.len() - i,
            {
                proof {
                    assert(decreases_to!(*value => (*value)->Array_0));
                    assert(decreases_to!(*a => a@));
                    assert(decreases_to!(a@ => a@[i as int]));
                    crate::modules::lemma_json_views_index(a@, i as int);
                    assert(v.take(i + 1).drop_last() =~= v.take(i as int));
                    assert(v.take(i + 1).last() == json_view(a@[i as int]));
                }
                let ghost mid = out@;
                collect_violations(&a[i], file, code, out);
                proof {
                    lemma_findings_concat(
                        out@,
                        mid,
                        start,
                        violations_all(v.take(i as int), code@),
                        violations(json_view(a@[i as int]), code@),
                        code@,
                        file@,
                    );
                    assert(out@.take(start) =~= mid.take(start));
                }
                i += 1;
            }
            assert(v.take(a@.len() as int) =~= v);
        },
        Json::Object(o) => {
            let ghost f = json_fields(o@);
            proof {
                crate::modules::lemma_json_fields_len(o@);
            }
            let severity = member_of(o, "severity");
            let has_text = member_of(o, "description").is_some() || member_of(o, "message").is_some();
            if severity.is_some() && has_text {
                let d = violation_diagnostic(o, file, code);
                out.push(d);
                proof {
                    assert(out@.take(start) =~= initial);
                    assert(out@[start + 0] == d);
                }
            } else {
                proof {
                    assert(out@.take(start) =~= initial);
                    assert(violations_in(f.take(0), code@) =~= Seq::<KicadFinding>::empty());
                }
                let mut i: usize = 0;
                while i < o.len()
                    invariant
                        i <= o@.len(),
                        *value == Json::Object(*o),
                        f == json_fields(o@),
                        f.len() == o@.len(),
                        start == initial.len(),
                        out@.take(start) == initial,
                        reports_findings(out@, start, violations_in(f.take(i as int), code@), code@, file@),
                    decreases o.len() - i,
                {
                    proof {
                        assert(decreases_to!(*value => (*value)->Object_0));
                        assert(decreases_to!(*o => o@));
                        assert(decreases_to!(o@ => o@[i as int]));
                        assert(decreases_to!(o@[i as int] => o@[i as int].1));
                        crate::modules::lemma_json_fields_index(o@, i as int);
                        assert(f.take(i + 1).drop_last() =~= f.take(i as int));
                        assert(f.take(i + 1).last().1 == json_view(o@[i as int].1));
                    }
                    let ghost mid = out@;
                    collect_violations(&o[i].1, file, code, out);
                    proof {
                        lemma_findings_concat(
                            out@,
                            mid,
                            start,
                            violations_in(f.take(i as int), code@),
                            violations(json_view(o@[i as int].1), code@),
                            code@,
                            file@,
                        );
                        assert(out@.take(start) =~= mid.take(start));
                    }
                    i += 1;
                }
                assert(f.take(o@.len() as int) =~= f);
            }
        },
        _ => {
            proof {
                assert(out@.take(start) =~= initial);
            }
        },
    }
}

/// Whether a KiCad report has the shape of a check report: an object with an array of
/// violations or of sheets.
pub open spec fn report_shaped(v: JsonView) -> bool {
    match v {
        JsonView::Object(o) => (member(o, "violations"@, 0) matches Some(x) && x is Array) || (member(
            o,
            "sheets"@,
            0,
        ) matches Some(y) && y is Array),
        _ => false,
    }
}

/// The diagnostics of a parsed `code` report (ERC or DRC) about `file`: KICAD007 for a report
/// without the expected structure, else one diagnostic per violation.
pub fn report_diagnostics(value: &Json, file: &str, code: &str) -> (r: Vec<Diagnostic>)
    ensures
        !report_shaped(json_view(*value)) ==> r@.len() == 1 && r@[0].severity == Severity::Error && r@[0].code@
            == "KICAD007"@ && r@[0].message@ == "unrecognized "@ + code@ + " report structure"@ && r@[0].file@ == file@,
        report_shaped(json_view(*value)) ==> reports_findings(r@, 0, violations(json_view(*value), code@), code@, file@),
{
    let shaped = match value {
        Json::Object(o) => {
            let violations = match member_of(o, "violations") {
                Some(Json::Array(_)) => true,
                _ => false,
            };
            let sheets = match member_of(o, "sheets") {
                Some(Json::Array(_)) => true,
                _ => false,
            };
            violations || sheets
        },
        _ => false,
    };
    let mut out: Vec<Diagnostic> = Vec::new();
    if !shaped {
        let message = crate::text::text3("unrecognized ", code, " report structure");
        out.push(Diagnostic::error("KICAD007", message.as_str(), file));
        return out;
    }
    collect_violations(value, file, code, &mut out);
    out
}

} // verus!

verus! {

/// The JSON text a line of router output carries after a completion-summary marker.
pub open spec fn summary_text(line: Seq<char>) -> Option<Seq<char>> {
    if "JSON_SUMMARY_MIN: "@.is_prefix_of(line) {
        Some(line.skip(18))
    } else if "JSON_SUMMARY: "@.is_prefix_of(line) {
        Some(line.skip(14))
    } else {
        None
    }
}

/// The summary texts of the first `n` lines of router output, in line order.
pub open spec fn summaries_upto(s: Seq<char>, n: nat) -> Seq<Seq<char>>
    decreases n,
{
    if n == 0 {
        Seq::empty()
    } else {
        let prev = summaries_upto(s, (n - 1) as nat);
        match crate::text::nth_line(s, (n - 1) as nat) {
            Some(l) => match summary_text(l) {
                Some(t) => prev.push(t),
                None => prev,
            },
            None => prev,
        }
    }
}

proof fn lemma_summaries_stop(s: Seq<char>, k: nat, n: nat)
    requires
        k <= n,
        crate::text::line_start(s, k) >= s.len(),
    ensures
        summaries_upto(s, n) == summaries_upto(s, k),
    decreases n - k,
{
    if k < n {
        lemma_summaries_stop(s, k, (n - 1) as nat);
        crate::text::lemma_line_start_past_end(s, k, (n - 1) as nat);
    }
}

/// Whether `p` starts the characters `c` from position `from` on.
fn starts_at(c: &Vec<char>, from: usize, to: usize, p: &str) -> (r: bool)
    requires
        from <= to <= c@.len(),
    ensures
        r == p@.is_prefix_of(c@.subrange(from as int, to as int)),
{
    let pc = crate::text::chars_of(p);
    if pc.len() > to - from {
        return false;
    }
    let mut i: usize = 0;
    while i < pc.len()
        invariant
            i <= pc@.len(),
            pc@ == p@,
            from + pc@.len() <= to <= c@.len(),
            forall|k: int| 0 <= k < i ==> pc@[k] == c@[from + k],
        decreases pc.len() - i,
    {
        if pc[i] != c[from + i] {
            assert(p@ != c@.subrange(from as int, to as int).subrange(0, p@.len() as int)) by {
                assert(c@.subrange(from as int, to as int).subrange(0, p@.len() as int)[i as int] == c@[from + i]);
            }
            return false;
        }
        i += 1;
    }
    assert(p@ =~= c@.subrange(from as int, to as int).subrange(0, p@.len() as int));
    true
}

/// The completion-summary texts of router output (see `summary_text`), in line order; the
/// last of them that parses is the run's summary.
pub fn summary_candidates(stdout: &str) -> (r: Vec<String>)
    ensures
        views(r@) == summaries_upto(stdout@, (stdout@.len() + 1) as nat),
{
    let c = crate::text::chars_of(stdout);
    let ghost s = c@;
    let mut out: Vec<String> = Vec::new();
    let mut st: usize = 0;
    let mut k: usize = 0;
    proof {
        assert(views(out@) =~= Seq::<Seq<char>>::empty());
    }
    while st < c.len()
        invariant
            s == c@,
            s == stdout@,
            st <= c@.len(),
            st as int == crate::text::line_start(s, k as nat) || (st as int == s.len() && crate::text::line_start(s, k as nat)
                > s.len()),
            k <= st,
            views(out@) == summaries_upto(s, k as nat),
        decreases c.len() - st,
    {
        let e = crate::text::find_newline(c.as_slice(), st);
        proof {
            crate::text::lemma_next_newline_bounds(s, st as int);
        }
        let mut end = e;
        if e < c.len() && e > st && c[e - 1] == '\r' {
            end = e - 1;
        }
        let ghost line = crate::text::strip_line_end(s.subrange(st as int, e as int), e < s.len());
        proof {
            if e < s.len() && e > st && s[e - 1] == '\r' {
                assert(line =~= s.subrange(st as int, end as int));
            } else {
                assert(line =~= s.subrange(st as int, end as int));
            }
            assert(crate::text::nth_line(s, k as nat) == Some(line));
        }
        let ghost before = out@;
        if starts_at(&c, st, end, "JSON_SUMMARY_MIN: ") {
            proof {
                reveal_strlit("JSON_SUMMARY_MIN: ");
            }
            let t = crate::text::string_of_range(c.as_slice(), st + 18, end);
            assert(t@ =~= line.skip(18));
            out.push(t);
            proof {
                crate::text::lemma_views_push(before, out@.last());
            }
        } else if starts_at(&c, st, end, "JSON_SUMMARY: ") {
            proof {
                reveal_strlit("JSON_SUMMARY: ");
            }
            let t = crate::text::string_of_range(c.as_slice(), st + 14, end);
            assert(t@ =~= line.skip(14));
            out.push(t);
            proof {
                crate::text::lemma_views_push(before, out@.last());
            }
        }
        st = if e < c.len() {
            e + 1
        } else {
            c.len()
        };
        k += 1;
    }
    proof {
        crate::text::lemma_line_start_nonneg(s, k as nat);
        lemma_summaries_stop(s, k as nat, (s.len() + 1) as nat);
    }
    out
}

/// The value of a JSON number text that `serde_json` holds as an unsigned integer: nonempty
/// ASCII digits of a value that fits in 64 bits.
pub open spec fn json_u64(t: Seq<char>) -> Option<u64> {
    match crate::text::magnitude(t) {
        Some(v) => if v <= u64::MAX {
            Some(v as u64)
        } else {
            None
        },
        None => None,
    }
}

/// A count in a router summary: an unsigned integer value, else zero.
pub open spec fn count_in(v: Option<JsonView>) -> u64 {
    match v {
        Some(JsonView::Number(t)) => match json_u64(t) {
            Some(n) => n,
            None => 0,
        },
        _ => 0,
    }
}

/// The value of member `key` of an object value.
pub open spec fn field(v: JsonView, key: Seq<char>) -> Option<JsonView> {
    match v {
        JsonView::Object(o) => member(o, key, 0),
        _ => None,
    }
}

/// The value at `/pad_pairs_open/count` of a summary.
pub open spec fn open_pairs(v: JsonView) -> Option<JsonView> {
    match field(v, "pad_pairs_open"@) {
        Some(p) => field(p, "count"@),
        None => None,
    }
}

/// The unsigned integer a number text holds (see `json_u64`).
fn number_u64(t: &str) -> (r: Option<u64>)
    ensures
        r == json_u64(t@),
{
    let c = crate::text::chars_of(t);
    if c.len() == 0 {
        return None;
    }
    let mut value: u128 = 0;
    let mut i: usize = 0;
    while i < c.len()
        invariant
            i <= c@.len(),
            c@ == t@,
            c@.len() > 0,
            forall|k: int| 0 <= k < i ==> '0' <= #[trigger] c@[k] <= '9',
            value as nat == crate::text::digit_chars_value(c@.take(i as int)),
            value <= u64::MAX,
        decreases c.len() - i,
    {
        let x = c[i];
        if !('0' <= x && x <= '9') {
            return None;
        }
        assert(c@.take(i + 1).drop_last() =~= c@.take(i as int));
        let digit: u128 = (x as u32 - 48) as u128;
        assert(value * 10 + digit <= 0xffff_ffff_ffff_ffff * 10 + 9) by (nonlinear_arith)
            requires
                value <= 0xffff_ffff_ffff_ffff,
                digit <= 9,
        ;
        let next: u128 = value * 10 + digit;
        if next > 0xffff_ffff_ffff_ffff {
            assert(crate::text::all_digit_chars(c@) ==> crate::text::digit_chars_value(c@) > u64::MAX) by {
                if crate::text::all_digit_chars(c@) {
                    crate::text::lemma_digit_value_grows(c@, i + 1, c@.len() as int);
                    assert(c@.take(c@.len() as int) =~= c@);
                }
            }
            return None;
        }
        value = next;
        i += 1;
    }
    assert(c@.take(c@.len() as int) =~= c@);
    Some(value as u64)
}

/// A count of a router summary value (see `count_in`).
fn count_of(v: Option<&Json>) -> (r: u64)
    ensures
        r == count_in(
            match v {
                Some(j) => Some(json_view(*j)),
                None => None,
            },
        ),
{
    match v {
        Some(Json::Number(t)) => match number_u64(t.as_str()) {
            Some(n) => n,
            None => 0,
        },
        _ => 0,
    }
}

/// The value of member `key` of an object.
fn field_of<'a>(v: &'a Json, key: &str) -> (r: Option<&'a Json>)
    ensures
        match field(json_view(*v), key@) {
            Some(x) => r matches Some(j) && json_view(*j) == x,
            None => r is None,
        },
{
    match v {
        Json::Object(o) => member_of(o, key),
        _ => None,
    }
}

/// The diagnostics of a routing run's completion summary: ROUTE016 when there is none;
/// ROUTER with the failed, open and multipoint counts when any of them is not zero.
pub fn summary_diagnostics(summary: Option<&Json>, file: &str) -> (r: Vec<Diagnostic>)
    ensures
        match summary {
            None => r@.len() == 1 && r@[0].severity == Severity::Warning && r@[0].code@ == "ROUTE016"@ && r@[0].message@
                == "router emitted no JSON completion summary"@ && r@[0].file@ == file@,
            Some(v) => {
                let f = count_in(field(json_view(*v), "failed"@));
                let o = count_in(open_pairs(json_view(*v)));
                let m = count_in(field(json_view(*v), "multipoint_deficit"@));
                if f == 0 && o == 0 && m == 0 {
                    r@.len() == 0
                } else {
                    &&& r@.len() == 1
                    &&& r@[0].severity == Severity::Error
                    &&& r@[0].code@ == "ROUTER"@
                    &&& r@[0].message@ == "KiCadRoutingTools produced a partial route: failed="@ + decimal(f as nat)
                        + ", open_pad_pairs="@ + decimal(o as nat) + ", multipoint_deficit="@ + decimal(m as nat)
                    &&& r@[0].file@ == file@
                    &&& r@[0].help.is_some()
                    &&& r@[0].help.unwrap()@
                        == "the partial cache is preserved for inspection; adjust placement or routing options and rerun"@
                }
            },
        },
{
    let mut out: Vec<Diagnostic> = Vec::new();
    match summary {
        None => {
            out.push(Diagnostic::warning("ROUTE016", "router emitted no JSON completion summary", file));
        },
        Some(v) => {
            let failed = count_of(field_of(v, "failed"));
            let open = count_of(
                match field_of(v, "pad_pairs_open") {
                    Some(p) => field_of(p, "count"),
                    None => None,
                },
            );
            let deficit = count_of(field_of(v, "multipoint_deficit"));
            if failed != 0 || open != 0 || deficit != 0 {
                let mut m = String::new();
                m.append("KiCadRoutingTools produced a partial route: failed=");
                crate::text::push_decimal_wide(&mut m, failed);
                m.append(", open_pad_pairs=");
                crate::text::push_decimal_wide(&mut m, open);
                m.append(", multipoint_deficit=");
                crate::text::push_decimal_wide(&mut m, deficit);
                let d = Diagnostic::error("ROUTER", m.as_str(), file).with_help(
                    "the partial cache is preserved for inspection; adjust placement or routing options and rerun",
                );
                out.push(d);
            }
        },
    }
    out
}

} // verus!

verus! {

/// Whether a diagnostic path lies within component `id` of the resolved project.
pub open spec fn within_component(path: Seq<char>, id: Seq<char>) -> bool {
    path == "/components/"@ + id || ("/components/"@ + id + "/"@).is_prefix_of(path)
}

/// Among the first `n` origins, the one of the component with the longest id (the last of
/// equally long ones) that `path` lies within.
pub open spec fn deepest_origin(origins: Seq<(String, crate::modules::Origin)>, path: Seq<char>, n: nat) -> Option<int>
    decreases n,
{
    if n == 0 || n > origins.len() {
        None
    } else {
        let prev = deepest_origin(origins, path, (n - 1) as nat);
        if within_component(path, origins[n - 1].0@) {
            match prev {
                Some(j) => if origins[n - 1].0@.len() >= origins[j].0@.len() {
                    Some(n - 1)
                } else {
                    prev
                },
                None => Some(n - 1),
            }
        } else {
            prev
        }
    }
}

proof fn lemma_deepest_origin(origins: Seq<(String, crate::modules::Origin)>, path: Seq<char>, n: nat)
    ensures
        deepest_origin(origins, path, n) matches Some(j) ==> 0 <= j < n && j < origins.len() && within_component(
            path,
            origins[j].0@,
        ),
    decreases n,
{
    if n > 0 && n <= origins.len() {
        lemma_deepest_origin(origins, path, (n - 1) as nat);
    }
}

/// The file and path a diagnostic about the resolved project refers to in the sources: a
/// component's findings go to the file and path it was written at, a net's to its place in
/// the circuit.
pub open spec fn remapped_location(file: Seq<char>, path: Option<Seq<char>>, origins: Seq<(String, crate::modules::Origin)>) -> (
    Seq<char>,
    Option<Seq<char>>,
) {
    match path {
        None => (file, None),
        Some(p) => match deepest_origin(origins, p, origins.len()) {
            Some(j) => (
                origins[j].1.file@,
                Some(origins[j].1.path@ + p.skip(("/components/"@ + origins[j].0@).len() as int)),
            ),
            None => if "/nets/"@.is_prefix_of(p) {
                (file, Some("/circuit"@ + p))
            } else {
                (file, Some(p))
            },
        },
    }
}

/// The view of an optional text.
pub open spec fn opt_view(t: Option<String>) -> Option<Seq<char>> {
    match t {
        Some(s) => Some(s@),
        None => None,
    }
}

/// Whether `p` is a prefix of `s`.
pub(crate) fn text_has_prefix(s: &str, p: &str) -> (r: bool)
    ensures
        r == p@.is_prefix_of(s@),
{
    let sc = crate::text::chars_of(s);
    let pc = crate::text::chars_of(p);
    crate::library::has_prefix(&sc, &pc)
}

/// Points a diagnostic about the resolved project at the source it came from (see
/// `remapped_location`); its span is left for the caller to locate in the new file.
pub fn remap_diagnostic(d: &mut Diagnostic, origins: &Vec<(String, crate::modules::Origin)>)
    ensures
        (final(d).file@, opt_view(final(d).path)) == remapped_location(old(d).file@, opt_view(old(d).path), origins@),
        final(d).severity == old(d).severity,
        final(d).code == old(d).code,
        final(d).message == old(d).message,
        final(d).span == old(d).span,
        final(d).related == old(d).related,
        final(d).help == old(d).help,
{
    let path = match &d.path {
        Some(p) => p.clone(),
        None => {
            return;
        },
    };
    let mut best: Option<usize> = None;
    let mut i: usize = 0;
    while i < origins.len()
        invariant
            i <= origins@.len(),
            match best {
                Some(j) => deepest_origin(origins@, path@, i as nat) == Some(j as int) && j < i,
                None => deepest_origin(origins@, path@, i as nat) is None,
            },
        decreases origins.len() - i,
    {
        let id = origins[i].0.as_str();
        let component = crate::text::text2("/components/", id);
        let nested = crate::text::text3("/components/", id, "/");
        let within = crate::text::same_text(path.as_str(), component.as_str()) || text_has_prefix(path.as_str(), nested.as_str());
        if within {
            best = match best {
                Some(j) => if crate::text::chars_of(origins[i].0.as_str()).len() >= crate::text::chars_of(origins[j].0.as_str()).len() {
                    Some(i)
                } else {
                    Some(j)
                },
                None => Some(i),
            };
        }
        i += 1;
    }
    match best {
        Some(j) => {
            let component = crate::text::text2("/components/", origins[j].0.as_str());
            let pc = crate::text::chars_of(path.as_str());
            let cc = crate::text::chars_of(component.as_str());
            proof {
                lemma_deepest_origin(origins@, path@, origins@.len());
                reveal_strlit("/components/");
                reveal_strlit("/");
            }
            let suffix = if cc.len() <= pc.len() {
                crate::text::string_of_range(pc.as_slice(), cc.len(), pc.len())
            } else {
                String::new()
            };
            assert(suffix@ =~= path@.skip(component@.len() as int));
            d.file = origins[j].1.file.clone();
            d.path = Some(crate::text::text2(origins[j].1.path.as_str(), suffix.as_str()));
        },
        None => {
            if text_has_prefix(path.as_str(), "/nets/") {
                d.path = Some(crate::text::text2("/circuit", path.as_str()));
            }
        },
    }
}

} // verus!

verus! {

/// Whether some endpoint of `endpoints` is a terminal of component `refdes` (`refdes.`...).
pub open spec fn touches(endpoints: Seq<Seq<char>>, refdes: Seq<char>) -> bool {
    exists|k: int| 0 <= k < endpoints.len() && (refdes + "."@).is_prefix_of(#[trigger] endpoints[k])
}

/// The indices, in order, of the first `n` nets that list a terminal of component `refdes`.
pub open spec fn nets_touching(nets: Seq<(Seq<char>, Seq<Seq<char>>)>, refdes: Seq<char>, n: nat) -> Seq<usize>
    decreases n,
{
    if n == 0 || n > nets.len() {
        Seq::empty()
    } else {
        nets_touching(nets, refdes, (n - 1) as nat) + if touches(nets[n - 1].1, refdes) {
            seq![(n - 1) as usize]
        } else {
            Seq::empty()
        }
    }
}

/// The nets an inspected component is on: the indices, in order, of the nets that list one of
/// its terminals.
pub fn component_nets(nets: &Vec<(String, Vec<String>)>, refdes: &str) -> (r: Vec<usize>)
    ensures
        r@ == nets_touching(crate::elaboration::net_views(nets@), refdes@, nets@.len()),
{
    let ghost nv = crate::elaboration::net_views(nets@);
    let head = crate::text::text2(refdes, ".");
    let mut out: Vec<usize> = Vec::new();
    let mut i: usize = 0;
    while i < nets.len()
        invariant
            i <= nets@.len(),
            nv == crate::elaboration::net_views(nets@),
            head@ == refdes@ + "."@,
            out@ == nets_touching(nv, refdes@, i as nat),
        decreases nets.len() - i,
    {
        assert(nv[i as int] == (nets@[i as int].0@, views(nets@[i as int].1@)));
        let endpoints = &nets[i].1;
        let mut k: usize = 0;
        let mut hit = false;
        while k < endpoints.len()
            invariant
                k <= endpoints@.len(),
                endpoints == &nets@[i as int].1,
                head@ == refdes@ + "."@,
                hit == exists|t: int| 0 <= t < k && (refdes@ + "."@).is_prefix_of(#[trigger] views(endpoints@)[t]),
            decreases endpoints.len() - k,
        {
            assert(views(endpoints@)[k as int] == endpoints@[k as int]@);
            if text_has_prefix(endpoints[k].as_str(), head.as_str()) {
                hit = true;
            }
            k += 1;
        }
        if hit {
            out.push(i);
        }
        i += 1;
    }
    out
}

/// The error of an inspection whose component, net or block does not exist.
pub fn unknown_object(kind: &str, value: &str, input: &str) -> (d: Diagnostic)
    ensures
        d.severity == Severity::Error,
        d.code@ == "INSPECT001"@,
        d.message@ == "unknown "@ + kind@ + " '"@ + value@ + "'"@,
        d.file@ == input@,
        d.help matches Some(h) && h@ == "run 'kil inspect FILE' to list the project summary"@,
        d.span is None,
        d.path is None,
        d.related@.len() == 0,
{
    let message = crate::text::text5("unknown ", kind, " '", value, "'");
    Diagnostic::error("INSPECT001", message.as_str(), input).with_help("run 'kil inspect FILE' to list the project summary")
}

/// What an inspection that found nothing reports: the component asked for, else the net, else
/// the block.
pub fn inspect_failure(component: Option<&str>, net: Option<&str>, block: Option<&str>, input: &str) -> (d: Diagnostic)
    ensures
        d.code@ == "INSPECT001"@,
        d.severity == Severity::Error,
        d.file@ == input@,
        d.message@ == match (component, net) {
            (Some(c), _) => "unknown "@ + "component"@ + " '"@ + c@ + "'"@,
            (None, Some(n)) => "unknown "@ + "net"@ + " '"@ + n@ + "'"@,
            (None, None) => "unknown "@ + "block"@ + " '"@ + match block {
                Some(b) => b@,
                None => Seq::<char>::empty(),
            } + "'"@,
        },
{
    match (component, net) {
        (Some(c), _) => unknown_object("component", c, input),
        (None, Some(n)) => unknown_object("net", n, input),
        (None, None) => {
            let b = match block {
                Some(b) => b,
                None => "",
            };
            proof {
                reveal_strlit("");
            }
            unknown_object("block", b, input)
        },
    }
}

} // verus!

verus! {

#[verifier::external_type_specification]
#[verifier::external_body]
pub struct ExJsonValue(serde_json::Value);

/// The document `serde_json` reads from `bytes`, or the text of its error.
pub uninterp spec fn json_parsed(bytes: Seq<u8>) -> Result<JsonView, Seq<char>>;

/// The compact JSON text `serde_json` prints for a value.
pub uninterp spec fn json_text(v: JsonView) -> Seq<char>;

/// Copies a `serde_json` value into a `Json`: each number as its text, arrays and object
/// members in order.
#[verifier::external_body]
fn json_of(v: &serde_json::Value) -> Json {
    match v {
        serde_json::Value::Null => Json::Null,
        serde_json::Value::Bool(b) => Json::Bool(*b),
        serde_json::Value::Number(n) => Json::Number(n.to_string()),
        serde_json::Value::String(s) => Json::Text(s.clone()),
        serde_json::Value::Array(a) => Json::Array(a.iter().map(json_of).collect()),
        serde_json::Value::Object(o) => Json::Object(o.iter().map(|(k, x)| (k.clone(), json_of(x))).collect()),
    }
}

/// Copies a `Json` into a `serde_json` value. A number is re-read from its text; a number text
/// that does not read as one becomes `null`, which never happens to a `Json` that `json_of`
/// copied from a parsed value, since its number texts are printed by `serde_json` itself.
#[verifier::external_body]
pub(crate) fn value_of(j: &Json) -> serde_json::Value {
    match j {
        Json::Null => serde_json::Value::Null,
        Json::Bool(b) => serde_json::Value::Bool(*b),
        Json::Number(n) => serde_json::from_str(n).unwrap_or(serde_json::Value::Null),
        Json::Text(s) => serde_json::Value::String(s.clone()),
        Json::Array(a) => serde_json::Value::Array(a.iter().map(value_of).collect()),
        Json::Object(o) => serde_json::Value::Object(o.iter().map(|(k, x)| (k.clone(), value_of(x))).collect()),
    }
}

/// `serde_json::from_slice` into a `serde_json::Value`, copied into a `Json`. Claimed: the
/// outcome, document or error text, depends on `bytes` alone (it is `json_parsed`); what the
/// grammar accepts is not stated.
#[verifier::external_body]
pub(crate) fn parse_json(bytes: &[u8]) -> (r: Result<Json, String>)
    ensures
        match r {
            Ok(j) => json_parsed(bytes@) == Ok::<JsonView, Seq<char>>(json_view(j)),
            Err(e) => json_parsed(bytes@) == Err::<JsonView, Seq<char>>(e@),
        },
{
    match serde_json::from_slice::<serde_json::Value>(bytes) {
        Ok(v) => Ok(json_of(&v)),
        Err(e) => Err(e.to_string()),
    }
}

/// The `Display` text (compact JSON) of the `serde_json::Value` a `Json` copies into. Claimed:
/// it depends on the value alone (it is `json_text`), and an array's text opens with `[`, as
/// `serde_json`'s serializer writes it; the other printing rules are not stated.
#[verifier::external_body]
pub(crate) fn compact_json(j: &Json) -> (r: String)
    ensures
        r@ == json_text(json_view(*j)),
        json_view(*j) is Array ==> r@.len() > 0 && r@[0] == '[',
{
    value_of(j).to_string()
}

/// A member's value, or `null` when absent.
pub open spec fn or_null(v: Option<JsonView>) -> JsonView {
    match v {
        Some(x) => x,
        None => JsonView::Null,
    }
}

/// The elements of an array value; nothing for any other value.
pub open spec fn array_of(v: Option<JsonView>) -> Seq<JsonView> {
    match v {
        Some(JsonView::Array(a)) => a,
        _ => Seq::empty(),
    }
}

/// A finding item read from a report: its description when a string, and the compact text of
/// its description and position, which identifies it.
pub open spec fn item_value(i: JsonView) -> crate::route_workflow::ItemView {
    crate::route_workflow::ItemView {
        description: text_value(field(i, "description"@)),
        identity: json_text(
            JsonView::Object(seq![("description"@, or_null(field(i, "description"@))), ("pos"@, or_null(field(i, "pos"@)))]),
        ),
    }
}

/// A finding read from a report: the compact texts of its type and description, its items and
/// its whole compact text.
pub open spec fn finding_value(f: JsonView) -> crate::route_workflow::FindingView {
    crate::route_workflow::FindingView {
        kind: json_text(or_null(field(f, "type"@))),
        description: json_text(or_null(field(f, "description"@))),
        items: array_of(field(f, "items"@)).map_values(|i: JsonView| item_value(i)),
        raw: json_text(f),
    }
}

/// Whether a finding has error severity.
pub open spec fn severe(f: JsonView) -> bool {
    field(f, "severity"@) == Some(JsonView::Text("error"@))
}

/// The findings among `fs` with (or without) error severity, in order.
pub open spec fn split_views(fs: Seq<JsonView>, error: bool) -> Seq<crate::route_workflow::FindingView>
    decreases fs.len(),
{
    if fs.len() == 0 {
        Seq::empty()
    } else {
        split_views(fs.drop_last(), error) + if severe(fs.last()) == error {
            seq![finding_value(fs.last())]
        } else {
            Seq::empty()
        }
    }
}

} // verus!

verus! {

/// A copy of a member's value, or `null` when absent.
fn null_or(v: Option<&Json>) -> (r: Json)
    ensures
        json_view(r) == or_null(
            match v {
                Some(x) => Some(json_view(*x)),
                None => None,
            },
        ),
{
    match v {
        Some(x) => x.copy(),
        None => Json::Null,
    }
}

/// The item of a finding.
fn item_of(i: &Json) -> (r: crate::route_workflow::FindingItem)
    ensures
        r@ == item_value(json_view(*i)),
{
    let d = field_of(i, "description");
    let description = match d {
        Some(Json::Text(s)) => Some(s.clone()),
        _ => None,
    };
    let p = field_of(i, "pos");
    let members: Vec<(String, Json)> = vec![("description".to_owned(), null_or(d)), ("pos".to_owned(), null_or(p))];
    proof {
        crate::modules::lemma_json_fields_index(members@, 0);
        crate::modules::lemma_json_fields_index(members@, 1);
        assert(crate::modules::json_fields(members@) =~= seq![
            ("description"@, or_null(field(json_view(*i), "description"@))),
            ("pos"@, or_null(field(json_view(*i), "pos"@))),
        ]);
    }
    let key = Json::Object(members);
    let identity = compact_json(&key);
    crate::route_workflow::FindingItem { description, identity }
}

/// The finding a report entry describes.
fn drc_finding(f: &Json) -> (r: crate::route_workflow::Finding)
    ensures
        r@ == finding_value(json_view(*f)),
{
    let kind = compact_json(&null_or(field_of(f, "type")));
    let description = compact_json(&null_or(field_of(f, "description")));
    let mut items: Vec<crate::route_workflow::FindingItem> = Vec::new();
    let ghost want = array_of(field(json_view(*f), "items"@)).map_values(|i: JsonView| item_value(i));
    match field_of(f, "items") {
        Some(Json::Array(a)) => {
            proof {
                crate::modules::lemma_json_views_len(a@);
            }
            let mut k: usize = 0;
            while k < a.len()
                invariant
                    k <= a@.len(),
                    crate::modules::json_views(a@).len() == a@.len(),
                    want == crate::modules::json_views(a@).map_values(|i: JsonView| item_value(i)),
                    crate::route_workflow::iviews(items@) == want.take(k as int),
                decreases a.len() - k,
            {
                proof {
                    crate::modules::lemma_json_views_index(a@, k as int);
                }
                let it = item_of(&a[k]);
                let ghost before = items@;
                items.push(it);
                assert(crate::route_workflow::iviews(items@) =~= crate::route_workflow::iviews(before).push(it@));
                assert(want.take(k + 1) =~= want.take(k as int).push(it@));
                k += 1;
            }
            assert(want.take(a@.len() as int) =~= want);
        },
        _ => {
            assert(crate::route_workflow::iviews(items@) =~= want);
        },
    }
    let raw = compact_json(f);
    crate::route_workflow::Finding { kind, description, items, raw }
}

} // verus!

verus! {

/// The report entries of a list of findings.
fn entries_of(a: &Vec<Json>) -> (r: Vec<crate::route_workflow::ReportEntry>)
    ensures
        crate::route_workflow::with_severity(r@, true) == split_views(crate::modules::json_views(a@), true),
        crate::route_workflow::with_severity(r@, false) == split_views(crate::modules::json_views(a@), false),
{
    let ghost av = crate::modules::json_views(a@);
    proof {
        crate::modules::lemma_json_views_len(a@);
    }
    let mut out: Vec<crate::route_workflow::ReportEntry> = Vec::new();
    let mut k: usize = 0;
    assert(av.take(0) =~= Seq::<JsonView>::empty());
    while k < a.len()
        invariant
            k <= a@.len(),
            av == crate::modules::json_views(a@),
            av.len() == a@.len(),
            crate::route_workflow::with_severity(out@, true) == split_views(av.take(k as int), true),
            crate::route_workflow::with_severity(out@, false) == split_views(av.take(k as int), false),
        decreases a.len() - k,
    {
        proof {
            crate::modules::lemma_json_views_index(a@, k as int);
        }
        let item = &a[k];
        let is_error = match field_of(item, "severity") {
            Some(Json::Text(s)) => crate::text::same_text(s.as_str(), "error"),
            _ => false,
        };
        assert(is_error == severe(json_view(*item)));
        let entry = crate::route_workflow::ReportEntry { finding: drc_finding(item), is_error };
        let ghost before = out@;
        out.push(entry);
        assert(out@.drop_last() =~= before);
        assert(av.take(k + 1).drop_last() =~= av.take(k as int));
        assert(av.take(k + 1).last() == json_view(*item));
        k += 1;
    }
    assert(av.take(a@.len() as int) =~= av);
    out
}

/// The elements of an array member, or none.
fn array_field<'a>(j: &'a Json, key: &str) -> (r: Option<&'a Vec<Json>>)
    ensures
        match field(json_view(*j), key@) {
            Some(JsonView::Array(a)) => r matches Some(v) && crate::modules::json_views(v@) == a,
            _ => r is None,
        },
{
    match field_of(j, key) {
        Some(Json::Array(a)) => Some(a),
        _ => None,
    }
}

/// Whether a DRC report has the arrays a summary needs.
pub open spec fn drc_shaped(v: JsonView) -> bool {
    &&& field(v, "violations"@) matches Some(JsonView::Array(_))
    &&& field(v, "unconnected_items"@) matches Some(JsonView::Array(_))
}

/// What a summary says of a parsed DRC report `v` that has the arrays it needs: findings of
/// error severity among the violations and the schematic-parity section are errors, the
/// others warnings, parity findings are kept apart as well, and the unconnected items are the
/// opens.
pub open spec fn summarizes(s: crate::route_workflow::DrcSummary, v: JsonView) -> bool {
    let viol = array_of(field(v, "violations"@));
    let par = array_of(field(v, "schematic_parity"@));
    &&& crate::route_workflow::fviews(s.errors@) == split_views(viol, true) + split_views(par, true)
    &&& crate::route_workflow::fviews(s.warning_details@) == split_views(viol, false) + split_views(par, false)
    &&& s.warnings as nat == split_views(viol, false).len() + split_views(par, false).len()
    &&& crate::route_workflow::fviews(s.parity_errors@) == split_views(par, true)
    &&& crate::route_workflow::fviews(s.parity_warning_details@) == split_views(par, false)
    &&& s.parity_warnings as nat == split_views(par, false).len()
    &&& crate::route_workflow::fviews(s.opens@) == array_of(field(v, "unconnected_items"@)).map_values(
        |f: JsonView| finding_value(f),
    )
}

/// Summarizes a parsed KiCad DRC report (see `summarizes`); a report without the violations
/// or unconnected-items array is refused.
pub fn drc_summary_of(value: &Json) -> (r: Result<crate::route_workflow::DrcSummary, String>)
    ensures
        if drc_shaped(json_view(*value)) {
            r matches Ok(s) && summarizes(s, json_view(*value))
        } else {
            r matches Err(m) && m@ == "DRC report requires violations and unconnected_items arrays"@
        },
{
    let violations = array_field(&value, "violations");
    let unconnected = array_field(&value, "unconnected_items");
    if violations.is_none() || unconnected.is_none() {
        return Err("DRC report requires violations and unconnected_items arrays".to_owned());
    }
    let violations = violations.unwrap();
    let unconnected = unconnected.unwrap();
    let v_entries = entries_of(violations);
    let empty: Vec<Json> = Vec::new();
    let parity = match array_field(&value, "schematic_parity") {
        Some(p) => p,
        None => &empty,
    };
    assert(crate::modules::json_views(empty@) =~= Seq::<JsonView>::empty());
    let p_entries = entries_of(parity);
    let ghost uv = crate::modules::json_views(unconnected@);
    let ghost want = uv.map_values(|f: JsonView| finding_value(f));
    proof {
        crate::modules::lemma_json_views_len(unconnected@);
    }
    let mut opens: Vec<crate::route_workflow::Finding> = Vec::new();
    let mut k: usize = 0;
    while k < unconnected.len()
        invariant
            k <= unconnected@.len(),
            uv == crate::modules::json_views(unconnected@),
            uv.len() == unconnected@.len(),
            want == uv.map_values(|f: JsonView| finding_value(f)),
            crate::route_workflow::fviews(opens@) == want.take(k as int),
        decreases unconnected.len() - k,
    {
        proof {
            crate::modules::lemma_json_views_index(unconnected@, k as int);
        }
        let f = drc_finding(&unconnected[k]);
        let ghost before = opens@;
        opens.push(f);
        assert(crate::route_workflow::fviews(opens@) =~= crate::route_workflow::fviews(before).push(f@));
        assert(want.take(k + 1) =~= want.take(k as int).push(f@));
        k += 1;
    }
    assert(want.take(unconnected@.len() as int) =~= want);
    let s = crate::route_workflow::DrcSummary::from_report(&v_entries, &p_entries, &opens);
    Ok(s)
}

/// Reads a KiCad DRC report: one that does not parse is refused with the parser's error,
/// and a parsed one is summarized (see `drc_summary_of`).
pub fn drc_summary(bytes: &[u8]) -> (r: Result<crate::route_workflow::DrcSummary, String>)
    ensures
        match json_parsed(bytes@) {
            Err(e) => r matches Err(m) && m@ == e,
            Ok(v) => if !drc_shaped(v) {
                r matches Err(m) && m@ == "DRC report requires violations and unconnected_items arrays"@
            } else {
                r matches Ok(s) && summarizes(s, v)
            },
        },
{
    match parse_json(bytes) {
        Ok(v) => drc_summary_of(&v),
        Err(e) => Err(e),
    }
}

/// Reads a KiCad `code` report (ERC or DRC) about `file`: KICAD007 when it does not parse
/// (with the parser's error) or lacks the expected structure, else one diagnostic per
/// violation (see `report_diagnostics`).
pub fn kicad_report(bytes: &[u8], file: &str, code: &str) -> (r: Vec<Diagnostic>)
    ensures
        match json_parsed(bytes@) {
            Err(e) => r@.len() == 1 && r@[0].severity == Severity::Error && r@[0].code@ == "KICAD007"@ && r@[0].message@
                == "invalid "@ + code@ + " report: "@ + e && r@[0].file@ == file@,
            Ok(v) => {
                &&& !report_shaped(v) ==> r@.len() == 1 && r@[0].severity == Severity::Error && r@[0].code@ == "KICAD007"@
                    && r@[0].message@ == "unrecognized "@ + code@ + " report structure"@ && r@[0].file@ == file@
                &&& report_shaped(v) ==> reports_findings(r@, 0, violations(v, code@), code@, file@)
            },
        },
{
    match parse_json(bytes) {
        Ok(v) => report_diagnostics(&v, file, code),
        Err(e) => {
            let message = crate::text::text4("invalid ", code, " report: ", e.as_str());
            let mut out: Vec<Diagnostic> = Vec::new();
            out.push(Diagnostic::error("KICAD007", message.as_str(), file));
            out
        },
    }
}

} // verus!

verus! {

/// Whether a line of router output is a completion summary.
pub open spec fn summary_line(line: Seq<char>) -> bool {
    "JSON_SUMMARY_MIN:"@.is_prefix_of(line) || "JSON_SUMMARY:"@.is_prefix_of(line)
}

/// The completion-summary lines among the first `n` lines of router output, in line order.
pub open spec fn summary_lines_upto(s: Seq<char>, n: nat) -> Seq<Seq<char>>
    decreases n,
{
    if n == 0 {
        Seq::empty()
    } else {
        let prev = summary_lines_upto(s, (n - 1) as nat);
        match crate::text::nth_line(s, (n - 1) as nat) {
            Some(l) => if summary_line(l) {
                prev.push(l)
            } else {
                prev
            },
            None => prev,
        }
    }
}

proof fn lemma_summary_lines_stop(s: Seq<char>, k: nat, n: nat)
    requires
        k <= n,
        crate::text::line_start(s, k) >= s.len(),
    ensures
        summary_lines_upto(s, n) == summary_lines_upto(s, k),
    decreases n - k,
{
    if k < n {
        lemma_summary_lines_stop(s, k, (n - 1) as nat);
        crate::text::lemma_line_start_past_end(s, k, (n - 1) as nat);
    }
}

/// The completion-summary lines of router output, in line order.
pub fn summary_lines(stdout: &str) -> (r: Vec<String>)
    ensures
        views(r@) == summary_lines_upto(stdout@, (stdout@.len() + 1) as nat),
{
    let c = crate::text::chars_of(stdout);
    let ghost s = c@;
    let mut out: Vec<String> = Vec::new();
    let mut st: usize = 0;
    let mut k: usize = 0;
    proof {
        assert(views(out@) =~= Seq::<Seq<char>>::empty());
    }
    while st < c.len()
        invariant
            s == c@,
            s == stdout@,
            st <= c@.len(),
            st as int == crate::text::line_start(s, k as nat) || (st as int == s.len() && crate::text::line_start(s, k as nat)
                > s.len()),
            k <= st,
            views(out@) == summary_lines_upto(s, k as nat),
        decreases c.len() - st,
    {
        let e = crate::text::find_newline(c.as_slice(), st);
        proof {
            crate::text::lemma_next_newline_bounds(s, st as int);
        }
        let mut end = e;
        if e < c.len() && e > st && c[e - 1] == '\r' {
            end = e - 1;
        }
        let ghost line = crate::text::strip_line_end(s.subrange(st as int, e as int), e < s.len());
        proof {
            assert(line =~= s.subrange(st as int, end as int));
            assert(crate::text::nth_line(s, k as nat) == Some(line));
        }
        let ghost before = out@;
        if starts_at(&c, st, end, "JSON_SUMMARY_MIN:") || starts_at(&c, st, end, "JSON_SUMMARY:") {
            let t = crate::text::string_of_range(c.as_slice(), st, end);
            assert(t@ =~= line);
            out.push(t);
            proof {
                crate::text::lemma_views_push(before, out@.last());
            }
        }
        st = if e < c.len() {
            e + 1
        } else {
            c.len()
        };
        k += 1;
    }
    proof {
        crate::text::lemma_line_start_nonneg(s, k as nat);
        lemma_summary_lines_stop(s, k as nat, (s.len() + 1) as nat);
    }
    out
}

} // verus!

verus! {

/// The first state of a check of the project document `input`: it validates the generated
/// project with KiCad and publishes nothing (see `build_step`).
pub fn check(input: &str) -> (s: crate::build_run::BuildState)
    ensures
        s@ == (crate::build_run::BuildStateV {
            stage: crate::build_run::BuildStage::Loading,
            input: input@,
            publish: false,
            diagnostics: Seq::empty(),
        }),
{
    let s = crate::build_run::BuildState {
        stage: crate::build_run::BuildStage::Loading,
        input: input.to_string(),
        publish: false,
        diagnostics: Vec::new(),
    };
    assert(crate::diagnostic::diag_views(s.diagnostics@) =~= Seq::empty());
    s
}

/// The first state of a build of the project document `input`: it validates the generated
/// project with KiCad and then publishes it (see `build_step`).
pub fn build(input: &str) -> (s: crate::build_run::BuildState)
    ensures
        s@ == (crate::build_run::BuildStateV {
            stage: crate::build_run::BuildStage::Loading,
            input: input@,
            publish: true,
            diagnostics: Seq::empty(),
        }),
{
    let s = crate::build_run::BuildState {
        stage: crate::build_run::BuildStage::Loading,
        input: input.to_string(),
        publish: true,
        diagnostics: Vec::new(),
    };
    assert(crate::diagnostic::diag_views(s.diagnostics@) =~= Seq::empty());
    s
}

} // verus!

verus! {

/// `v[key]`: the member `key` of an object, else `null`.
pub open spec fn at_key(v: JsonView, key: Seq<char>) -> JsonView {
    or_null(field(v, key))
}

/// The part of KiCad settings file `name`, parsed as `v`, that validation depends on: the
/// environment and language of the common settings, whether the board editor reports all
/// track errors, whether the schematic editor shows all errors; none for other files.
pub open spec fn relevant_settings(name: Seq<char>, v: JsonView) -> Option<JsonView> {
    if name == "kicad_common.json"@ {
        Some(JsonView::Array(seq![at_key(v, "environment"@), at_key(at_key(v, "system"@), "language"@)]))
    } else if name == "pcbnew.json"@ {
        Some(at_key(at_key(v, "DRC"@), "report_all_track_errors"@))
    } else if name == "eeschema.json"@ {
        Some(at_key(at_key(v, "ERC"@), "show_all_errors"@))
    } else {
        None
    }
}

/// What a settings file contributes to the validation identity: the compact JSON of its
/// relevant part, a missing or unreadable file counting as `null`; the bytes themselves for
/// files with no relevant part, nothing when such a file is missing.
pub open spec fn settings_bytes(name: Seq<char>, bytes: Option<Seq<u8>>) -> Seq<u8> {
    let v = match bytes {
        Some(b) => match json_parsed(b) {
            Ok(v) => v,
            Err(_) => JsonView::Null,
        },
        None => JsonView::Null,
    };
    match relevant_settings(name, v) {
        Some(r) => vstd::utf8::encode_utf8(json_text(r)),
        None => match bytes {
            Some(b) => b,
            None => Seq::empty(),
        },
    }
}

fn key_or_null(v: &Json, key: &str) -> (r: Json)
    ensures
        json_view(r) == at_key(json_view(*v), key@),
{
    null_or(field_of(v, key))
}

/// The bytes of KiCad settings file `name` (its contents, if any) that the validation
/// identity hashes (see `settings_bytes`): history, working directories and window state do
/// not invalidate cached checks, and a missing preference file counts as an empty one.
pub fn validation_settings(name: &str, bytes: Option<&[u8]>) -> (r: Vec<u8>)
    ensures
        r@ == settings_bytes(
            name@,
            match bytes {
                Some(b) => Some(b@),
                None => None,
            },
        ),
{
    let common = crate::text::same_text(name, "kicad_common.json");
    let board = crate::text::same_text(name, "pcbnew.json");
    let schematic = crate::text::same_text(name, "eeschema.json");
    if !common && !board && !schematic {
        return match bytes {
            Some(b) => vstd::slice::slice_to_vec(b),
            None => Vec::new(),
        };
    }
    let value = match bytes {
        Some(b) => match parse_json(b) {
            Ok(v) => v,
            Err(_) => Json::Null,
        },
        None => Json::Null,
    };
    let relevant = if common {
        let environment = key_or_null(&value, "environment");
        let system = key_or_null(&value, "system");
        let language = key_or_null(&system, "language");
        let items: Vec<Json> = vec![environment, language];
        proof {
            crate::modules::lemma_json_views_len(items@);
            crate::modules::lemma_json_views_index(items@, 0);
            crate::modules::lemma_json_views_index(items@, 1);
            assert(crate::modules::json_views(items@) =~= seq![json_view(items@[0]), json_view(items@[1])]);
        }
        Json::Array(items)
    } else if board {
        let drc = key_or_null(&value, "DRC");
        key_or_null(&drc, "report_all_track_errors")
    } else {
        let erc = key_or_null(&value, "ERC");
        key_or_null(&erc, "show_all_errors")
    };
    let text = compact_json(&relevant);
    text.as_str().as_bytes_vec()
}

} // verus!
