//! Structural checks of a project document. Every finding is reported at the JSON pointer of
//! the value it concerns, so that editors can underline it.
//!
//! The document is read through `ProjectFacts`: the identities, names and counts that the
//! checks look at, with the few geometric answers (inside the board or not, positive or not)
//! supplied by the caller.
use crate::diagnostic::{Diagnostic, Severity, SourceSpan};
use crate::source_map::{path_span, SourceMap};
use crate::rules::contains_string;
use crate::text::{chars_of, decimal, numbered, same_text, string_of_range, text2, text3, text4, text5, views};
use vstd::prelude::*;
use vstd::string::StringSliceAdditionalSpecFns;

verus! {

/// A net and its endpoints (`REF.PIN`), in document order.
#[derive(Debug)]
pub struct NetEntry {
    pub name: String,
    pub endpoints: Vec<String>,
}

/// A PCB placement: the component it places and whether its origin is on the board.
#[derive(Debug)]
pub struct PlacedPart {
    pub reference: String,
    pub inside: bool,
}

/// One authored route.
#[derive(Debug)]
pub struct RouteFacts {
    /// Number of points of the path.
    pub points: usize,
    /// Whether an explicit width is zero or negative.
    pub width_invalid: bool,
    pub layer: String,
    /// The printed form of each path point that lies off the board, in path order.
    pub outside_points: Vec<String>,
}

/// The authored routes of one net.
#[derive(Debug)]
pub struct RouteSet {
    pub net: String,
    pub routes: Vec<RouteFacts>,
}

/// A via: its net and whether it is on the board.
#[derive(Debug)]
pub struct ViaFacts {
    pub net: String,
    pub inside: bool,
}

/// A copper zone.
#[derive(Debug)]
pub struct ZoneFacts {
    pub net: String,
    /// Number of outline points.
    pub points: usize,
    pub layer: String,
    /// Number of outline points that lie off the board.
    pub outside_points: usize,
}

/// A mounting hole.
#[derive(Debug)]
pub struct HoleFacts {
    pub diameter_positive: bool,
    pub inside: bool,
}

/// A schematic wire.
#[derive(Debug)]
pub struct WireFacts {
    pub net: String,
    /// Number of points of the path.
    pub points: usize,
}

/// What the structural checks read of a project document.
#[derive(Debug)]
pub struct ProjectFacts {
    pub format_version: u32,
    pub kicad: u32,
    pub name: String,
    /// Number of points of the board outline.
    pub outline_points: usize,
    /// Whether the outline encloses (practically) no area.
    pub outline_zero_area: bool,
    /// Component identities, in document order.
    pub components: Vec<String>,
    pub nets: Vec<NetEntry>,
    /// Components with a schematic placement, in document order.
    pub schematic_placements: Vec<String>,
    pub pcb_placements: Vec<PlacedPart>,
    pub routes: Vec<RouteSet>,
    pub vias: Vec<ViaFacts>,
    pub zones: Vec<ZoneFacts>,
    pub holes: Vec<HoleFacts>,
    pub wires: Vec<WireFacts>,
    /// Endpoints marked as intentionally unconnected.
    pub no_connect: Vec<String>,
    /// Whether clearance, track width, via size and drill are positive and the drill is
    /// smaller than the via.
    pub rules_valid: bool,
}

/// A finding, as plain values.
pub struct Issue {
    pub error: bool,
    pub code: Seq<char>,
    pub message: Seq<char>,
    pub help: Option<Seq<char>>,
    pub path: Seq<char>,
}

/// An error finding without help text.
pub open spec fn error(code: Seq<char>, message: Seq<char>, path: Seq<char>) -> Issue {
    Issue { error: true, code, message, help: None, path }
}

/// The finding `i` when `c` holds, else nothing.
pub open spec fn when(c: bool, i: Issue) -> Seq<Issue> {
    if c {
        seq![i]
    } else {
        Seq::empty()
    }
}

/// The span a finding at `path` is given: its location in the source when the path can be
/// looked up.
pub open spec fn located(src: Seq<u8>, path: Seq<char>) -> Option<SourceSpan> {
    let b = vstd::utf8::encode_utf8(path);
    if b.len() < usize::MAX {
        path_span(src, b)
    } else {
        None
    }
}

/// Whether `d` reports the finding `i` about `file`, located in the source `src`.
pub open spec fn shows(d: Diagnostic, i: Issue, file: Seq<char>, src: Seq<u8>) -> bool {
    &&& d.severity == (if i.error {
        Severity::Error
    } else {
        Severity::Warning
    })
    &&& d.code@ == i.code
    &&& d.message@ == i.message
    &&& d.file@ == file
    &&& (d.path matches Some(p) && p@ == i.path)
    &&& d.span == located(src, i.path)
    &&& d.related@.len() == 0
    &&& match (d.help, i.help) {
        (Some(h), Some(t)) => h@ == t,
        (None, None) => true,
        _ => false,
    }
}

/// Whether `ds` reports exactly the findings `is`, in order.
pub open spec fn reports(ds: Seq<Diagnostic>, is: Seq<Issue>, file: Seq<char>, src: Seq<u8>) -> bool {
    &&& ds.len() == is.len()
    &&& forall|k: int| 0 <= k < is.len() ==> shows(#[trigger] ds[k], is[k], file, src)
}

/// Appends the diagnostic of one finding.
pub(crate) fn emit(
    out: &mut Vec<Diagnostic>,
    Ghost(before): Ghost<Seq<Issue>>,
    map: &SourceMap,
    file: &str,
    error: bool,
    code: &str,
    message: &str,
    help: Option<&str>,
    path: &str,
)
    requires
        map.bytes().len() < usize::MAX,
        reports(old(out)@, before, file@, map.bytes()),
    ensures
        reports(
            final(out)@,
            before.push(
                Issue {
                    error,
                    code: code@,
                    message: message@,
                    help: help_view(help),
                    path: path@,
                },
            ),
            file@,
            map.bytes(),
        ),
{
    let d = if error {
        Diagnostic::error(code, message, file)
    } else {
        Diagnostic::warning(code, message, file)
    };
    let span = if path.as_bytes().len() < usize::MAX {
        map.span_for_path(path)
    } else {
        None
    };
    let d = d.at_path(path).with_span(span);
    let d = match help {
        Some(h) => d.with_help(h),
        None => d,
    };
    let ghost old_out = out@;
    out.push(d);
    let ghost i = Issue { error, code: code@, message: message@, help: help_view(help), path: path@ };
    assert forall|k: int| 0 <= k < before.push(i).len() implies shows(#[trigger] out@[k], before.push(i)[k], file@, map.bytes()) by {
        if k < before.len() {
            assert(out@[k] == old_out[k]);
        }
    }
}

/// The plain value of an optional help text.
pub open spec fn help_view(help: Option<&str>) -> Option<Seq<char>> {
    match help {
        Some(h) => Some(h@),
        None => None,
    }
}

/// Appends the diagnostic of a finding when `c` holds.
fn emit_if(
    c: bool,
    out: &mut Vec<Diagnostic>,
    Ghost(before): Ghost<Seq<Issue>>,
    map: &SourceMap,
    file: &str,
    error: bool,
    code: &str,
    message: &str,
    help: Option<&str>,
    path: &str,
)
    requires
        map.bytes().len() < usize::MAX,
        reports(old(out)@, before, file@, map.bytes()),
    ensures
        reports(
            final(out)@,
            before + when(c, Issue { error, code: code@, message: message@, help: help_view(help), path: path@ }),
            file@,
            map.bytes(),
        ),
{
    let ghost i = Issue { error, code: code@, message: message@, help: help_view(help), path: path@ };
    if c {
        emit(out, Ghost(before), map, file, error, code, message, help, path);
        assert(before.push(i) =~= before + when(c, i));
    } else {
        assert(before =~= before + when(c, i));
    }
}

/// Whether `c` may appear in a project name.
pub open spec fn name_char(c: char) -> bool {
    ('a' <= c <= 'z') || ('A' <= c <= 'Z') || ('0' <= c <= '9') || c == '.' || c == '_' || c == '-'
}

/// Whether a project name is a safe file stem: nonempty, of ASCII letters, digits, '.', '_'
/// and '-' only.
pub open spec fn safe_name(name: Seq<char>) -> bool {
    name.len() > 0 && forall|k: int| 0 <= k < name.len() ==> name_char(#[trigger] name[k])
}

/// Whether a project name is a safe file stem.
pub fn valid_project_name(name: &str) -> (r: bool)
    ensures
        r == safe_name(name@),
{
    let c = chars_of(name);
    if c.len() == 0 {
        return false;
    }
    let mut i: usize = 0;
    while i < c.len()
        invariant
            i <= c@.len(),
            c@ == name@,
            forall|k: int| 0 <= k < i ==> name_char(#[trigger] c@[k]),
        decreases c.len() - i,
    {
        let x = c[i];
        if !(('a' <= x && x <= 'z') || ('A' <= x && x <= 'Z') || ('0' <= x && x <= '9') || x == '.' || x == '_'
            || x == '-') {
            return false;
        }
        i += 1;
    }
    true
}

/// Index of the first `.` at or after `from`.
pub open spec fn first_dot(e: Seq<char>, from: int) -> Option<int>
    decreases e.len() - from,
{
    if from < 0 || from >= e.len() {
        None
    } else if e[from] == '.' {
        Some(from)
    } else {
        first_dot(e, from + 1)
    }
}

/// The reference and pin of an endpoint `REF.PIN`, split at the first `.`; both must be
/// nonempty.
pub open spec fn endpoint_parts(e: Seq<char>) -> Option<(Seq<char>, Seq<char>)> {
    match first_dot(e, 0) {
        Some(k) => if k > 0 && k + 1 < e.len() {
            Some((e.take(k), e.skip(k + 1)))
        } else {
            None
        },
        None => None,
    }
}

/// Splits an endpoint `REF.PIN` into its reference and pin, at the first `.`.
pub fn parse_endpoint(endpoint: &str) -> (r: Option<(String, String)>)
    ensures
        match endpoint_parts(endpoint@) {
            Some((a, b)) => r matches Some((x, y)) && x@ == a && y@ == b,
            None => r is None,
        },
{
    let c = chars_of(endpoint);
    let mut k: usize = 0;
    while k < c.len() && c[k] != '.'
        invariant
            k <= c@.len(),
            c@ == endpoint@,
            first_dot(c@, 0) == first_dot(c@, k as int),
        decreases c.len() - k,
    {
        k += 1;
    }
    if k == 0 || k >= c.len() || c.len() - k < 2 {
        return None;
    }
    let a = string_of_range(c.as_slice(), 0, k);
    let b = string_of_range(c.as_slice(), k + 1, c.len());
    assert(a@ =~= c@.take(k as int));
    assert(b@ =~= c@.skip(k + 1));
    Some((a, b))
}


/// The findings about the document header and the board outline.
pub open spec fn header_issues(p: ProjectFacts) -> Seq<Issue> {
    when(
        p.format_version != 2,
        Issue {
            error: true,
            code: "KIL001"@,
            message: "unsupported format_version "@ + decimal(p.format_version as nat),
            help: Some("use format_version: 2"@),
            path: "/format_version"@,
        },
    ) + when(p.kicad != 10, error("KIL002"@, "v1 targets KiCad 10 only"@, "/project/kicad"@)) + when(
        !safe_name(p.name@),
        Issue {
            error: true,
            code: "KIL003"@,
            message: "project name must be a safe file stem"@,
            help: Some("use letters, digits, '.', '_' or '-'"@),
            path: "/project/name"@,
        },
    ) + if p.outline_points < 3 {
        seq![error("PCB001"@, "board outline needs at least three points"@, "/pcb/outline"@)]
    } else {
        when(p.outline_zero_area, error("PCB002"@, "board outline has zero area"@, "/pcb/outline"@))
    }
}

fn check_header(p: &ProjectFacts, map: &SourceMap, file: &str, out: &mut Vec<Diagnostic>, Ghost(before): Ghost<Seq<Issue>>)
    requires
        map.bytes().len() < usize::MAX,
        reports(old(out)@, before, file@, map.bytes()),
    ensures
        reports(final(out)@, before + header_issues(*p), file@, map.bytes()),
{
    let mut m1 = "unsupported format_version ".to_owned();
    crate::text::push_decimal(&mut m1, p.format_version as usize);
    emit_if(
        p.format_version != 2,
        out,
        Ghost(before),
        map,
        file,
        true,
        "KIL001",
        m1.as_str(),
        Some("use format_version: 2"),
        "/format_version",
    );
    let ghost a1 = before + when(
        p.format_version != 2,
        Issue { error: true, code: "KIL001"@, message: m1@, help: Some("use format_version: 2"@), path: "/format_version"@ },
    );
    emit_if(p.kicad != 10, out, Ghost(a1), map, file, true, "KIL002", "v1 targets KiCad 10 only", None, "/project/kicad");
    let ghost a2 = a1 + when(p.kicad != 10, error("KIL002"@, "v1 targets KiCad 10 only"@, "/project/kicad"@));
    let safe = valid_project_name(p.name.as_str());
    emit_if(
        !safe,
        out,
        Ghost(a2),
        map,
        file,
        true,
        "KIL003",
        "project name must be a safe file stem",
        Some("use letters, digits, '.', '_' or '-'"),
        "/project/name",
    );
    let ghost a3 = a2 + when(
        !safe_name(p.name@),
        Issue {
            error: true,
            code: "KIL003"@,
            message: "project name must be a safe file stem"@,
            help: Some("use letters, digits, '.', '_' or '-'"@),
            path: "/project/name"@,
        },
    );
    if p.outline_points < 3 {
        emit(out, Ghost(a3), map, file, true, "PCB001", "board outline needs at least three points", None, "/pcb/outline");
        assert(a3.push(error("PCB001"@, "board outline needs at least three points"@, "/pcb/outline"@)) =~= before
            + header_issues(*p));
    } else {
        emit_if(p.outline_zero_area, out, Ghost(a3), map, file, true, "PCB002", "board outline has zero area", None, "/pcb/outline");
        assert(a3 + when(p.outline_zero_area, error("PCB002"@, "board outline has zero area"@, "/pcb/outline"@)) =~= before
            + header_issues(*p));
    }
}

/// The names of the nets.
pub open spec fn net_names(nets: Seq<NetEntry>) -> Seq<Seq<char>> {
    nets.map_values(|n: NetEntry| n.name@)
}

/// The net that last listed endpoint `e` before endpoint `j` of net `i`, walking back
/// through the nets in document order.
pub open spec fn owner_before(nets: Seq<NetEntry>, i: nat, j: nat, e: Seq<char>) -> Option<Seq<char>>
    decreases i, j,
{
    if j > 0 {
        if j <= nets[i as int].endpoints@.len() && nets[i as int].endpoints@[j - 1]@ == e {
            Some(nets[i as int].name@)
        } else {
            owner_before(nets, i, (j - 1) as nat, e)
        }
    } else if i > 0 {
        owner_before(nets, (i - 1) as nat, nets[i - 1].endpoints@.len(), e)
    } else {
        None
    }
}

/// The findings about endpoint `j` of net `i`.
pub open spec fn endpoint_issues(p: ProjectFacts, i: int, j: int) -> Seq<Issue> {
    let net = p.nets@[i];
    let name = net.name@;
    let e = net.endpoints@[j]@;
    let path = "/nets/"@ + name + "/"@ + e;
    match endpoint_parts(e) {
        None => seq![
            Issue {
                error: true,
                code: "NET002"@,
                message: "invalid endpoint '"@ + e + "'"@,
                help: Some("use REF.PIN, for example U1.3 or U1.VCC"@),
                path,
            },
        ],
        Some((r, pin)) => when(!views(p.components@).contains(r), error("NET003"@, "unknown component '"@ + r + "'"@, path))
            + when(pin.len() == 0, error("NET004"@, "pin name cannot be empty"@, path)) + when(
            views(net.endpoints@).take(j).contains(e),
            error("NET005"@, "duplicate endpoint '"@ + e + "' in net '"@ + name + "'"@, path),
        ) + match owner_before(p.nets@, i as nat, j as nat, e) {
            Some(prev) => when(
                prev != name,
                error("NET006"@, "endpoint '"@ + e + "' is assigned to both '"@ + prev + "' and '"@ + name + "'"@, path),
            ),
            None => Seq::empty(),
        },
    }
}

/// The findings about the first `j` endpoints of net `i`.
pub open spec fn endpoints_upto(p: ProjectFacts, i: int, j: nat) -> Seq<Issue>
    decreases j,
{
    if j == 0 {
        Seq::empty()
    } else {
        endpoints_upto(p, i, (j - 1) as nat) + endpoint_issues(p, i, j - 1)
    }
}

/// The findings about net `i`.
pub open spec fn one_net_issues(p: ProjectFacts, i: int) -> Seq<Issue> {
    let net = p.nets@[i];
    when(
        net.endpoints@.len() < 2,
        Issue {
            error: false,
            code: "NET001"@,
            message: "net '"@ + net.name@ + "' has fewer than two endpoints"@,
            help: None,
            path: "/nets/"@ + net.name@,
        },
    ) + endpoints_upto(p, i, net.endpoints@.len())
}

/// The findings about the first `k` nets.
pub open spec fn nets_upto(p: ProjectFacts, k: nat) -> Seq<Issue>
    decreases k,
{
    if k == 0 {
        Seq::empty()
    } else {
        nets_upto(p, (k - 1) as nat) + one_net_issues(p, k - 1)
    }
}

/// The findings about the nets.
pub open spec fn net_issues(p: ProjectFacts) -> Seq<Issue> {
    nets_upto(p, p.nets@.len())
}

/// Whether `e` is among the first `j` strings of `v`.
fn listed_before(v: &Vec<String>, j: usize, e: &str) -> (r: bool)
    requires
        j <= v@.len(),
    ensures
        r == views(v@).take(j as int).contains(e@),
{
    let mut k: usize = 0;
    while k < j
        invariant
            k <= j <= v@.len(),
            forall|t: int| 0 <= t < k ==> views(v@).take(j as int)[t] != e@,
        decreases j - k,
    {
        assert(views(v@).take(j as int)[k as int] == v@[k as int]@);
        if same_text(v[k].as_str(), e) {
            assert(views(v@).take(j as int)[k as int] == e@);
            return true;
        }
        k += 1;
    }
    false
}

/// The net that last listed `e` before endpoint `j` of net `i`.
fn owner_index(nets: &Vec<NetEntry>, i: usize, j: usize, e: &str) -> (r: Option<usize>)
    requires
        i < nets@.len(),
        j <= nets@[i as int].endpoints@.len(),
    ensures
        match r {
            Some(k) => k < nets@.len() && owner_before(nets@, i as nat, j as nat, e@) == Some(nets@[k as int].name@),
            None => owner_before(nets@, i as nat, j as nat, e@) is None,
        },
    decreases i, j,
{
    if j > 0 {
        if same_text(nets[i].endpoints[j - 1].as_str(), e) {
            Some(i)
        } else {
            owner_index(nets, i, j - 1, e)
        }
    } else if i > 0 {
        owner_index(nets, i - 1, nets[i - 1].endpoints.len(), e)
    } else {
        None
    }
}

fn check_endpoint(
    p: &ProjectFacts,
    i: usize,
    j: usize,
    map: &SourceMap,
    file: &str,
    out: &mut Vec<Diagnostic>,
    Ghost(before): Ghost<Seq<Issue>>,
)
    requires
        i < p.nets@.len(),
        j < p.nets@[i as int].endpoints@.len(),
        map.bytes().len() < usize::MAX,
        reports(old(out)@, before, file@, map.bytes()),
    ensures
        reports(final(out)@, before + endpoint_issues(*p, i as int, j as int), file@, map.bytes()),
{
    let net = &p.nets[i];
    let e = net.endpoints[j].as_str();
    let path = text4("/nets/", net.name.as_str(), "/", e);
    match parse_endpoint(e) {
        None => {
            let m = text3("invalid endpoint '", e, "'");
            emit(out, Ghost(before), map, file, true, "NET002", m.as_str(), Some("use REF.PIN, for example U1.3 or U1.VCC"), path.as_str());
            assert(before.push(
                Issue {
                    error: true,
                    code: "NET002"@,
                    message: m@,
                    help: Some("use REF.PIN, for example U1.3 or U1.VCC"@),
                    path: path@,
                },
            ) =~= before + endpoint_issues(*p, i as int, j as int));
        },
        Some((r, pin)) => {
            let known = contains_string(&p.components, r.as_str());
            let m3 = text3("unknown component '", r.as_str(), "'");
            emit_if(!known, out, Ghost(before), map, file, true, "NET003", m3.as_str(), None, path.as_str());
            let ghost a1 = before + when(!known, error("NET003"@, m3@, path@));
            let empty_pin = pin.as_str().is_empty();
            emit_if(empty_pin, out, Ghost(a1), map, file, true, "NET004", "pin name cannot be empty", None, path.as_str());
            let ghost a2 = a1 + when(empty_pin, error("NET004"@, "pin name cannot be empty"@, path@));
            let dup = listed_before(&net.endpoints, j, e);
            let m5 = text5("duplicate endpoint '", e, "' in net '", net.name.as_str(), "'");
            emit_if(dup, out, Ghost(a2), map, file, true, "NET005", m5.as_str(), None, path.as_str());
            let ghost a3 = a2 + when(dup, error("NET005"@, m5@, path@));
            match owner_index(&p.nets, i, j, e) {
                Some(k) => {
                    let prev = &p.nets[k].name;
                    let differs = !(*prev == net.name);
                    let mut m6 = text5("endpoint '", e, "' is assigned to both '", prev.as_str(), "' and '");
                    m6.append(net.name.as_str());
                    m6.append("'");
                    emit_if(differs, out, Ghost(a3), map, file, true, "NET006", m6.as_str(), None, path.as_str());
                    assert(a3 + when(differs, error("NET006"@, m6@, path@)) =~= before + endpoint_issues(*p, i as int, j as int));
                },
                None => {
                    assert(a3 =~= before + endpoint_issues(*p, i as int, j as int));
                },
            }
        },
    }
}

fn check_nets(p: &ProjectFacts, map: &SourceMap, file: &str, out: &mut Vec<Diagnostic>, Ghost(before): Ghost<Seq<Issue>>)
    requires
        map.bytes().len() < usize::MAX,
        reports(old(out)@, before, file@, map.bytes()),
    ensures
        reports(final(out)@, before + net_issues(*p), file@, map.bytes()),
{
    let mut i: usize = 0;
    assert(before =~= before + nets_upto(*p, 0));
    while i < p.nets.len()
        invariant
            i <= p.nets@.len(),
            map.bytes().len() < usize::MAX,
            reports(out@, before + nets_upto(*p, i as nat), file@, map.bytes()),
        decreases p.nets.len() - i,
    {
        let net = &p.nets[i];
        let ghost acc = before + nets_upto(*p, i as nat);
        let m = text3("net '", net.name.as_str(), "' has fewer than two endpoints");
        let pth = text2("/nets/", net.name.as_str());
        let few = net.endpoints.len() < 2;
        emit_if(few, out, Ghost(acc), map, file, false, "NET001", m.as_str(), None, pth.as_str());
        let ghost head = acc + when(
            few,
            Issue { error: false, code: "NET001"@, message: m@, help: None, path: pth@ },
        );
        let mut j: usize = 0;
        assert(head =~= head + endpoints_upto(*p, i as int, 0));
        while j < net.endpoints.len()
            invariant
                i < p.nets@.len(),
                net == &p.nets@[i as int],
                j <= net.endpoints@.len(),
                map.bytes().len() < usize::MAX,
                reports(out@, head + endpoints_upto(*p, i as int, j as nat), file@, map.bytes()),
            decreases net.endpoints.len() - j,
        {
            check_endpoint(p, i, j, map, file, out, Ghost(head + endpoints_upto(*p, i as int, j as nat)));
            assert(head + endpoints_upto(*p, i as int, j as nat) + endpoint_issues(*p, i as int, j as int) =~= head
                + endpoints_upto(*p, i as int, (j + 1) as nat));
            j += 1;
        }
        assert(head + endpoints_upto(*p, i as int, net.endpoints@.len()) =~= before + nets_upto(*p, (i + 1) as nat));
        i += 1;
    }
}


/// Whether a net named `x` exists.
fn net_defined(nets: &Vec<NetEntry>, x: &str) -> (r: bool)
    ensures
        r == net_names(nets@).contains(x@),
{
    let mut k: usize = 0;
    while k < nets.len()
        invariant
            k <= nets@.len(),
            forall|t: int| 0 <= t < k ==> net_names(nets@)[t] != x@,
        decreases nets.len() - k,
    {
        assert(net_names(nets@)[k as int] == nets@[k as int].name@);
        if same_text(nets[k].name.as_str(), x) {
            return true;
        }
        k += 1;
    }
    false
}

/// The components that the placements place.
pub open spec fn refs_of(v: Seq<PlacedPart>) -> Seq<Seq<char>> {
    v.map_values(|q: PlacedPart| q.reference@)
}

/// Whether some placement places `x`.
fn is_placed(v: &Vec<PlacedPart>, x: &str) -> (r: bool)
    ensures
        r == refs_of(v@).contains(x@),
{
    let mut k: usize = 0;
    while k < v.len()
        invariant
            k <= v@.len(),
            forall|t: int| 0 <= t < k ==> refs_of(v@)[t] != x@,
        decreases v.len() - k,
    {
        assert(refs_of(v@)[k as int] == v@[k as int].reference@);
        if same_text(v[k].reference.as_str(), x) {
            return true;
        }
        k += 1;
    }
    false
}

/// The findings about component `k`: missing schematic or PCB placement.
pub open spec fn component_issue(p: ProjectFacts, k: int) -> Seq<Issue> {
    let c = p.components@[k]@;
    when(
        !views(p.schematic_placements@).contains(c),
        error("SCH001"@, "missing schematic placement for '"@ + c + "'"@, "/schematic/placement/"@ + c),
    ) + when(
        !refs_of(p.pcb_placements@).contains(c),
        error("PCB003"@, "missing PCB placement for '"@ + c + "'"@, "/pcb/placement/"@ + c),
    )
}

/// The findings about the first `k` components.
pub open spec fn components_upto(p: ProjectFacts, k: nat) -> Seq<Issue>
    decreases k,
{
    if k == 0 {
        Seq::empty()
    } else {
        components_upto(p, (k - 1) as nat) + component_issue(p, k - 1)
    }
}

/// The finding about schematic placement `k`: it must place a known component.
pub open spec fn schematic_issue(p: ProjectFacts, k: int) -> Seq<Issue> {
    let s = p.schematic_placements@[k]@;
    when(
        !views(p.components@).contains(s),
        error("SCH002"@, "placement references unknown component '"@ + s + "'"@, "/schematic/placement/"@ + s),
    )
}

/// The findings about the first `k` schematic placements.
pub open spec fn schematic_upto(p: ProjectFacts, k: nat) -> Seq<Issue>
    decreases k,
{
    if k == 0 {
        Seq::empty()
    } else {
        schematic_upto(p, (k - 1) as nat) + schematic_issue(p, k - 1)
    }
}

/// The finding about PCB placement `k`: it must place a known component.
pub open spec fn placement_issue(p: ProjectFacts, k: int) -> Seq<Issue> {
    let r = p.pcb_placements@[k].reference@;
    when(
        !views(p.components@).contains(r),
        error("PCB004"@, "placement references unknown component '"@ + r + "'"@, "/pcb/placement/"@ + r),
    )
}

/// The findings about the first `k` PCB placements.
pub open spec fn placements_upto(p: ProjectFacts, k: nat) -> Seq<Issue>
    decreases k,
{
    if k == 0 {
        Seq::empty()
    } else {
        placements_upto(p, (k - 1) as nat) + placement_issue(p, k - 1)
    }
}

/// The finding about PCB placement `k`: its origin must be on the board.
pub open spec fn origin_issue(p: ProjectFacts, k: int) -> Seq<Issue> {
    let q = p.pcb_placements@[k];
    when(
        !q.inside,
        error(
            "PCB013"@,
            "component '"@ + q.reference@ + "' origin is outside the board"@,
            "/pcb/placement/"@ + q.reference@ + "/at"@,
        ),
    )
}

/// The findings about the origins of the first `k` PCB placements.
pub open spec fn origins_upto(p: ProjectFacts, k: nat) -> Seq<Issue>
    decreases k,
{
    if k == 0 {
        Seq::empty()
    } else {
        origins_upto(p, (k - 1) as nat) + origin_issue(p, k - 1)
    }
}

fn check_components(p: &ProjectFacts, map: &SourceMap, file: &str, out: &mut Vec<Diagnostic>, Ghost(before): Ghost<Seq<Issue>>)
    requires
        map.bytes().len() < usize::MAX,
        reports(old(out)@, before, file@, map.bytes()),
    ensures
        reports(final(out)@, before + components_upto(*p, p.components@.len()), file@, map.bytes()),
{
    let mut k: usize = 0;
    assert(before =~= before + components_upto(*p, 0));
    while k < p.components.len()
        invariant
            k <= p.components@.len(),
            map.bytes().len() < usize::MAX,
            reports(out@, before + components_upto(*p, k as nat), file@, map.bytes()),
        decreases p.components.len() - k,
    {
        let c = p.components[k].as_str();
        let ghost acc = before + components_upto(*p, k as nat);
        let on_sheet = contains_string(&p.schematic_placements, c);
        let m1 = text3("missing schematic placement for '", c, "'");
        let p1 = text2("/schematic/placement/", c);
        emit_if(!on_sheet, out, Ghost(acc), map, file, true, "SCH001", m1.as_str(), None, p1.as_str());
        let ghost a1 = acc + when(!on_sheet, error("SCH001"@, m1@, p1@));
        let on_board = is_placed(&p.pcb_placements, c);
        let m2 = text3("missing PCB placement for '", c, "'");
        let p2 = text2("/pcb/placement/", c);
        emit_if(!on_board, out, Ghost(a1), map, file, true, "PCB003", m2.as_str(), None, p2.as_str());
        assert(a1 + when(!on_board, error("PCB003"@, m2@, p2@)) =~= before + components_upto(*p, (k + 1) as nat));
        k += 1;
    }
}

fn check_placements(p: &ProjectFacts, map: &SourceMap, file: &str, out: &mut Vec<Diagnostic>, Ghost(before): Ghost<Seq<Issue>>)
    requires
        map.bytes().len() < usize::MAX,
        reports(old(out)@, before, file@, map.bytes()),
    ensures
        reports(
            final(out)@,
            before + schematic_upto(*p, p.schematic_placements@.len()) + placements_upto(*p, p.pcb_placements@.len())
                + origins_upto(*p, p.pcb_placements@.len()),
            file@,
            map.bytes(),
        ),
{
    let mut k: usize = 0;
    assert(before =~= before + schematic_upto(*p, 0));
    while k < p.schematic_placements.len()
        invariant
            k <= p.schematic_placements@.len(),
            map.bytes().len() < usize::MAX,
            reports(out@, before + schematic_upto(*p, k as nat), file@, map.bytes()),
        decreases p.schematic_placements.len() - k,
    {
        let s = p.schematic_placements[k].as_str();
        let ghost acc = before + schematic_upto(*p, k as nat);
        let known = contains_string(&p.components, s);
        let m = text3("placement references unknown component '", s, "'");
        let pth = text2("/schematic/placement/", s);
        emit_if(!known, out, Ghost(acc), map, file, true, "SCH002", m.as_str(), None, pth.as_str());
        assert(acc + when(!known, error("SCH002"@, m@, pth@)) =~= before + schematic_upto(*p, (k + 1) as nat));
        k += 1;
    }
    let ghost b1 = before + schematic_upto(*p, p.schematic_placements@.len());
    let mut k: usize = 0;
    assert(b1 =~= b1 + placements_upto(*p, 0));
    while k < p.pcb_placements.len()
        invariant
            k <= p.pcb_placements@.len(),
            map.bytes().len() < usize::MAX,
            reports(out@, b1 + placements_upto(*p, k as nat), file@, map.bytes()),
        decreases p.pcb_placements.len() - k,
    {
        let r = p.pcb_placements[k].reference.as_str();
        let ghost acc = b1 + placements_upto(*p, k as nat);
        let known = contains_string(&p.components, r);
        let m = text3("placement references unknown component '", r, "'");
        let pth = text2("/pcb/placement/", r);
        emit_if(!known, out, Ghost(acc), map, file, true, "PCB004", m.as_str(), None, pth.as_str());
        assert(acc + when(!known, error("PCB004"@, m@, pth@)) =~= b1 + placements_upto(*p, (k + 1) as nat));
        k += 1;
    }
    let ghost b2 = b1 + placements_upto(*p, p.pcb_placements@.len());
    let mut k: usize = 0;
    assert(b2 =~= b2 + origins_upto(*p, 0));
    while k < p.pcb_placements.len()
        invariant
            k <= p.pcb_placements@.len(),
            map.bytes().len() < usize::MAX,
            reports(out@, b2 + origins_upto(*p, k as nat), file@, map.bytes()),
        decreases p.pcb_placements.len() - k,
    {
        let q = &p.pcb_placements[k];
        let ghost acc = b2 + origins_upto(*p, k as nat);
        let m = text3("component '", q.reference.as_str(), "' origin is outside the board");
        let pth = text3("/pcb/placement/", q.reference.as_str(), "/at");
        emit_if(!q.inside, out, Ghost(acc), map, file, true, "PCB013", m.as_str(), None, pth.as_str());
        assert(acc + when(!q.inside, error("PCB013"@, m@, pth@)) =~= b2 + origins_upto(*p, (k + 1) as nat));
        k += 1;
    }
}


/// The pointer of route `x` of the routes of `net`.
pub open spec fn route_path(net: Seq<char>, x: nat) -> Seq<char> {
    "/pcb/routes/"@ + net + "/"@ + decimal(x)
}

/// One finding per printed path point that lies off the board, for the first `t` of them.
pub open spec fn off_board_upto(path: Seq<char>, pts: Seq<String>, t: nat) -> Seq<Issue>
    decreases t,
{
    if t == 0 {
        Seq::empty()
    } else {
        off_board_upto(path, pts, (t - 1) as nat).push(
            error("PCB008"@, "route point "@ + pts[t - 1]@ + " is outside the board"@, path + "/path"@),
        )
    }
}

/// Whether a layer name is an outer copper layer.
pub open spec fn outer_copper(layer: Seq<char>) -> bool {
    layer == "F.Cu"@ || layer == "B.Cu"@
}

/// The findings about route `x` of `net`.
pub open spec fn route_issues(net: Seq<char>, x: nat, r: RouteFacts) -> Seq<Issue> {
    let path = route_path(net, x);
    when(r.points < 2, error("PCB006"@, "route needs at least two points"@, path)) + when(
        r.width_invalid,
        error("PCB014"@, "route width must be positive"@, path + "/width"@),
    ) + when(
        !outer_copper(r.layer@),
        error("PCB007"@, "unsupported copper layer '"@ + r.layer@ + "'"@, path + "/layer"@),
    ) + off_board_upto(path, r.outside_points@, r.outside_points@.len())
}

/// The findings about the first `x` routes of route set `k`.
pub open spec fn routes_upto(p: ProjectFacts, k: int, x: nat) -> Seq<Issue>
    decreases x,
{
    if x == 0 {
        Seq::empty()
    } else {
        let set = p.routes@[k];
        routes_upto(p, k, (x - 1) as nat) + route_issues(set.net@, (x - 1) as nat, set.routes@[x - 1])
    }
}

/// The findings about route set `k`.
pub open spec fn route_set_issues(p: ProjectFacts, k: int) -> Seq<Issue> {
    let set = p.routes@[k];
    when(
        !net_names(p.nets@).contains(set.net@),
        error("PCB005"@, "route uses undefined net '"@ + set.net@ + "'"@, "/pcb/routes/"@ + set.net@),
    ) + routes_upto(p, k, set.routes@.len())
}

/// The findings about the first `k` route sets.
pub open spec fn route_sets_upto(p: ProjectFacts, k: nat) -> Seq<Issue>
    decreases k,
{
    if k == 0 {
        Seq::empty()
    } else {
        route_sets_upto(p, (k - 1) as nat) + route_set_issues(p, k - 1)
    }
}

fn check_route(
    net: &str,
    x: usize,
    r: &RouteFacts,
    map: &SourceMap,
    file: &str,
    out: &mut Vec<Diagnostic>,
    Ghost(before): Ghost<Seq<Issue>>,
)
    requires
        map.bytes().len() < usize::MAX,
        reports(old(out)@, before, file@, map.bytes()),
    ensures
        reports(final(out)@, before + route_issues(net@, x as nat, *r), file@, map.bytes()),
{
    let path = numbered(text3("/pcb/routes/", net, "/").as_str(), x, "");
    let ghost rp = route_path(net@, x as nat);
    proof {
        reveal_strlit("");
        assert(path@ =~= rp);
    }
    emit_if(r.points < 2, out, Ghost(before), map, file, true, "PCB006", "route needs at least two points", None, path.as_str());
    let ghost a1 = before + when(r.points < 2, error("PCB006"@, "route needs at least two points"@, rp));
    let pw = text2(path.as_str(), "/width");
    emit_if(r.width_invalid, out, Ghost(a1), map, file, true, "PCB014", "route width must be positive", None, pw.as_str());
    let ghost a2 = a1 + when(r.width_invalid, error("PCB014"@, "route width must be positive"@, rp + "/width"@));
    let outer = same_text(r.layer.as_str(), "F.Cu") || same_text(r.layer.as_str(), "B.Cu");
    let m = text3("unsupported copper layer '", r.layer.as_str(), "'");
    let pl = text2(path.as_str(), "/layer");
    emit_if(!outer, out, Ghost(a2), map, file, true, "PCB007", m.as_str(), None, pl.as_str());
    let ghost a3 = a2 + when(!outer_copper(r.layer@), error("PCB007"@, m@, rp + "/layer"@));
    let pp = text2(path.as_str(), "/path");
    let mut t: usize = 0;
    assert(a3 =~= a3 + off_board_upto(rp, r.outside_points@, 0));
    while t < r.outside_points.len()
        invariant
            t <= r.outside_points@.len(),
            pp@ == rp + "/path"@,
            map.bytes().len() < usize::MAX,
            reports(out@, a3 + off_board_upto(rp, r.outside_points@, t as nat), file@, map.bytes()),
        decreases r.outside_points.len() - t,
    {
        let m8 = text3("route point ", r.outside_points[t].as_str(), " is outside the board");
        emit(out, Ghost(a3 + off_board_upto(rp, r.outside_points@, t as nat)), map, file, true, "PCB008", m8.as_str(), None, pp.as_str());
        assert((a3 + off_board_upto(rp, r.outside_points@, t as nat)).push(error("PCB008"@, m8@, pp@)) =~= a3
            + off_board_upto(rp, r.outside_points@, (t + 1) as nat));
        t += 1;
    }
    assert(a3 + off_board_upto(rp, r.outside_points@, r.outside_points@.len()) =~= before + route_issues(net@, x as nat, *r));
}

fn check_routes(p: &ProjectFacts, map: &SourceMap, file: &str, out: &mut Vec<Diagnostic>, Ghost(before): Ghost<Seq<Issue>>)
    requires
        map.bytes().len() < usize::MAX,
        reports(old(out)@, before, file@, map.bytes()),
    ensures
        reports(final(out)@, before + route_sets_upto(*p, p.routes@.len()), file@, map.bytes()),
{
    let mut k: usize = 0;
    assert(before =~= before + route_sets_upto(*p, 0));
    while k < p.routes.len()
        invariant
            k <= p.routes@.len(),
            map.bytes().len() < usize::MAX,
            reports(out@, before + route_sets_upto(*p, k as nat), file@, map.bytes()),
        decreases p.routes.len() - k,
    {
        let set = &p.routes[k];
        let ghost acc = before + route_sets_upto(*p, k as nat);
        let defined = net_defined(&p.nets, set.net.as_str());
        let m = text3("route uses undefined net '", set.net.as_str(), "'");
        let pth = text2("/pcb/routes/", set.net.as_str());
        emit_if(!defined, out, Ghost(acc), map, file, true, "PCB005", m.as_str(), None, pth.as_str());
        let ghost head = acc + when(!defined, error("PCB005"@, m@, pth@));
        let mut x: usize = 0;
        assert(head =~= head + routes_upto(*p, k as int, 0));
        while x < set.routes.len()
            invariant
                k < p.routes@.len(),
                set == &p.routes@[k as int],
                x <= set.routes@.len(),
                map.bytes().len() < usize::MAX,
                reports(out@, head + routes_upto(*p, k as int, x as nat), file@, map.bytes()),
            decreases set.routes.len() - x,
        {
            check_route(set.net.as_str(), x, &set.routes[x], map, file, out, Ghost(head + routes_upto(*p, k as int, x as nat)));
            assert(head + routes_upto(*p, k as int, x as nat) + route_issues(set.net@, x as nat, set.routes@[x as int])
                =~= head + routes_upto(*p, k as int, (x + 1) as nat));
            x += 1;
        }
        assert(head + routes_upto(*p, k as int, set.routes@.len()) =~= before + route_sets_upto(*p, (k + 1) as nat));
        k += 1;
    }
}

/// The findings about via `k`.
pub open spec fn via_issue(p: ProjectFacts, k: nat) -> Seq<Issue> {
    let v = p.vias@[k as int];
    let path = "/pcb/vias/"@ + decimal(k);
    when(
        !net_names(p.nets@).contains(v.net@),
        error("PCB009"@, "via uses undefined net '"@ + v.net@ + "'"@, path),
    ) + when(!v.inside, error("PCB010"@, "via is outside the board"@, path + "/at"@))
}

/// The findings about the first `k` vias.
pub open spec fn vias_upto(p: ProjectFacts, k: nat) -> Seq<Issue>
    decreases k,
{
    if k == 0 {
        Seq::empty()
    } else {
        vias_upto(p, (k - 1) as nat) + via_issue(p, (k - 1) as nat)
    }
}

/// `n` copies of the finding `i`.
pub open spec fn repeated(i: Issue, n: nat) -> Seq<Issue> {
    Seq::new(n, |t: int| i)
}

/// The findings about zone `k`.
pub open spec fn zone_issue(p: ProjectFacts, k: nat) -> Seq<Issue> {
    let z = p.zones@[k as int];
    let path = "/pcb/zones/"@ + decimal(k);
    when(
        !net_names(p.nets@).contains(z.net@),
        error("PCB011"@, "zone uses undefined net '"@ + z.net@ + "'"@, path),
    ) + when(z.points < 3, error("PCB012"@, "zone needs at least three points"@, path + "/outline"@)) + when(
        !outer_copper(z.layer@),
        error("PCB015"@, "unsupported zone layer '"@ + z.layer@ + "'"@, path + "/layer"@),
    ) + repeated(error("PCB016"@, "zone point is outside the board"@, path + "/outline"@), z.outside_points as nat)
}

/// The findings about the first `k` zones.
pub open spec fn zones_upto(p: ProjectFacts, k: nat) -> Seq<Issue>
    decreases k,
{
    if k == 0 {
        Seq::empty()
    } else {
        zones_upto(p, (k - 1) as nat) + zone_issue(p, (k - 1) as nat)
    }
}

/// The findings about hole `k`.
pub open spec fn hole_issue(p: ProjectFacts, k: nat) -> Seq<Issue> {
    let h = p.holes@[k as int];
    let path = "/pcb/holes/"@ + decimal(k);
    when(!h.diameter_positive, error("PCB017"@, "hole diameter must be positive"@, path + "/diameter"@)) + when(
        !h.inside,
        error("PCB018"@, "hole is outside the board"@, path + "/at"@),
    )
}

/// The findings about the first `k` holes.
pub open spec fn holes_upto(p: ProjectFacts, k: nat) -> Seq<Issue>
    decreases k,
{
    if k == 0 {
        Seq::empty()
    } else {
        holes_upto(p, (k - 1) as nat) + hole_issue(p, (k - 1) as nat)
    }
}

/// The findings about schematic wire `k`.
pub open spec fn wire_issue(p: ProjectFacts, k: nat) -> Seq<Issue> {
    let w = p.wires@[k as int];
    when(
        !net_names(p.nets@).contains(w.net@),
        error("SCH003"@, "wire uses undefined net '"@ + w.net@ + "'"@, "/schematic/wires/"@ + decimal(k) + "/net"@),
    ) + when(
        w.points < 2,
        error("SCH004"@, "schematic wire needs at least two points"@, "/schematic/wires/"@ + decimal(k) + "/path"@),
    )
}

/// The findings about the first `k` schematic wires.
pub open spec fn wires_upto(p: ProjectFacts, k: nat) -> Seq<Issue>
    decreases k,
{
    if k == 0 {
        Seq::empty()
    } else {
        wires_upto(p, (k - 1) as nat) + wire_issue(p, (k - 1) as nat)
    }
}

/// The finding about the design rules.
pub open spec fn rule_issues(p: ProjectFacts) -> Seq<Issue> {
    when(
        !p.rules_valid,
        error("RULE001"@, "rules must be positive and via_drill must be smaller than via_size"@, "/rules"@),
    )
}

fn check_vias(p: &ProjectFacts, map: &SourceMap, file: &str, out: &mut Vec<Diagnostic>, Ghost(before): Ghost<Seq<Issue>>)
    requires
        map.bytes().len() < usize::MAX,
        reports(old(out)@, before, file@, map.bytes()),
    ensures
        reports(final(out)@, before + vias_upto(*p, p.vias@.len()), file@, map.bytes()),
{
    let mut k: usize = 0;
    assert(before =~= before + vias_upto(*p, 0));
    while k < p.vias.len()
        invariant
            k <= p.vias@.len(),
            map.bytes().len() < usize::MAX,
            reports(out@, before + vias_upto(*p, k as nat), file@, map.bytes()),
        decreases p.vias.len() - k,
    {
        let v = &p.vias[k];
        let ghost acc = before + vias_upto(*p, k as nat);
        let path = numbered("/pcb/vias/", k, "");
        proof {
            reveal_strlit("");
            assert(path@ =~= "/pcb/vias/"@ + decimal(k as nat));
        }
        let defined = net_defined(&p.nets, v.net.as_str());
        let m = text3("via uses undefined net '", v.net.as_str(), "'");
        emit_if(!defined, out, Ghost(acc), map, file, true, "PCB009", m.as_str(), None, path.as_str());
        let ghost a1 = acc + when(!defined, error("PCB009"@, m@, path@));
        let pa = text2(path.as_str(), "/at");
        emit_if(!v.inside, out, Ghost(a1), map, file, true, "PCB010", "via is outside the board", None, pa.as_str());
        assert(a1 + when(!v.inside, error("PCB010"@, "via is outside the board"@, pa@)) =~= before + vias_upto(
            *p,
            (k + 1) as nat,
        ));
        k += 1;
    }
}

fn check_zones(p: &ProjectFacts, map: &SourceMap, file: &str, out: &mut Vec<Diagnostic>, Ghost(before): Ghost<Seq<Issue>>)
    requires
        map.bytes().len() < usize::MAX,
        reports(old(out)@, before, file@, map.bytes()),
    ensures
        reports(final(out)@, before + zones_upto(*p, p.zones@.len()), file@, map.bytes()),
{
    let mut k: usize = 0;
    assert(before =~= before + zones_upto(*p, 0));
    while k < p.zones.len()
        invariant
            k <= p.zones@.len(),
            map.bytes().len() < usize::MAX,
            reports(out@, before + zones_upto(*p, k as nat), file@, map.bytes()),
        decreases p.zones.len() - k,
    {
        let z = &p.zones[k];
        let ghost acc = before + zones_upto(*p, k as nat);
        let path = numbered("/pcb/zones/", k, "");
        proof {
            reveal_strlit("");
            assert(path@ =~= "/pcb/zones/"@ + decimal(k as nat));
        }
        let defined = net_defined(&p.nets, z.net.as_str());
        let m = text3("zone uses undefined net '", z.net.as_str(), "'");
        emit_if(!defined, out, Ghost(acc), map, file, true, "PCB011", m.as_str(), None, path.as_str());
        let ghost a1 = acc + when(!defined, error("PCB011"@, m@, path@));
        let po = text2(path.as_str(), "/outline");
        emit_if(z.points < 3, out, Ghost(a1), map, file, true, "PCB012", "zone needs at least three points", None, po.as_str());
        let ghost a2 = a1 + when(z.points < 3, error("PCB012"@, "zone needs at least three points"@, po@));
        let outer = same_text(z.layer.as_str(), "F.Cu") || same_text(z.layer.as_str(), "B.Cu");
        let m2 = text3("unsupported zone layer '", z.layer.as_str(), "'");
        let pl = text2(path.as_str(), "/layer");
        emit_if(!outer, out, Ghost(a2), map, file, true, "PCB015", m2.as_str(), None, pl.as_str());
        let ghost a3 = a2 + when(!outer_copper(z.layer@), error("PCB015"@, m2@, pl@));
        let ghost off = error("PCB016"@, "zone point is outside the board"@, po@);
        let mut t: usize = 0;
        assert(a3 =~= a3 + repeated(off, 0));
        while t < z.outside_points
            invariant
                t <= z.outside_points,
                off == error("PCB016"@, "zone point is outside the board"@, po@),
                map.bytes().len() < usize::MAX,
                reports(out@, a3 + repeated(off, t as nat), file@, map.bytes()),
            decreases z.outside_points - t,
        {
            emit(out, Ghost(a3 + repeated(off, t as nat)), map, file, true, "PCB016", "zone point is outside the board", None, po.as_str());
            assert((a3 + repeated(off, t as nat)).push(off) =~= a3 + repeated(off, (t + 1) as nat));
            t += 1;
        }
        assert(a3 + repeated(off, z.outside_points as nat) =~= before + zones_upto(*p, (k + 1) as nat));
        k += 1;
    }
}

fn check_holes_and_wires(p: &ProjectFacts, map: &SourceMap, file: &str, out: &mut Vec<Diagnostic>, Ghost(before): Ghost<Seq<Issue>>)
    requires
        map.bytes().len() < usize::MAX,
        reports(old(out)@, before, file@, map.bytes()),
    ensures
        reports(
            final(out)@,
            before + holes_upto(*p, p.holes@.len()) + wires_upto(*p, p.wires@.len()) + rule_issues(*p),
            file@,
            map.bytes(),
        ),
{
    let mut k: usize = 0;
    assert(before =~= before + holes_upto(*p, 0));
    while k < p.holes.len()
        invariant
            k <= p.holes@.len(),
            map.bytes().len() < usize::MAX,
            reports(out@, before + holes_upto(*p, k as nat), file@, map.bytes()),
        decreases p.holes.len() - k,
    {
        let h = &p.holes[k];
        let ghost acc = before + holes_upto(*p, k as nat);
        let pd = numbered("/pcb/holes/", k, "/diameter");
        emit_if(!h.diameter_positive, out, Ghost(acc), map, file, true, "PCB017", "hole diameter must be positive", None, pd.as_str());
        let ghost a1 = acc + when(!h.diameter_positive, error("PCB017"@, "hole diameter must be positive"@, pd@));
        let pa = numbered("/pcb/holes/", k, "/at");
        emit_if(!h.inside, out, Ghost(a1), map, file, true, "PCB018", "hole is outside the board", None, pa.as_str());
        assert(a1 + when(!h.inside, error("PCB018"@, "hole is outside the board"@, pa@)) =~= before + holes_upto(
            *p,
            (k + 1) as nat,
        ));
        k += 1;
    }
    let ghost b1 = before + holes_upto(*p, p.holes@.len());
    let mut k: usize = 0;
    assert(b1 =~= b1 + wires_upto(*p, 0));
    while k < p.wires.len()
        invariant
            k <= p.wires@.len(),
            map.bytes().len() < usize::MAX,
            reports(out@, b1 + wires_upto(*p, k as nat), file@, map.bytes()),
        decreases p.wires.len() - k,
    {
        let w = &p.wires[k];
        let ghost acc = b1 + wires_upto(*p, k as nat);
        let defined = net_defined(&p.nets, w.net.as_str());
        let m = text3("wire uses undefined net '", w.net.as_str(), "'");
        let pn = numbered("/schematic/wires/", k, "/net");
        emit_if(!defined, out, Ghost(acc), map, file, true, "SCH003", m.as_str(), None, pn.as_str());
        let ghost a1 = acc + when(!defined, error("SCH003"@, m@, pn@));
        let pp = numbered("/schematic/wires/", k, "/path");
        emit_if(w.points < 2, out, Ghost(a1), map, file, true, "SCH004", "schematic wire needs at least two points", None, pp.as_str());
        assert(a1 + when(w.points < 2, error("SCH004"@, "schematic wire needs at least two points"@, pp@)) =~= b1
            + wires_upto(*p, (k + 1) as nat));
        k += 1;
    }
    let ghost b2 = b1 + wires_upto(*p, p.wires@.len());
    emit_if(
        !p.rules_valid,
        out,
        Ghost(b2),
        map,
        file,
        true,
        "RULE001",
        "rules must be positive and via_drill must be smaller than via_size",
        None,
        "/rules",
    );
}

/// Every finding of the structural checks, in the order they are reported: header and
/// outline, nets and endpoints, components, placements, routes, vias, zones, holes, wires,
/// and the design rules.
pub open spec fn basic_issues(p: ProjectFacts) -> Seq<Issue> {
    header_issues(p) + net_issues(p) + components_upto(p, p.components@.len()) + schematic_upto(
        p,
        p.schematic_placements@.len(),
    ) + placements_upto(p, p.pcb_placements@.len()) + origins_upto(p, p.pcb_placements@.len()) + route_sets_upto(
        p,
        p.routes@.len(),
    ) + vias_upto(p, p.vias@.len()) + zones_upto(p, p.zones@.len()) + holes_upto(p, p.holes@.len()) + wires_upto(
        p,
        p.wires@.len(),
    ) + rule_issues(p)
}

/// Runs every structural check on a project document whose text is `source` and returns the
/// findings, each located at its JSON pointer.
pub fn validate_basic(project: &ProjectFacts, file: &str, source: &str) -> (out: Vec<Diagnostic>)
    requires
        source.spec_bytes().len() < usize::MAX,
    ensures
        reports(out@, basic_issues(*project), file@, source.spec_bytes()),
{
    let map = SourceMap::new(source);
    let mut out: Vec<Diagnostic> = Vec::new();
    let ghost p = *project;
    check_header(project, &map, file, &mut out, Ghost(Seq::empty()));
    let ghost a = Seq::<Issue>::empty() + header_issues(p);
    check_nets(project, &map, file, &mut out, Ghost(a));
    let ghost a = a + net_issues(p);
    check_components(project, &map, file, &mut out, Ghost(a));
    let ghost a = a + components_upto(p, p.components@.len());
    check_placements(project, &map, file, &mut out, Ghost(a));
    let ghost a = a + schematic_upto(p, p.schematic_placements@.len()) + placements_upto(p, p.pcb_placements@.len())
        + origins_upto(p, p.pcb_placements@.len());
    check_routes(project, &map, file, &mut out, Ghost(a));
    let ghost a = a + route_sets_upto(p, p.routes@.len());
    check_vias(project, &map, file, &mut out, Ghost(a));
    let ghost a = a + vias_upto(p, p.vias@.len());
    check_zones(project, &map, file, &mut out, Ghost(a));
    let ghost a = a + zones_upto(p, p.zones@.len());
    check_holes_and_wires(project, &map, file, &mut out, Ghost(a));
    assert(a + holes_upto(p, p.holes@.len()) + wires_upto(p, p.wires@.len()) + rule_issues(p) =~= basic_issues(p));
    out
}


/// A pin of a resolved library symbol: its number and, when it has one, its name.
#[derive(Debug)]
pub struct PinFacts {
    pub number: String,
    pub name: Option<String>,
}

/// The pins of the symbol resolved for a component.
#[derive(Debug)]
pub struct LibraryPins {
    pub reference: String,
    pub pins: Vec<PinFacts>,
}

/// Index of the first resolved symbol of component `r` at or after `from`.
pub open spec fn library_index(libs: Seq<LibraryPins>, r: Seq<char>, from: int) -> Option<int>
    decreases libs.len() - from,
{
    if from < 0 || from >= libs.len() {
        None
    } else if libs[from].reference@ == r {
        Some(from)
    } else {
        library_index(libs, r, from + 1)
    }
}

/// Whether pin `p` is addressed by `q`: by its number or by its name.
pub open spec fn pin_matches(p: PinFacts, q: Seq<char>) -> bool {
    p.number@ == q || (p.name matches Some(n) && n@ == q)
}

/// The numbers of the first `n` pins that `q` addresses.
pub open spec fn matching_numbers(pins: Seq<PinFacts>, q: Seq<char>, n: nat) -> Seq<Seq<char>>
    decreases n,
{
    if n == 0 {
        Seq::empty()
    } else {
        matching_numbers(pins, q, (n - 1) as nat) + if pin_matches(pins[n - 1], q) {
            seq![pins[n - 1].number@]
        } else {
            Seq::empty()
        }
    }
}

/// Whether all entries equal the first.
pub open spec fn all_same(s: Seq<Seq<char>>) -> bool {
    forall|k: int| 0 <= k < s.len() ==> #[trigger] s[k] == s[0]
}

/// The finding about endpoint `j` of net `i` against the resolved symbols: an unknown pin,
/// or a pin name that addresses pins of different numbers.
pub open spec fn pin_issue(p: ProjectFacts, libs: Seq<LibraryPins>, i: int, j: int) -> Seq<Issue> {
    let net = p.nets@[i];
    let e = net.endpoints@[j]@;
    let path = "/nets/"@ + net.name@ + "/"@ + e;
    match endpoint_parts(e) {
        None => Seq::empty(),
        Some((r, q)) => match library_index(libs, r, 0) {
            None => Seq::empty(),
            Some(li) => {
                let pins = libs[li].pins@;
                let ms = matching_numbers(pins, q, pins.len());
                if ms.len() == 0 {
                    seq![
                        Issue {
                            error: true,
                            code: "LIB004"@,
                            message: "symbol pin '"@ + e + "' does not exist"@,
                            help: Some("use a pin number or a unique pin name from the referenced KiCad symbol"@),
                            path,
                        },
                    ]
                } else if all_same(ms) {
                    Seq::empty()
                } else {
                    seq![error("LIB005"@, "symbol pin name '"@ + e + "' is ambiguous"@, path)]
                }
            },
        },
    }
}

/// The pin findings for the first `j` endpoints of net `i`.
pub open spec fn pin_issues_upto(p: ProjectFacts, libs: Seq<LibraryPins>, i: int, j: nat) -> Seq<Issue>
    decreases j,
{
    if j == 0 {
        Seq::empty()
    } else {
        pin_issues_upto(p, libs, i, (j - 1) as nat) + pin_issue(p, libs, i, j - 1)
    }
}

/// The pin findings for the first `k` nets.
pub open spec fn net_pins_upto(p: ProjectFacts, libs: Seq<LibraryPins>, k: nat) -> Seq<Issue>
    decreases k,
{
    if k == 0 {
        Seq::empty()
    } else {
        net_pins_upto(p, libs, (k - 1) as nat) + pin_issues_upto(p, libs, k - 1, p.nets@[k - 1].endpoints@.len())
    }
}

/// The finding about no-connect marker `k`: a malformed endpoint, or a pin its symbol does not
/// have.
pub open spec fn no_connect_issue(p: ProjectFacts, libs: Seq<LibraryPins>, k: int) -> Seq<Issue> {
    let e = p.no_connect@[k]@;
    let path = "/schematic/no_connect/"@ + e;
    match endpoint_parts(e) {
        None => seq![error("SCH005"@, "invalid no-connect endpoint '"@ + e + "'"@, path)],
        Some((r, q)) => match library_index(libs, r, 0) {
            Some(li) => if matching_numbers(libs[li].pins@, q, libs[li].pins@.len()).len() == 0 {
                seq![error("SCH006"@, "unknown no-connect pin '"@ + e + "'"@, path)]
            } else {
                Seq::empty()
            },
            None => Seq::empty(),
        },
    }
}

/// The findings about the first `k` no-connect markers.
pub open spec fn no_connects_upto(p: ProjectFacts, libs: Seq<LibraryPins>, k: nat) -> Seq<Issue>
    decreases k,
{
    if k == 0 {
        Seq::empty()
    } else {
        no_connects_upto(p, libs, (k - 1) as nat) + no_connect_issue(p, libs, k - 1)
    }
}

/// All library findings: endpoints net by net, then the no-connect markers.
pub open spec fn library_issues(p: ProjectFacts, libs: Seq<LibraryPins>) -> Seq<Issue> {
    net_pins_upto(p, libs, p.nets@.len()) + no_connects_upto(p, libs, p.no_connect@.len())
}

fn find_library(libs: &Vec<LibraryPins>, r: &str) -> (x: Option<usize>)
    ensures
        match x {
            Some(i) => library_index(libs@, r@, 0) == Some(i as int) && i < libs@.len(),
            None => library_index(libs@, r@, 0) is None,
        },
{
    let mut i: usize = 0;
    while i < libs.len()
        invariant
            i <= libs@.len(),
            library_index(libs@, r@, 0) == library_index(libs@, r@, i as int),
        decreases libs.len() - i,
    {
        if same_text(libs[i].reference.as_str(), r) {
            return Some(i);
        }
        i += 1;
    }
    None
}

/// How the pins of a symbol answer to `q`: `0` none matches, `1` the matches share one
/// number, `2` they have different numbers.
fn match_class(pins: &Vec<PinFacts>, q: &str) -> (c: u8)
    ensures
        ({
            let ms = matching_numbers(pins@, q@, pins@.len());
            &&& (c == 0) == (ms.len() == 0)
            &&& (c == 1) == (ms.len() > 0 && all_same(ms))
            &&& (c == 2) == (ms.len() > 0 && !all_same(ms))
        }),
{
    let mut first: Option<usize> = None;
    let mut mixed = false;
    let mut i: usize = 0;
    while i < pins.len()
        invariant
            i <= pins@.len(),
            ({
                let ms = matching_numbers(pins@, q@, i as nat);
                &&& (first is None) == (ms.len() == 0)
                &&& (first matches Some(f) ==> f < pins@.len() && pins@[f as int].number@ == ms[0])
                &&& mixed == (ms.len() > 0 && !all_same(ms))
            }),
        decreases pins.len() - i,
    {
        let p = &pins[i];
        let hit = same_text(p.number.as_str(), q) || match &p.name {
            Some(n) => same_text(n.as_str(), q),
            None => false,
        };
        let ghost ms0 = matching_numbers(pins@, q@, i as nat);
        if hit {
            match first {
                None => {
                    first = Some(i);
                },
                Some(f) => {
                    if !(pins[f].number == p.number) {
                        mixed = true;
                    }
                },
            }
            proof {
                let ms1 = matching_numbers(pins@, q@, (i + 1) as nat);
                assert(ms1 == ms0.push(pins@[i as int].number@));
                if ms0.len() > 0 {
                    assert(ms1[0] == ms0[0]);
                    if all_same(ms0) && ms1.last() == ms0[0] {
                        assert forall|k: int| 0 <= k < ms1.len() implies #[trigger] ms1[k] == ms1[0] by {
                            if k < ms0.len() {
                                assert(ms1[k] == ms0[k]);
                            }
                        }
                    }
                    if !all_same(ms0) {
                        let k = choose|k: int| 0 <= k < ms0.len() && #[trigger] ms0[k] != ms0[0];
                        assert(ms1[k] == ms0[k]);
                    }
                    if ms1.last() != ms0[0] {
                        assert(ms1[ms1.len() - 1] != ms1[0]);
                    }
                } else {
                    assert forall|k: int| 0 <= k < ms1.len() implies #[trigger] ms1[k] == ms1[0] by {}
                }
            }
        } else {
            assert(matching_numbers(pins@, q@, (i + 1) as nat) == ms0);
        }
        i += 1;
    }
    match first {
        None => 0,
        Some(_) => if mixed {
            2
        } else {
            1
        },
    }
}

fn check_pin(
    p: &ProjectFacts,
    libs: &Vec<LibraryPins>,
    i: usize,
    j: usize,
    map: &SourceMap,
    file: &str,
    out: &mut Vec<Diagnostic>,
    Ghost(before): Ghost<Seq<Issue>>,
)
    requires
        i < p.nets@.len(),
        j < p.nets@[i as int].endpoints@.len(),
        map.bytes().len() < usize::MAX,
        reports(old(out)@, before, file@, map.bytes()),
    ensures
        reports(final(out)@, before + pin_issue(*p, libs@, i as int, j as int), file@, map.bytes()),
{
    let net = &p.nets[i];
    let e = net.endpoints[j].as_str();
    match parse_endpoint(e) {
        None => {
            assert(before =~= before + pin_issue(*p, libs@, i as int, j as int));
        },
        Some((r, q)) => match find_library(libs, r.as_str()) {
            None => {
                assert(before =~= before + pin_issue(*p, libs@, i as int, j as int));
            },
            Some(li) => {
                let path = text4("/nets/", net.name.as_str(), "/", e);
                let c = match_class(&libs[li].pins, q.as_str());
                if c == 0 {
                    let m = text3("symbol pin '", e, "' does not exist");
                    emit(
                        out,
                        Ghost(before),
                        map,
                        file,
                        true,
                        "LIB004",
                        m.as_str(),
                        Some("use a pin number or a unique pin name from the referenced KiCad symbol"),
                        path.as_str(),
                    );
                    assert(before.push(
                        Issue {
                            error: true,
                            code: "LIB004"@,
                            message: m@,
                            help: Some("use a pin number or a unique pin name from the referenced KiCad symbol"@),
                            path: path@,
                        },
                    ) =~= before + pin_issue(*p, libs@, i as int, j as int));
                } else if c == 2 {
                    let m = text3("symbol pin name '", e, "' is ambiguous");
                    emit(out, Ghost(before), map, file, true, "LIB005", m.as_str(), None, path.as_str());
                    assert(before.push(error("LIB005"@, m@, path@)) =~= before + pin_issue(*p, libs@, i as int, j as int));
                } else {
                    assert(before =~= before + pin_issue(*p, libs@, i as int, j as int));
                }
            },
        },
    }
}

/// Checks the endpoints and no-connect markers of a project against the pins of the resolved
/// library symbols: each must address an existing pin, and a pin name must not address pins
/// of different numbers.
pub fn validate_libraries(project: &ProjectFacts, libraries: &Vec<LibraryPins>, file: &str, source: &str) -> (out: Vec<
    Diagnostic,
>)
    requires
        source.spec_bytes().len() < usize::MAX,
    ensures
        reports(out@, library_issues(*project, libraries@), file@, source.spec_bytes()),
{
    let map = SourceMap::new(source);
    let mut out: Vec<Diagnostic> = Vec::new();
    let ghost p = *project;
    let ghost libs = libraries@;
    let mut i: usize = 0;
    assert(Seq::<Issue>::empty() =~= net_pins_upto(p, libs, 0));
    while i < project.nets.len()
        invariant
            i <= project.nets@.len(),
            p == *project,
            libs == libraries@,
            map.bytes() == source.spec_bytes(),
            map.bytes().len() < usize::MAX,
            reports(out@, net_pins_upto(p, libs, i as nat), file@, map.bytes()),
        decreases project.nets.len() - i,
    {
        let ghost head = net_pins_upto(p, libs, i as nat);
        let mut j: usize = 0;
        assert(head =~= head + pin_issues_upto(p, libs, i as int, 0));
        while j < project.nets[i].endpoints.len()
            invariant
                i < project.nets@.len(),
                j <= project.nets@[i as int].endpoints@.len(),
                p == *project,
                libs == libraries@,
                map.bytes().len() < usize::MAX,
                reports(out@, head + pin_issues_upto(p, libs, i as int, j as nat), file@, map.bytes()),
            decreases project.nets@[i as int].endpoints@.len() - j,
        {
            check_pin(project, libraries, i, j, &map, file, &mut out, Ghost(head + pin_issues_upto(p, libs, i as int, j as nat)));
            assert(head + pin_issues_upto(p, libs, i as int, j as nat) + pin_issue(p, libs, i as int, j as int) =~= head
                + pin_issues_upto(p, libs, i as int, (j + 1) as nat));
            j += 1;
        }
        assert(head + pin_issues_upto(p, libs, i as int, p.nets@[i as int].endpoints@.len()) =~= net_pins_upto(
            p,
            libs,
            (i + 1) as nat,
        ));
        i += 1;
    }
    let ghost head = net_pins_upto(p, libs, p.nets@.len());
    let mut k: usize = 0;
    assert(head =~= head + no_connects_upto(p, libs, 0));
    while k < project.no_connect.len()
        invariant
            k <= project.no_connect@.len(),
            p == *project,
            libs == libraries@,
            map.bytes() == source.spec_bytes(),
            map.bytes().len() < usize::MAX,
            reports(out@, head + no_connects_upto(p, libs, k as nat), file@, map.bytes()),
        decreases project.no_connect.len() - k,
    {
        let e = project.no_connect[k].as_str();
        let ghost acc = head + no_connects_upto(p, libs, k as nat);
        let path = text2("/schematic/no_connect/", e);
        match parse_endpoint(e) {
            None => {
                let m = text3("invalid no-connect endpoint '", e, "'");
                emit(&mut out, Ghost(acc), &map, file, true, "SCH005", m.as_str(), None, path.as_str());
                assert(acc.push(error("SCH005"@, m@, path@)) =~= head + no_connects_upto(p, libs, (k + 1) as nat));
            },
            Some((r, q)) => match find_library(libraries, r.as_str()) {
                Some(li) => {
                    let c = match_class(&libraries[li].pins, q.as_str());
                    if c == 0 {
                        let m = text3("unknown no-connect pin '", e, "'");
                        emit(&mut out, Ghost(acc), &map, file, true, "SCH006", m.as_str(), None, path.as_str());
                        assert(acc.push(error("SCH006"@, m@, path@)) =~= head + no_connects_upto(p, libs, (k + 1) as nat));
                    } else {
                        assert(acc =~= head + no_connects_upto(p, libs, (k + 1) as nat));
                    }
                },
                None => {
                    assert(acc =~= head + no_connects_upto(p, libs, (k + 1) as nat));
                },
            },
        }
        k += 1;
    }
    out
}

} // verus!

verus! {

/// Only format 2 is supported: a document of any other format version is reported first with
/// KIL001 at `/format_version`, and the header findings of a format 2 document hold no KIL001.
pub proof fn law_only_format_two_is_supported(p: ProjectFacts)
    ensures
        p.format_version != 2 ==> basic_issues(p).len() > 0 && basic_issues(p)[0].code == "KIL001"@ && basic_issues(p)[0].error
            && basic_issues(p)[0].path == "/format_version"@,
        p.format_version == 2 ==> forall|i: int| 0 <= i < header_issues(p).len() ==> (#[trigger] header_issues(p)[i]).code != "KIL001"@,
{
    reveal_strlit("KIL001");
    reveal_strlit("KIL002");
    reveal_strlit("KIL003");
    reveal_strlit("PCB001");
    reveal_strlit("PCB002");
    let h = header_issues(p);
    if p.format_version != 2 {
        assert(basic_issues(p)[0] == h[0]);
    } else {
        assert forall|i: int| 0 <= i < h.len() implies (#[trigger] h[i]).code != "KIL001"@ by {
            assert("KIL002"@[2] != "KIL001"@[2] || "KIL002"@[5] != "KIL001"@[5]);
            assert("KIL003"@[5] != "KIL001"@[5]);
            assert("PCB001"@[0] != "KIL001"@[0]);
            assert("PCB002"@[0] != "KIL001"@[0]);
        }
    }
}

} // verus!
