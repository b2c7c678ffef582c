//! The board file of a generated KiCad project: its header and layer table, the net list,
//! the placed footprints, the outline, the routed copper, vias, keepout and copper zones,
//! mounting holes and silkscreen texts. Lengths are integers in nanometres and angles in
//! millionths of a degree, already in the board's coordinate frame; they are written as KiCad
//! writes decimal millimetres and degrees, with six fractional digits at most.
use crate::connectivity::{lemma_sexp_views_push, sexp_view, sexp_views, Sexp, SexpView};
use crate::kicad::{identity_name, layer_table, mm_text, pcb_layers, push_mm, schematic_net, schematic_net_name, stable_uuid, url_uuid};
use crate::rules::{profile, NetRules};
use crate::stackup::copper_layer_names;
use crate::text::{decimal, push_char, push_decimal, views};
use vstd::prelude::*;

verus! {

/// A point on the board, in nanometres.
#[derive(Debug, Clone, Copy, PartialEq, Eq, Structural)]
pub struct BoardPoint {
    pub x: i64,
    pub y: i64,
}

/// A routed polyline of a net: its layer, its width if it has its own, its points and whether
/// it is locked.
#[derive(Debug)]
pub struct RouteFacts {
    pub layer: String,
    pub width: Option<u64>,
    pub path: Vec<BoardPoint>,
    pub locked: bool,
}

/// A via of a net: its position, its size and drill if they are its own, and whether it is
/// locked.
#[derive(Debug)]
pub struct ViaFacts {
    pub net: String,
    pub at: BoardPoint,
    pub size: Option<u64>,
    pub drill: Option<u64>,
    pub locked: bool,
}

/// A keepout area: its copper layers (none for every layer), its outline and what it keeps
/// out.
#[derive(Debug)]
pub struct KeepoutFacts {
    pub layers: Vec<String>,
    pub outline: Vec<BoardPoint>,
    pub tracks: bool,
    pub vias: bool,
    pub pads: bool,
    pub copper_pours: bool,
    pub footprints: bool,
}

/// A copper zone of a net.
#[derive(Debug)]
pub struct ZoneFacts {
    pub net: String,
    pub layer: String,
    pub outline: Vec<BoardPoint>,
    pub priority: u32,
    pub solid: bool,
    pub clearance: Option<u64>,
    pub thermal_gap: Option<u64>,
    pub thermal_width: Option<u64>,
}

/// A mounting hole.
#[derive(Debug)]
pub struct HoleFacts {
    pub at: BoardPoint,
    pub diameter: u64,
}

/// A silkscreen text; its rotation in millionths of a degree.
#[derive(Debug)]
pub struct SilkFacts {
    pub text: String,
    pub at: BoardPoint,
    pub rotation: i64,
    pub layer: String,
}

/// What the board file is made of. `stackup` is the physical stackup node of the board's
/// setup; `nets` are the project's nets in order (net `i` gets code `i + 1`); `has_sheets`
/// tells whether the schematic has sub-sheets, which decides how net names are written.
#[derive(Debug)]
pub struct BoardFacts {
    pub project: String,
    pub version: String,
    pub thickness: u64,
    pub layers: u8,
    pub stackup: Sexp,
    pub nets: Vec<String>,
    pub has_sheets: bool,
    pub rules: NetRules,
    pub via_size: u64,
    pub via_drill: u64,
    pub outline: Vec<BoardPoint>,
    pub routes: Vec<(String, Vec<RouteFacts>)>,
    pub vias: Vec<ViaFacts>,
    pub keepouts: Vec<KeepoutFacts>,
    pub zones: Vec<ZoneFacts>,
    pub holes: Vec<HoleFacts>,
    pub silk: Vec<SilkFacts>,
}

pub open spec fn sy(t: Seq<char>) -> SexpView {
    SexpView::Symbol(t)
}

pub open spec fn qu(t: Seq<char>) -> SexpView {
    SexpView::Quoted(t)
}

pub open spec fn li(items: Seq<SexpView>) -> SexpView {
    SexpView::List(items)
}

/// A magnitude of `m` millionths written with a whole part, a point and at least one
/// fractional digit.
pub open spec fn num_body(m: nat) -> Seq<char> {
    mm_text(m) + if m % 1_000_000 == 0 {
        seq!['.', '0']
    } else {
        Seq::empty()
    }
}

/// A number of `v` millionths as KiCad files write it.
pub open spec fn fixed_text(v: int) -> Seq<char> {
    if v < 0 {
        seq!['-'] + num_body((-v) as nat)
    } else {
        num_body(v as nat)
    }
}

/// The negation of a number of `v` millionths, as a float negation prints it: a zero becomes
/// a negative zero.
pub open spec fn negated_text(v: int) -> Seq<char> {
    if v >= 0 {
        seq!['-'] + num_body(v as nat)
    } else {
        num_body((-v) as nat)
    }
}

pub open spec fn num(v: int) -> SexpView {
    sy(fixed_text(v))
}

/// `(head x y)`.
pub open spec fn point_clause(head: Seq<char>, p: BoardPoint) -> SexpView {
    li(seq![sy(head), num(p.x as int), num(p.y as int)])
}

/// `(head value)`.
pub open spec fn clause(head: Seq<char>, v: SexpView) -> SexpView {
    li(seq![sy(head), v])
}

/// The `uuid` clause of object `key` of the project.
pub open spec fn uuid_clause(project: Seq<char>, key: Seq<char>) -> SexpView {
    clause("uuid"@, qu(url_uuid(identity_name(project, key))))
}

pub open spec fn locked_clauses(locked: bool) -> Seq<SexpView> {
    if locked {
        seq![clause("locked"@, sy("yes"@))]
    } else {
        Seq::empty()
    }
}

/// The text effects of a property or text: a 1.27 mm font.
pub open spec fn effects() -> SexpView {
    li(seq![sy("effects"@), li(seq![sy("font"@), li(seq![sy("size"@), num(1_270_000), num(1_270_000)])])])
}

/// The board code of net `name`: one more than the position of the first net of that name.
pub open spec fn net_code(nets: Seq<String>, name: Seq<char>, from: int) -> Option<int>
    decreases nets.len() - from,
{
    if from < 0 || from >= nets.len() {
        None
    } else if nets[from]@ == name {
        Some(from + 1)
    } else {
        net_code(nets, name, from + 1)
    }
}

/// The board's header: format, generator, thickness, paper, layer table, setup and the
/// unnamed net 0.
pub open spec fn board_header(b: BoardFacts) -> Seq<SexpView> {
    seq![
        sy("kicad_pcb"@),
        clause("version"@, sy("20250114"@)),
        clause("generator"@, sy("kil"@)),
        clause("generator_version"@, qu(b.version@)),
        li(seq![sy("general"@), clause("thickness"@, num(b.thickness as int)), clause("legacy_teardrops"@, sy("no"@))]),
        clause("paper"@, qu("A4"@)),
        layer_table(b.layers as nat),
        li(
            seq![
                sy("setup"@),
                sexp_view(b.stackup),
                clause("pad_to_mask_clearance"@, num(0)),
                clause("allow_soldermask_bridges_in_footprints"@, sy("no"@)),
            ],
        ),
        li(seq![sy("net"@), sy("0"@), qu(""@)]),
    ]
}

/// The net list: each net with its code and its schematic name.
pub open spec fn net_entries(b: BoardFacts) -> Seq<SexpView> {
    Seq::new(
        b.nets@.len(),
        |i: int| li(seq![sy("net"@), sy(decimal((i + 1) as nat)), qu(schematic_net(b.nets@[i]@, b.has_sheets))]),
    )
}

/// The stroke of a graphic line.
pub open spec fn stroke(width: int) -> SexpView {
    li(seq![sy("stroke"@), clause("width"@, num(width)), clause("type"@, sy("default"@))])
}

/// Edge `i` of the outline, from point `a` to point `c`.
pub open spec fn outline_edge(project: Seq<char>, a: BoardPoint, c: BoardPoint, i: int) -> SexpView {
    li(
        seq![
            sy("gr_line"@),
            point_clause("start"@, a),
            point_clause("end"@, c),
            stroke(50_000),
            clause("layer"@, qu("Edge.Cuts"@)),
            uuid_clause(project, "pcb/outline/"@ + decimal(i as nat)),
        ],
    )
}

/// The closed outline: an edge from each point to the next, the last back to the first.
pub open spec fn outline_edges(b: BoardFacts) -> Seq<SexpView> {
    let n = b.outline@.len();
    Seq::new(n, |i: int| outline_edge(b.project@, b.outline@[i], b.outline@[(i + 1) % (n as int)], i))
}

/// The width of a route of net `net`: its own, else the net's preferred width.
pub open spec fn route_width(b: BoardFacts, net: Seq<char>, r: RouteFacts) -> int {
    match r.width {
        Some(w) => w as int,
        None => profile(b.rules@, Seq::empty(), net).width as int,
    }
}

/// Segment `si` of route `ri` of net `net` (code `code`).
pub open spec fn segment(b: BoardFacts, net: Seq<char>, code: int, ri: int, r: RouteFacts, si: int) -> SexpView {
    li(
        seq![
            sy("segment"@),
            point_clause("start"@, r.path@[si]),
            point_clause("end"@, r.path@[si + 1]),
            clause("width"@, num(route_width(b, net, r))),
            clause("layer"@, qu(r.layer@)),
            clause("net"@, sy(decimal(code as nat))),
            uuid_clause(b.project@, "pcb/route/"@ + net + "/"@ + decimal(ri as nat) + "/"@ + decimal(si as nat)),
        ] + locked_clauses(r.locked),
    )
}

/// The segments of a route: one for each pair of consecutive points.
pub open spec fn segments(b: BoardFacts, net: Seq<char>, code: int, ri: int, r: RouteFacts) -> Seq<SexpView> {
    Seq::new(if r.path@.len() > 0 { (r.path@.len() - 1) as nat } else { 0 }, |si: int| segment(b, net, code, ri, r, si))
}

/// The segments of the first `k` routes of a net.
pub open spec fn net_segments(b: BoardFacts, net: Seq<char>, code: int, rs: Seq<RouteFacts>, k: nat) -> Seq<SexpView>
    decreases k,
{
    if k == 0 || k > rs.len() {
        Seq::empty()
    } else {
        net_segments(b, net, code, rs, (k - 1) as nat) + segments(b, net, code, k - 1, rs[k - 1])
    }
}

/// The copper of the first `k` routed nets; a net that is not on the board has none.
pub open spec fn routed_copper(b: BoardFacts, k: nat) -> Seq<SexpView>
    decreases k,
{
    if k == 0 || k > b.routes@.len() {
        Seq::empty()
    } else {
        let (net, rs) = b.routes@[k - 1];
        routed_copper(b, (k - 1) as nat) + match net_code(b.nets@, net@, 0) {
            Some(code) => net_segments(b, net@, code, rs@, rs@.len()),
            None => Seq::empty(),
        }
    }
}

/// Via `i`, of the net with code `code`.
pub open spec fn via_node(b: BoardFacts, code: int, i: int, v: ViaFacts) -> SexpView {
    li(
        seq![
            sy("via"@),
            point_clause("at"@, v.at),
            clause("size"@, num(match v.size { Some(s) => s as int, None => b.via_size as int })),
            clause("drill"@, num(match v.drill { Some(d) => d as int, None => b.via_drill as int })),
            li(seq![sy("layers"@), qu("F.Cu"@), qu("B.Cu"@)]),
            clause("net"@, sy(decimal(code as nat))),
            uuid_clause(b.project@, "pcb/via/"@ + decimal(i as nat)),
        ] + locked_clauses(v.locked),
    )
}

/// The first `k` vias; one of a net that is not on the board is left out.
pub open spec fn via_nodes(b: BoardFacts, k: nat) -> Seq<SexpView>
    decreases k,
{
    if k == 0 || k > b.vias@.len() {
        Seq::empty()
    } else {
        let v = b.vias@[k - 1];
        via_nodes(b, (k - 1) as nat) + match net_code(b.nets@, v.net@, 0) {
            Some(code) => seq![via_node(b, code, k - 1, v)],
            None => Seq::empty(),
        }
    }
}

/// `(item allowed)` or `(item not_allowed)`.
pub open spec fn restriction(item: Seq<char>, excluded: bool) -> SexpView {
    clause(item, sy(if excluded { "not_allowed"@ } else { "allowed"@ }))
}

/// The polygon of an outline.
pub open spec fn polygon(outline: Seq<BoardPoint>) -> SexpView {
    clause("polygon"@, li(seq![sy("pts"@)] + Seq::new(outline.len(), |j: int| point_clause("xy"@, outline[j]))))
}

/// The layers of a keepout: its own, else every copper layer.
pub open spec fn keepout_layers(b: BoardFacts, a: KeepoutFacts) -> Seq<Seq<char>> {
    if a.layers@.len() == 0 {
        copper_layer_names(b.layers as nat)
    } else {
        views(a.layers@)
    }
}

/// Keepout `i` on `layer`.
pub open spec fn keepout_zone(b: BoardFacts, i: int, a: KeepoutFacts, layer: Seq<char>) -> SexpView {
    li(
        seq![
            sy("zone"@),
            clause("net"@, sy("0"@)),
            clause("net_name"@, qu(""@)),
            clause("layer"@, qu(layer)),
            uuid_clause(b.project@, "pcb/keepout/"@ + decimal(i as nat) + "/"@ + layer),
            li(seq![sy("hatch"@), sy("edge"@), num(500_000)]),
            li(
                seq![
                    sy("keepout"@),
                    restriction("tracks"@, a.tracks),
                    restriction("vias"@, a.vias),
                    restriction("pads"@, a.pads),
                    restriction("copperpour"@, a.copper_pours),
                    restriction("footprints"@, a.footprints),
                ],
            ),
            polygon(a.outline@),
        ],
    )
}

/// The zones of the first `k` keepouts: one per layer of each.
pub open spec fn keepout_zones(b: BoardFacts, k: nat) -> Seq<SexpView>
    decreases k,
{
    if k == 0 || k > b.keepouts@.len() {
        Seq::empty()
    } else {
        let a = b.keepouts@[k - 1];
        let ls = keepout_layers(b, a);
        keepout_zones(b, (k - 1) as nat) + Seq::new(ls.len(), |j: int| keepout_zone(b, k - 1, a, ls[j]))
    }
}

/// How a zone connects to pads: solidly or not, with its clearance or the board's.
pub open spec fn zone_connection(b: BoardFacts, z: ZoneFacts) -> SexpView {
    li(
        seq![sy("connect_pads"@)] + (if z.solid {
            seq![sy("yes"@)]
        } else {
            Seq::empty()
        }) + seq![clause("clearance"@, num(match z.clearance { Some(c) => c as int, None => b.rules.clearance as int }))],
    )
}

/// Zone `i`, of the net with code `code`.
pub open spec fn zone_node(b: BoardFacts, code: int, i: int, z: ZoneFacts) -> SexpView {
    li(
        seq![
            sy("zone"@),
            clause("net"@, sy(decimal(code as nat))),
            clause("net_name"@, qu(schematic_net(z.net@, b.has_sheets))),
            clause("layer"@, qu(z.layer@)),
            uuid_clause(b.project@, "pcb/zone/"@ + decimal(i as nat)),
            clause("priority"@, sy(decimal(z.priority as nat))),
            li(seq![sy("hatch"@), sy("edge"@), num(500_000)]),
            zone_connection(b, z),
            clause("min_thickness"@, num(250_000)),
            li(
                seq![
                    sy("fill"@),
                    sy("yes"@),
                    clause("thermal_gap"@, num(match z.thermal_gap { Some(g) => g as int, None => 300_000 })),
                    clause("thermal_bridge_width"@, num(match z.thermal_width { Some(w) => w as int, None => 300_000 })),
                ],
            ),
            polygon(z.outline@),
        ],
    )
}

/// The first `k` zones; one of a net that is not on the board is left out.
pub open spec fn zone_nodes(b: BoardFacts, k: nat) -> Seq<SexpView>
    decreases k,
{
    if k == 0 || k > b.zones@.len() {
        Seq::empty()
    } else {
        let z = b.zones@[k - 1];
        zone_nodes(b, (k - 1) as nat) + match net_code(b.nets@, z.net@, 0) {
            Some(code) => seq![zone_node(b, code, k - 1, z)],
            None => Seq::empty(),
        }
    }
}

/// An empty property `key` of mounting hole `i` on `layer`.
pub open spec fn hole_property(project: Seq<char>, i: int, key: Seq<char>, layer: Seq<char>, hidden: bool) -> SexpView {
    li(
        seq![
            sy("property"@),
            qu(key),
            qu(""@),
            li(seq![sy("at"@), num(0), num(0), num(0)]),
            clause("layer"@, qu(layer)),
        ] + (if hidden {
            seq![clause("hide"@, sy("yes"@))]
        } else {
            Seq::empty()
        }) + seq![uuid_clause(project, "pcb/hole/"@ + decimal(i as nat) + "/property/"@ + key), effects()],
    )
}

/// Mounting hole `i`: a board-only footprint with one unplated circular hole.
pub open spec fn hole_node(project: Seq<char>, i: int, h: HoleFacts) -> SexpView {
    let d = h.diameter as int;
    li(
        seq![
            sy("footprint"@),
            qu("MountingHole"@),
            clause("layer"@, qu("F.Cu"@)),
            uuid_clause(project, "pcb/hole/"@ + decimal(i as nat)),
            point_clause("at"@, h.at),
            hole_property(project, i, "Reference"@, "F.SilkS"@, false),
            hole_property(project, i, "Value"@, "F.Fab"@, false),
            hole_property(project, i, "Datasheet"@, "F.Fab"@, true),
            hole_property(project, i, "Description"@, "F.Fab"@, true),
            li(seq![sy("attr"@), sy("board_only"@), sy("exclude_from_pos_files"@), sy("exclude_from_bom"@)]),
            li(
                seq![
                    sy("pad"@),
                    qu(""@),
                    sy("np_thru_hole"@),
                    sy("circle"@),
                    li(seq![sy("at"@), num(0), num(0)]),
                    li(seq![sy("size"@), num(d), num(d)]),
                    clause("drill"@, num(d)),
                    li(seq![sy("layers"@), qu("*.Cu"@), qu("*.Mask"@)]),
                    uuid_clause(project, "pcb/hole/"@ + decimal(i as nat) + "/pad"@),
                ],
            ),
        ],
    )
}

/// Silkscreen text `i`, turned against its rotation as the board's y axis points down.
pub open spec fn silk_node(project: Seq<char>, i: int, t: SilkFacts) -> SexpView {
    li(
        seq![
            sy("gr_text"@),
            qu(t.text@),
            li(seq![sy("at"@), num(t.at.x as int), num(t.at.y as int), sy(negated_text(t.rotation as int))]),
            clause("layer"@, qu(t.layer@)),
            uuid_clause(project, "pcb/silk/"@ + decimal(i as nat)),
            effects(),
        ],
    )
}

/// The board file's tree, with the placed footprints `footprints`.
pub open spec fn pcb_tree(b: BoardFacts, footprints: Seq<SexpView>) -> SexpView {
    li(
        board_header(b) + net_entries(b) + footprints + outline_edges(b) + routed_copper(b, b.routes@.len()) + via_nodes(
            b,
            b.vias@.len(),
        ) + keepout_zones(b, b.keepouts@.len()) + zone_nodes(b, b.zones@.len()) + Seq::new(
            b.holes@.len(),
            |i: int| hole_node(b.project@, i, b.holes@[i]),
        ) + Seq::new(b.silk@.len(), |i: int| silk_node(b.project@, i, b.silk@[i])),
    )
}

} // verus!

verus! {

pub(crate) fn append_node(v: &mut Vec<Sexp>, n: Sexp)
    ensures
        sexp_views(final(v)@) == sexp_views(old(v)@).push(sexp_view(n)),
{
    proof {
        lemma_sexp_views_push(v@, n);
    }
    v.push(n);
}

pub(crate) fn new_items() -> (v: Vec<Sexp>)
    ensures
        sexp_views(v@) == Seq::<SexpView>::empty(),
{
    let v: Vec<Sexp> = Vec::new();
    assert(sexp_views(v@) =~= Seq::<SexpView>::empty());
    v
}

pub(crate) fn sym_node(t: &str) -> (r: Sexp)
    ensures
        sexp_view(r) == sy(t@),
{
    Sexp::Symbol(t.to_owned())
}

pub(crate) fn quoted_node(t: &str) -> (r: Sexp)
    ensures
        sexp_view(r) == qu(t@),
{
    Sexp::Quoted(t.to_owned())
}

pub(crate) fn clause_node(head: &str, v: Sexp) -> (r: Sexp)
    ensures
        sexp_view(r) == clause(head@, sexp_view(v)),
{
    let mut items = new_items();
    append_node(&mut items, sym_node(head));
    let ghost vv = sexp_view(v);
    append_node(&mut items, v);
    assert(sexp_views(items@) =~= seq![sy(head@), vv]);
    Sexp::List(items)
}

pub(crate) fn decimal_node(n: usize) -> (r: Sexp)
    ensures
        sexp_view(r) == sy(decimal(n as nat)),
{
    let mut t = String::new();
    push_decimal(&mut t, n);
    Sexp::Symbol(t)
}

pub(crate) fn magnitude_text(negative: bool, m: u64) -> (r: String)
    ensures
        r@ == (if negative {
            seq!['-']
        } else {
            Seq::empty()
        }) + num_body(m as nat),
{
    let mut t = String::new();
    if negative {
        push_char(&mut t, '-');
    }
    push_mm(&mut t, m);
    if m % 1_000_000 == 0 {
        push_char(&mut t, '.');
        push_char(&mut t, '0');
    }
    assert(t@ =~= (if negative {
        seq!['-']
    } else {
        Seq::empty()
    }) + num_body(m as nat));
    t
}

pub(crate) fn num_node(v: i64) -> (r: Sexp)
    ensures
        sexp_view(r) == num(v as int),
{
    if v < 0 {
        let m: u64 = ((-(v + 1)) as u64) + 1;
        Sexp::Symbol(magnitude_text(true, m))
    } else {
        let t = magnitude_text(false, v as u64);
        assert(t@ =~= num_body(v as nat));
        Sexp::Symbol(t)
    }
}

pub(crate) fn unsigned_node(v: u64) -> (r: Sexp)
    ensures
        sexp_view(r) == num(v as int),
{
    let t = magnitude_text(false, v);
    assert(t@ =~= num_body(v as nat));
    Sexp::Symbol(t)
}

fn negated_node(v: i64) -> (r: Sexp)
    ensures
        sexp_view(r) == sy(negated_text(v as int)),
{
    if v >= 0 {
        Sexp::Symbol(magnitude_text(true, v as u64))
    } else {
        let m: u64 = ((-(v + 1)) as u64) + 1;
        let t = magnitude_text(false, m);
        assert(t@ =~= num_body((-v) as nat));
        Sexp::Symbol(t)
    }
}

pub(crate) fn point_node(head: &str, p: BoardPoint) -> (r: Sexp)
    ensures
        sexp_view(r) == point_clause(head@, p),
{
    let mut items = new_items();
    append_node(&mut items, sym_node(head));
    append_node(&mut items, num_node(p.x));
    append_node(&mut items, num_node(p.y));
    assert(sexp_views(items@) =~= seq![sy(head@), num(p.x as int), num(p.y as int)]);
    Sexp::List(items)
}

pub(crate) fn uuid_node(project: &str, key: &str) -> (r: Sexp)
    ensures
        sexp_view(r) == uuid_clause(project@, key@),
{
    clause_node("uuid", Sexp::Quoted(stable_uuid(project, key)))
}

pub(crate) fn indexed_key(prefix: &str, i: usize) -> (r: String)
    ensures
        r@ == prefix@ + decimal(i as nat),
{
    let mut t = prefix.to_owned();
    push_decimal(&mut t, i);
    t
}

fn append_locked(items: &mut Vec<Sexp>, locked: bool)
    ensures
        sexp_views(final(items)@) == sexp_views(old(items)@) + locked_clauses(locked),
{
    let ghost before = sexp_views(items@);
    if locked {
        append_node(items, clause_node("locked", sym_node("yes")));
        assert(sexp_views(items@) =~= before + locked_clauses(locked));
    } else {
        assert(sexp_views(items@) =~= before + locked_clauses(locked));
    }
}

fn effects_node() -> (r: Sexp)
    ensures
        sexp_view(r) == effects(),
{
    let mut size = new_items();
    append_node(&mut size, sym_node("size"));
    append_node(&mut size, num_node(1_270_000));
    append_node(&mut size, num_node(1_270_000));
    assert(sexp_views(size@) =~= seq![sy("size"@), num(1_270_000), num(1_270_000)]);
    let font = clause_node("font", Sexp::List(size));
    clause_node("effects", font)
}

/// The code of net `name` on the board (see `net_code`).
fn code_of(nets: &Vec<String>, name: &str) -> (r: Option<usize>)
    ensures
        match r {
            Some(c) => net_code(nets@, name@, 0) == Some(c as int) && c >= 1,
            None => net_code(nets@, name@, 0) is None,
        },
{
    let mut i: usize = 0;
    while i < nets.len()
        invariant
            i <= nets@.len(),
            net_code(nets@, name@, 0) == net_code(nets@, name@, i as int),
        decreases nets.len() - i,
    {
        if crate::text::same_text(nets[i].as_str(), name) {
            return Some(i + 1);
        }
        i += 1;
    }
    None
}

} // verus!

verus! {

fn header_items(b: &BoardFacts) -> (r: Vec<Sexp>)
    ensures
        sexp_views(r@) == board_header(*b),
{
    let mut items = new_items();
    append_node(&mut items, sym_node("kicad_pcb"));
    append_node(&mut items, clause_node("version", sym_node("20250114")));
    append_node(&mut items, clause_node("generator", sym_node("kil")));
    append_node(&mut items, clause_node("generator_version", quoted_node(b.version.as_str())));
    let mut general = new_items();
    append_node(&mut general, sym_node("general"));
    append_node(&mut general, clause_node("thickness", unsigned_node(b.thickness)));
    append_node(&mut general, clause_node("legacy_teardrops", sym_node("no")));
    assert(sexp_views(general@) =~= seq![
        sy("general"@),
        clause("thickness"@, num(b.thickness as int)),
        clause("legacy_teardrops"@, sy("no"@)),
    ]);
    append_node(&mut items, Sexp::List(general));
    append_node(&mut items, clause_node("paper", quoted_node("A4")));
    append_node(&mut items, pcb_layers(b.layers));
    let mut setup = new_items();
    append_node(&mut setup, sym_node("setup"));
    append_node(&mut setup, b.stackup.copy());
    append_node(&mut setup, clause_node("pad_to_mask_clearance", num_node(0)));
    append_node(&mut setup, clause_node("allow_soldermask_bridges_in_footprints", sym_node("no")));
    assert(sexp_views(setup@) =~= seq![
        sy("setup"@),
        sexp_view(b.stackup),
        clause("pad_to_mask_clearance"@, num(0)),
        clause("allow_soldermask_bridges_in_footprints"@, sy("no"@)),
    ]);
    append_node(&mut items, Sexp::List(setup));
    let mut net0 = new_items();
    append_node(&mut net0, sym_node("net"));
    append_node(&mut net0, sym_node("0"));
    append_node(&mut net0, quoted_node(""));
    assert(sexp_views(net0@) =~= seq![sy("net"@), sy("0"@), qu(""@)]);
    append_node(&mut items, Sexp::List(net0));
    assert(sexp_views(items@) =~= board_header(*b));
    items
}

fn push_net_entries(items: &mut Vec<Sexp>, b: &BoardFacts)
    ensures
        sexp_views(final(items)@) == sexp_views(old(items)@) + net_entries(*b),
{
    let ghost base = sexp_views(items@);
    let ghost section = net_entries(*b);
    let mut i: usize = 0;
    while i < b.nets.len()
        invariant
            i <= b.nets@.len(),
            section == net_entries(*b),
            sexp_views(items@) == base + section.take(i as int),
        decreases b.nets.len() - i,
    {
        let mut e = new_items();
        append_node(&mut e, sym_node("net"));
        append_node(&mut e, decimal_node(i + 1));
        append_node(&mut e, Sexp::Quoted(schematic_net_name(b.nets[i].as_str(), b.has_sheets)));
        assert(sexp_views(e@) =~= seq![sy("net"@), sy(decimal((i + 1) as nat)), qu(schematic_net(b.nets@[i as int]@, b.has_sheets))]);
        append_node(items, Sexp::List(e));
        assert(section.take(i + 1) =~= section.take(i as int).push(section[i as int]));
        i += 1;
    }
    assert(section.take(i as int) =~= section);
}

fn push_outline(items: &mut Vec<Sexp>, b: &BoardFacts)
    ensures
        sexp_views(final(items)@) == sexp_views(old(items)@) + outline_edges(*b),
{
    let ghost base = sexp_views(items@);
    let ghost section = outline_edges(*b);
    let n = b.outline.len();
    let mut i: usize = 0;
    while i < n
        invariant
            i <= n,
            n == b.outline@.len(),
            section == outline_edges(*b),
            sexp_views(items@) == base + section.take(i as int),
        decreases n - i,
    {
        let a = b.outline[i];
        let c = b.outline[(i + 1) % n];
        let mut e = new_items();
        append_node(&mut e, sym_node("gr_line"));
        append_node(&mut e, point_node("start", a));
        append_node(&mut e, point_node("end", c));
        let mut st = new_items();
        append_node(&mut st, sym_node("stroke"));
        append_node(&mut st, clause_node("width", num_node(50_000)));
        append_node(&mut st, clause_node("type", sym_node("default")));
        assert(sexp_views(st@) =~= seq![sy("stroke"@), clause("width"@, num(50_000)), clause("type"@, sy("default"@))]);
        append_node(&mut e, Sexp::List(st));
        append_node(&mut e, clause_node("layer", quoted_node("Edge.Cuts")));
        let key = indexed_key("pcb/outline/", i);
        append_node(&mut e, uuid_node(b.project.as_str(), key.as_str()));
        assert(sexp_views(e@) =~= seq![
            sy("gr_line"@),
            point_clause("start"@, a),
            point_clause("end"@, c),
            stroke(50_000),
            clause("layer"@, qu("Edge.Cuts"@)),
            uuid_clause(b.project@, "pcb/outline/"@ + decimal(i as nat)),
        ]);
        append_node(items, Sexp::List(e));
        assert(section[i as int] == outline_edge(b.project@, b.outline@[i as int], b.outline@[(i + 1) % (n as int)], i as int));
        assert(section.take(i + 1) =~= section.take(i as int).push(section[i as int]));
        i += 1;
    }
    assert(section.take(i as int) =~= section);
}

} // verus!

verus! {

fn segment_node(b: &BoardFacts, net: &str, code: usize, ri: usize, r: &RouteFacts, si: usize) -> (n: Sexp)
    requires
        si + 1 < r.path@.len(),
    ensures
        sexp_view(n) == segment(*b, net@, code as int, ri as int, *r, si as int),
{
    let _points = r.path.len();
    let mut e = new_items();
    append_node(&mut e, sym_node("segment"));
    append_node(&mut e, point_node("start", r.path[si]));
    append_node(&mut e, point_node("end", r.path[si + 1]));
    let width: u64 = match r.width {
        Some(w) => w,
        None => b.rules.width(net),
    };
    append_node(&mut e, clause_node("width", unsigned_node(width)));
    append_node(&mut e, clause_node("layer", quoted_node(r.layer.as_str())));
    append_node(&mut e, clause_node("net", decimal_node(code)));
    let mut key = crate::text::text3("pcb/route/", net, "/");
    push_decimal(&mut key, ri);
    key.append("/");
    push_decimal(&mut key, si);
    append_node(&mut e, uuid_node(b.project.as_str(), key.as_str()));
    let ghost head = seq![
        sy("segment"@),
        point_clause("start"@, r.path@[si as int]),
        point_clause("end"@, r.path@[si + 1]),
        clause("width"@, num(route_width(*b, net@, *r))),
        clause("layer"@, qu(r.layer@)),
        clause("net"@, sy(decimal(code as nat))),
        uuid_clause(b.project@, "pcb/route/"@ + net@ + "/"@ + decimal(ri as nat) + "/"@ + decimal(si as nat)),
    ];
    assert(key@ =~= "pcb/route/"@ + net@ + "/"@ + decimal(ri as nat) + "/"@ + decimal(si as nat));
    assert(sexp_views(e@) =~= head);
    append_locked(&mut e, r.locked);
    Sexp::List(e)
}

fn push_route(items: &mut Vec<Sexp>, b: &BoardFacts, net: &str, code: usize, ri: usize, r: &RouteFacts)
    ensures
        sexp_views(final(items)@) == sexp_views(old(items)@) + segments(*b, net@, code as int, ri as int, *r),
{
    let ghost base = sexp_views(items@);
    let ghost section = segments(*b, net@, code as int, ri as int, *r);
    if r.path.len() == 0 {
        assert(section =~= Seq::<SexpView>::empty());
        assert(sexp_views(items@) =~= base + section);
        return;
    }
    let n = r.path.len() - 1;
    let mut si: usize = 0;
    while si < n
        invariant
            si <= n,
            n + 1 == r.path@.len(),
            section == segments(*b, net@, code as int, ri as int, *r),
            section.len() == n,
            sexp_views(items@) == base + section.take(si as int),
        decreases n - si,
    {
        append_node(items, segment_node(b, net, code, ri, r, si));
        assert(section.take(si + 1) =~= section.take(si as int).push(section[si as int]));
        si += 1;
    }
    assert(section.take(si as int) =~= section);
}

fn push_routed_copper(items: &mut Vec<Sexp>, b: &BoardFacts)
    ensures
        sexp_views(final(items)@) == sexp_views(old(items)@) + routed_copper(*b, b.routes@.len()),
{
    let ghost base = sexp_views(items@);
    let mut k: usize = 0;
    while k < b.routes.len()
        invariant
            k <= b.routes@.len(),
            sexp_views(items@) == base + routed_copper(*b, k as nat),
        decreases b.routes.len() - k,
    {
        let net = b.routes[k].0.as_str();
        let rs = &b.routes[k].1;
        let ghost before = sexp_views(items@);
        match code_of(&b.nets, net) {
            Some(code) => {
                let mut ri: usize = 0;
                while ri < rs.len()
                    invariant
                        ri <= rs@.len(),
                        code >= 1,
                        net_code(b.nets@, net@, 0) == Some(code as int),
                        sexp_views(items@) == before + net_segments(*b, net@, code as int, rs@, ri as nat),
                    decreases rs.len() - ri,
                {
                    push_route(items, b, net, code, ri, &rs[ri]);
                    assert(before + net_segments(*b, net@, code as int, rs@, (ri + 1) as nat) =~= before + net_segments(
                        *b,
                        net@,
                        code as int,
                        rs@,
                        ri as nat,
                    ) + segments(*b, net@, code as int, ri as int, rs@[ri as int]));
                    ri += 1;
                }
                assert(sexp_views(items@) =~= base + routed_copper(*b, (k + 1) as nat));
            },
            None => {
                assert(sexp_views(items@) =~= base + routed_copper(*b, (k + 1) as nat));
            },
        }
        k += 1;
    }
}

} // verus!

verus! {

fn via_item(b: &BoardFacts, code: usize, i: usize, v: &ViaFacts) -> (n: Sexp)
    ensures
        sexp_view(n) == via_node(*b, code as int, i as int, *v),
{
    let mut e = new_items();
    append_node(&mut e, sym_node("via"));
    append_node(&mut e, point_node("at", v.at));
    let size: u64 = match v.size {
        Some(x) => x,
        None => b.via_size,
    };
    let drill: u64 = match v.drill {
        Some(x) => x,
        None => b.via_drill,
    };
    append_node(&mut e, clause_node("size", unsigned_node(size)));
    append_node(&mut e, clause_node("drill", unsigned_node(drill)));
    let mut layers = new_items();
    append_node(&mut layers, sym_node("layers"));
    append_node(&mut layers, quoted_node("F.Cu"));
    append_node(&mut layers, quoted_node("B.Cu"));
    assert(sexp_views(layers@) =~= seq![sy("layers"@), qu("F.Cu"@), qu("B.Cu"@)]);
    append_node(&mut e, Sexp::List(layers));
    append_node(&mut e, clause_node("net", decimal_node(code)));
    let key = indexed_key("pcb/via/", i);
    append_node(&mut e, uuid_node(b.project.as_str(), key.as_str()));
    assert(sexp_views(e@) =~= seq![
        sy("via"@),
        point_clause("at"@, v.at),
        clause("size"@, num(match v.size { Some(s) => s as int, None => b.via_size as int })),
        clause("drill"@, num(match v.drill { Some(d) => d as int, None => b.via_drill as int })),
        li(seq![sy("layers"@), qu("F.Cu"@), qu("B.Cu"@)]),
        clause("net"@, sy(decimal(code as nat))),
        uuid_clause(b.project@, "pcb/via/"@ + decimal(i as nat)),
    ]);
    append_locked(&mut e, v.locked);
    Sexp::List(e)
}

fn push_vias(items: &mut Vec<Sexp>, b: &BoardFacts)
    ensures
        sexp_views(final(items)@) == sexp_views(old(items)@) + via_nodes(*b, b.vias@.len()),
{
    let ghost base = sexp_views(items@);
    let mut k: usize = 0;
    while k < b.vias.len()
        invariant
            k <= b.vias@.len(),
            sexp_views(items@) == base + via_nodes(*b, k as nat),
        decreases b.vias.len() - k,
    {
        let v = &b.vias[k];
        match code_of(&b.nets, v.net.as_str()) {
            Some(code) => {
                append_node(items, via_item(b, code, k, v));
            },
            None => {},
        }
        assert(sexp_views(items@) =~= base + via_nodes(*b, (k + 1) as nat));
        k += 1;
    }
}

fn polygon_node(outline: &Vec<BoardPoint>) -> (n: Sexp)
    ensures
        sexp_view(n) == polygon(outline@),
{
    let mut pts = new_items();
    append_node(&mut pts, sym_node("pts"));
    let ghost section = Seq::new(outline@.len(), |j: int| point_clause("xy"@, outline@[j]));
    let mut j: usize = 0;
    while j < outline.len()
        invariant
            j <= outline@.len(),
            section == Seq::new(outline@.len(), |j: int| point_clause("xy"@, outline@[j])),
            sexp_views(pts@) == seq![sy("pts"@)] + section.take(j as int),
        decreases outline.len() - j,
    {
        append_node(&mut pts, point_node("xy", outline[j]));
        assert(section.take(j + 1) =~= section.take(j as int).push(section[j as int]));
        j += 1;
    }
    assert(section.take(j as int) =~= section);
    clause_node("polygon", Sexp::List(pts))
}

fn restriction_node(item: &str, excluded: bool) -> (n: Sexp)
    ensures
        sexp_view(n) == restriction(item@, excluded),
{
    if excluded {
        clause_node(item, sym_node("not_allowed"))
    } else {
        clause_node(item, sym_node("allowed"))
    }
}

fn keepout_item(b: &BoardFacts, i: usize, a: &KeepoutFacts, layer: &str) -> (n: Sexp)
    ensures
        sexp_view(n) == keepout_zone(*b, i as int, *a, layer@),
{
    let mut e = new_items();
    append_node(&mut e, sym_node("zone"));
    append_node(&mut e, clause_node("net", sym_node("0")));
    append_node(&mut e, clause_node("net_name", quoted_node("")));
    append_node(&mut e, clause_node("layer", quoted_node(layer)));
    let mut key = indexed_key("pcb/keepout/", i);
    key.append("/");
    key.append(layer);
    append_node(&mut e, uuid_node(b.project.as_str(), key.as_str()));
    let mut hatch = new_items();
    append_node(&mut hatch, sym_node("hatch"));
    append_node(&mut hatch, sym_node("edge"));
    append_node(&mut hatch, num_node(500_000));
    assert(sexp_views(hatch@) =~= seq![sy("hatch"@), sy("edge"@), num(500_000)]);
    append_node(&mut e, Sexp::List(hatch));
    let mut keep = new_items();
    append_node(&mut keep, sym_node("keepout"));
    append_node(&mut keep, restriction_node("tracks", a.tracks));
    append_node(&mut keep, restriction_node("vias", a.vias));
    append_node(&mut keep, restriction_node("pads", a.pads));
    append_node(&mut keep, restriction_node("copperpour", a.copper_pours));
    append_node(&mut keep, restriction_node("footprints", a.footprints));
    assert(sexp_views(keep@) =~= seq![
        sy("keepout"@),
        restriction("tracks"@, a.tracks),
        restriction("vias"@, a.vias),
        restriction("pads"@, a.pads),
        restriction("copperpour"@, a.copper_pours),
        restriction("footprints"@, a.footprints),
    ]);
    append_node(&mut e, Sexp::List(keep));
    append_node(&mut e, polygon_node(&a.outline));
    assert(key@ =~= "pcb/keepout/"@ + decimal(i as nat) + "/"@ + layer@);
    assert(sexp_views(e@) =~= seq![
        sy("zone"@),
        clause("net"@, sy("0"@)),
        clause("net_name"@, qu(""@)),
        clause("layer"@, qu(layer@)),
        uuid_clause(b.project@, "pcb/keepout/"@ + decimal(i as nat) + "/"@ + layer@),
        li(seq![sy("hatch"@), sy("edge"@), num(500_000)]),
        li(
            seq![
                sy("keepout"@),
                restriction("tracks"@, a.tracks),
                restriction("vias"@, a.vias),
                restriction("pads"@, a.pads),
                restriction("copperpour"@, a.copper_pours),
                restriction("footprints"@, a.footprints),
            ],
        ),
        polygon(a.outline@),
    ]);
    Sexp::List(e)
}

fn push_keepouts(items: &mut Vec<Sexp>, b: &BoardFacts)
    ensures
        sexp_views(final(items)@) == sexp_views(old(items)@) + keepout_zones(*b, b.keepouts@.len()),
{
    let ghost base = sexp_views(items@);
    let board_layers = crate::stackup::copper_layers(b.layers);
    let mut k: usize = 0;
    while k < b.keepouts.len()
        invariant
            k <= b.keepouts@.len(),
            views(board_layers@) == copper_layer_names(b.layers as nat),
            sexp_views(items@) == base + keepout_zones(*b, k as nat),
        decreases b.keepouts.len() - k,
    {
        let a = &b.keepouts[k];
        let layers = if a.layers.len() == 0 {
            &board_layers
        } else {
            &a.layers
        };
        let ghost ls = keepout_layers(*b, *a);
        assert(views(layers@) == ls);
        let ghost section = Seq::new(ls.len(), |j: int| keepout_zone(*b, k as int, *a, ls[j]));
        let ghost before = sexp_views(items@);
        let mut j: usize = 0;
        while j < layers.len()
            invariant
                j <= layers@.len(),
                views(layers@) == ls,
                ls.len() == layers@.len(),
                section == Seq::new(ls.len(), |j: int| keepout_zone(*b, k as int, *a, ls[j])),
                sexp_views(items@) == before + section.take(j as int),
            decreases layers.len() - j,
        {
            assert(ls[j as int] == layers@[j as int]@);
            append_node(items, keepout_item(b, k, a, layers[j].as_str()));
            assert(section.take(j + 1) =~= section.take(j as int).push(section[j as int]));
            j += 1;
        }
        assert(section.take(j as int) =~= section);
        assert(sexp_views(items@) =~= base + keepout_zones(*b, (k + 1) as nat));
        k += 1;
    }
}

} // verus!

verus! {

fn zone_item(b: &BoardFacts, code: usize, i: usize, z: &ZoneFacts) -> (n: Sexp)
    ensures
        sexp_view(n) == zone_node(*b, code as int, i as int, *z),
{
    let mut e = new_items();
    append_node(&mut e, sym_node("zone"));
    append_node(&mut e, clause_node("net", decimal_node(code)));
    append_node(&mut e, clause_node("net_name", Sexp::Quoted(schematic_net_name(z.net.as_str(), b.has_sheets))));
    append_node(&mut e, clause_node("layer", quoted_node(z.layer.as_str())));
    let key = indexed_key("pcb/zone/", i);
    append_node(&mut e, uuid_node(b.project.as_str(), key.as_str()));
    append_node(&mut e, clause_node("priority", decimal_node(z.priority as usize)));
    let mut hatch = new_items();
    append_node(&mut hatch, sym_node("hatch"));
    append_node(&mut hatch, sym_node("edge"));
    append_node(&mut hatch, num_node(500_000));
    assert(sexp_views(hatch@) =~= seq![sy("hatch"@), sy("edge"@), num(500_000)]);
    append_node(&mut e, Sexp::List(hatch));
    let mut conn = new_items();
    append_node(&mut conn, sym_node("connect_pads"));
    if z.solid {
        append_node(&mut conn, sym_node("yes"));
    }
    let clearance: u64 = match z.clearance {
        Some(c) => c,
        None => b.rules.clearance,
    };
    append_node(&mut conn, clause_node("clearance", unsigned_node(clearance)));
    assert(sexp_views(conn@) =~= seq![sy("connect_pads"@)] + (if z.solid {
        seq![sy("yes"@)]
    } else {
        Seq::empty()
    }) + seq![clause("clearance"@, num(match z.clearance { Some(c) => c as int, None => b.rules.clearance as int }))]);
    append_node(&mut e, Sexp::List(conn));
    append_node(&mut e, clause_node("min_thickness", num_node(250_000)));
    let gap: u64 = match z.thermal_gap {
        Some(g) => g,
        None => 300_000,
    };
    let width: u64 = match z.thermal_width {
        Some(w) => w,
        None => 300_000,
    };
    let mut fill = new_items();
    append_node(&mut fill, sym_node("fill"));
    append_node(&mut fill, sym_node("yes"));
    append_node(&mut fill, clause_node("thermal_gap", unsigned_node(gap)));
    append_node(&mut fill, clause_node("thermal_bridge_width", unsigned_node(width)));
    assert(sexp_views(fill@) =~= seq![
        sy("fill"@),
        sy("yes"@),
        clause("thermal_gap"@, num(match z.thermal_gap { Some(g) => g as int, None => 300_000 })),
        clause("thermal_bridge_width"@, num(match z.thermal_width { Some(w) => w as int, None => 300_000 })),
    ]);
    append_node(&mut e, Sexp::List(fill));
    append_node(&mut e, polygon_node(&z.outline));
    assert(sexp_views(e@) =~= seq![
        sy("zone"@),
        clause("net"@, sy(decimal(code as nat))),
        clause("net_name"@, qu(schematic_net(z.net@, b.has_sheets))),
        clause("layer"@, qu(z.layer@)),
        uuid_clause(b.project@, "pcb/zone/"@ + decimal(i as nat)),
        clause("priority"@, sy(decimal(z.priority as nat))),
        li(seq![sy("hatch"@), sy("edge"@), num(500_000)]),
        zone_connection(*b, *z),
        clause("min_thickness"@, num(250_000)),
        li(
            seq![
                sy("fill"@),
                sy("yes"@),
                clause("thermal_gap"@, num(match z.thermal_gap { Some(g) => g as int, None => 300_000 })),
                clause("thermal_bridge_width"@, num(match z.thermal_width { Some(w) => w as int, None => 300_000 })),
            ],
        ),
        polygon(z.outline@),
    ]);
    Sexp::List(e)
}

fn push_zones(items: &mut Vec<Sexp>, b: &BoardFacts)
    ensures
        sexp_views(final(items)@) == sexp_views(old(items)@) + zone_nodes(*b, b.zones@.len()),
{
    let ghost base = sexp_views(items@);
    let mut k: usize = 0;
    while k < b.zones.len()
        invariant
            k <= b.zones@.len(),
            sexp_views(items@) == base + zone_nodes(*b, k as nat),
        decreases b.zones.len() - k,
    {
        let z = &b.zones[k];
        match code_of(&b.nets, z.net.as_str()) {
            Some(code) => {
                append_node(items, zone_item(b, code, k, z));
            },
            None => {},
        }
        assert(sexp_views(items@) =~= base + zone_nodes(*b, (k + 1) as nat));
        k += 1;
    }
}

fn hole_property_item(project: &str, i: usize, key: &str, layer: &str, hidden: bool) -> (n: Sexp)
    ensures
        sexp_view(n) == hole_property(project@, i as int, key@, layer@, hidden),
{
    let mut e = new_items();
    append_node(&mut e, sym_node("property"));
    append_node(&mut e, quoted_node(key));
    append_node(&mut e, quoted_node(""));
    let mut at = new_items();
    append_node(&mut at, sym_node("at"));
    append_node(&mut at, num_node(0));
    append_node(&mut at, num_node(0));
    append_node(&mut at, num_node(0));
    assert(sexp_views(at@) =~= seq![sy("at"@), num(0), num(0), num(0)]);
    append_node(&mut e, Sexp::List(at));
    append_node(&mut e, clause_node("layer", quoted_node(layer)));
    if hidden {
        append_node(&mut e, clause_node("hide", sym_node("yes")));
    }
    let mut k = indexed_key("pcb/hole/", i);
    k.append("/property/");
    k.append(key);
    append_node(&mut e, uuid_node(project, k.as_str()));
    append_node(&mut e, effects_node());
    assert(k@ =~= "pcb/hole/"@ + decimal(i as nat) + "/property/"@ + key@);
    assert(sexp_views(e@) =~= seq![
        sy("property"@),
        qu(key@),
        qu(""@),
        li(seq![sy("at"@), num(0), num(0), num(0)]),
        clause("layer"@, qu(layer@)),
    ] + (if hidden {
        seq![clause("hide"@, sy("yes"@))]
    } else {
        Seq::empty()
    }) + seq![uuid_clause(project@, "pcb/hole/"@ + decimal(i as nat) + "/property/"@ + key@), effects()]);
    Sexp::List(e)
}

fn hole_item(project: &str, i: usize, h: &HoleFacts) -> (n: Sexp)
    ensures
        sexp_view(n) == hole_node(project@, i as int, *h),
{
    let d = h.diameter;
    let mut e = new_items();
    append_node(&mut e, sym_node("footprint"));
    append_node(&mut e, quoted_node("MountingHole"));
    append_node(&mut e, clause_node("layer", quoted_node("F.Cu")));
    let key = indexed_key("pcb/hole/", i);
    append_node(&mut e, uuid_node(project, key.as_str()));
    append_node(&mut e, point_node("at", h.at));
    append_node(&mut e, hole_property_item(project, i, "Reference", "F.SilkS", false));
    append_node(&mut e, hole_property_item(project, i, "Value", "F.Fab", false));
    append_node(&mut e, hole_property_item(project, i, "Datasheet", "F.Fab", true));
    append_node(&mut e, hole_property_item(project, i, "Description", "F.Fab", true));
    let mut attr = new_items();
    append_node(&mut attr, sym_node("attr"));
    append_node(&mut attr, sym_node("board_only"));
    append_node(&mut attr, sym_node("exclude_from_pos_files"));
    append_node(&mut attr, sym_node("exclude_from_bom"));
    assert(sexp_views(attr@) =~= seq![sy("attr"@), sy("board_only"@), sy("exclude_from_pos_files"@), sy("exclude_from_bom"@)]);
    append_node(&mut e, Sexp::List(attr));
    let mut pad = new_items();
    append_node(&mut pad, sym_node("pad"));
    append_node(&mut pad, quoted_node(""));
    append_node(&mut pad, sym_node("np_thru_hole"));
    append_node(&mut pad, sym_node("circle"));
    let mut at = new_items();
    append_node(&mut at, sym_node("at"));
    append_node(&mut at, num_node(0));
    append_node(&mut at, num_node(0));
    assert(sexp_views(at@) =~= seq![sy("at"@), num(0), num(0)]);
    append_node(&mut pad, Sexp::List(at));
    let mut size = new_items();
    append_node(&mut size, sym_node("size"));
    append_node(&mut size, unsigned_node(d));
    append_node(&mut size, unsigned_node(d));
    assert(sexp_views(size@) =~= seq![sy("size"@), num(d as int), num(d as int)]);
    append_node(&mut pad, Sexp::List(size));
    append_node(&mut pad, clause_node("drill", unsigned_node(d)));
    let mut layers = new_items();
    append_node(&mut layers, sym_node("layers"));
    append_node(&mut layers, quoted_node("*.Cu"));
    append_node(&mut layers, quoted_node("*.Mask"));
    assert(sexp_views(layers@) =~= seq![sy("layers"@), qu("*.Cu"@), qu("*.Mask"@)]);
    append_node(&mut pad, Sexp::List(layers));
    let mut pk = indexed_key("pcb/hole/", i);
    pk.append("/pad");
    append_node(&mut pad, uuid_node(project, pk.as_str()));
    assert(sexp_views(pad@) =~= seq![
        sy("pad"@),
        qu(""@),
        sy("np_thru_hole"@),
        sy("circle"@),
        li(seq![sy("at"@), num(0), num(0)]),
        li(seq![sy("size"@), num(d as int), num(d as int)]),
        clause("drill"@, num(d as int)),
        li(seq![sy("layers"@), qu("*.Cu"@), qu("*.Mask"@)]),
        uuid_clause(project@, "pcb/hole/"@ + decimal(i as nat) + "/pad"@),
    ]);
    append_node(&mut e, Sexp::List(pad));
    assert(sexp_views(e@) =~= match hole_node(project@, i as int, *h) {
        SexpView::List(xs) => xs,
        _ => Seq::empty(),
    });
    Sexp::List(e)
}

fn silk_item(project: &str, i: usize, t: &SilkFacts) -> (n: Sexp)
    ensures
        sexp_view(n) == silk_node(project@, i as int, *t),
{
    let mut e = new_items();
    append_node(&mut e, sym_node("gr_text"));
    append_node(&mut e, quoted_node(t.text.as_str()));
    let mut at = new_items();
    append_node(&mut at, sym_node("at"));
    append_node(&mut at, num_node(t.at.x));
    append_node(&mut at, num_node(t.at.y));
    append_node(&mut at, negated_node(t.rotation));
    assert(sexp_views(at@) =~= seq![sy("at"@), num(t.at.x as int), num(t.at.y as int), sy(negated_text(t.rotation as int))]);
    append_node(&mut e, Sexp::List(at));
    append_node(&mut e, clause_node("layer", quoted_node(t.layer.as_str())));
    let key = indexed_key("pcb/silk/", i);
    append_node(&mut e, uuid_node(project, key.as_str()));
    append_node(&mut e, effects_node());
    assert(sexp_views(e@) =~= seq![
        sy("gr_text"@),
        qu(t.text@),
        li(seq![sy("at"@), num(t.at.x as int), num(t.at.y as int), sy(negated_text(t.rotation as int))]),
        clause("layer"@, qu(t.layer@)),
        uuid_clause(project@, "pcb/silk/"@ + decimal(i as nat)),
        effects(),
    ]);
    Sexp::List(e)
}

} // verus!

verus! {

/// The board file's tree (see `pcb_tree`): its header, the nets with their codes, the placed
/// footprints `footprints` in order, the outline, the segments of each route of a net on the
/// board, the vias and zones of such nets, the keepouts on each of their layers, the mounting
/// holes and the silkscreen texts, each with its stable identity.
pub fn pcb_node(board: &BoardFacts, footprints: &Vec<Sexp>) -> (r: Sexp)
    ensures
        sexp_view(r) == pcb_tree(*board, sexp_views(footprints@)),
{
    let b = board;
    let mut items = header_items(b);
    push_net_entries(&mut items, b);
    let ghost base = sexp_views(items@);
    let mut i: usize = 0;
    while i < footprints.len()
        invariant
            i <= footprints@.len(),
            sexp_views(items@) == base + sexp_views(footprints@).take(i as int),
        decreases footprints.len() - i,
    {
        append_node(&mut items, footprints[i].copy());
        proof {
            crate::connectivity::lemma_sexp_views_index(footprints@, i as int);
        }
        assert(sexp_views(footprints@).take(i + 1) =~= sexp_views(footprints@).take(i as int).push(
            sexp_views(footprints@)[i as int],
        ));
        i += 1;
    }
    proof {
        crate::connectivity::lemma_sexp_views_len(footprints@);
    }
    assert(sexp_views(footprints@).take(i as int) =~= sexp_views(footprints@));
    push_outline(&mut items, b);
    push_routed_copper(&mut items, b);
    push_vias(&mut items, b);
    push_keepouts(&mut items, b);
    push_zones(&mut items, b);
    let ghost h0 = sexp_views(items@);
    let ghost holes = Seq::new(b.holes@.len(), |i: int| hole_node(b.project@, i, b.holes@[i]));
    let mut k: usize = 0;
    while k < b.holes.len()
        invariant
            k <= b.holes@.len(),
            holes == Seq::new(b.holes@.len(), |i: int| hole_node(b.project@, i, b.holes@[i])),
            sexp_views(items@) == h0 + holes.take(k as int),
        decreases b.holes.len() - k,
    {
        append_node(&mut items, hole_item(b.project.as_str(), k, &b.holes[k]));
        assert(holes.take(k + 1) =~= holes.take(k as int).push(holes[k as int]));
        k += 1;
    }
    assert(holes.take(k as int) =~= holes);
    let ghost s0 = sexp_views(items@);
    let ghost silk = Seq::new(b.silk@.len(), |i: int| silk_node(b.project@, i, b.silk@[i]));
    let mut k: usize = 0;
    while k < b.silk.len()
        invariant
            k <= b.silk@.len(),
            silk == Seq::new(b.silk@.len(), |i: int| silk_node(b.project@, i, b.silk@[i])),
            sexp_views(items@) == s0 + silk.take(k as int),
        decreases b.silk.len() - k,
    {
        append_node(&mut items, silk_item(b.project.as_str(), k, &b.silk[k]));
        assert(silk.take(k + 1) =~= silk.take(k as int).push(silk[k as int]));
        k += 1;
    }
    assert(silk.take(k as int) =~= silk);
    assert(sexp_views(items@) =~= match pcb_tree(*b, sexp_views(footprints@)) {
        SexpView::List(xs) => xs,
        _ => Seq::empty(),
    });
    Sexp::List(items)
}

} // verus!

verus! {

proof fn lemma_first_class(classes: Seq<crate::rules::ClassView>, net: Seq<char>, j: int, from: int)
    requires
        0 <= from <= j < classes.len(),
        classes[j].nets.contains(net),
        forall|t: int| 0 <= t < j ==> !(#[trigger] classes[t]).nets.contains(net),
    ensures
        crate::rules::class_index(classes, net, from) == Some(j),
    decreases j - from,
{
    if from < j {
        lemma_first_class(classes, net, j, from + 1);
    }
}

proof fn lemma_no_class(classes: Seq<crate::rules::ClassView>, net: Seq<char>, from: int)
    requires
        0 <= from,
        forall|t: int| 0 <= t < classes.len() ==> !(#[trigger] classes[t]).nets.contains(net),
    ensures
        crate::rules::class_index(classes, net, from) is None,
    decreases classes.len() - from,
{
    if from < classes.len() {
        lemma_no_class(classes, net, from + 1);
    }
}

/// The width a segment is written with: the route's own width, else the preferred track width
/// of the first net class that lists the route's net, else the board's preferred width.
pub proof fn law_segment_width_follows_the_net_class(b: BoardFacts, net: Seq<char>, code: int, ri: int, r: RouteFacts, si: int)
    ensures
        ({
            let classes = b.rules@.net_classes;
            let width = segment(b, net, code, ri, r, si)->List_0[3];
            &&& r.width matches Some(w) ==> width == clause("width"@, num(w as int))
            &&& r.width is None ==> forall|j: int|
                0 <= j < classes.len() && (#[trigger] classes[j]).nets.contains(net) && (forall|t: int|
                    0 <= t < j ==> !(#[trigger] classes[t]).nets.contains(net)) ==> width == clause(
                    "width"@,
                    num(classes[j].preferred_track_width as int),
                )
            &&& (r.width is None && forall|j: int| 0 <= j < classes.len() ==> !(#[trigger] classes[j]).nets.contains(net)) ==> width
                == clause("width"@, num(b.rules.preferred_track_width as int))
        }),
{
    let classes = b.rules@.net_classes;
    assert forall|j: int|
        r.width is None && 0 <= j < classes.len() && (#[trigger] classes[j]).nets.contains(net) && (forall|t: int|
            0 <= t < j ==> !(#[trigger] classes[t]).nets.contains(net)) implies segment(b, net, code, ri, r, si)->List_0[3]
        == clause("width"@, num(classes[j].preferred_track_width as int)) by {
        lemma_first_class(classes, net, j, 0);
    }
    if forall|j: int| 0 <= j < classes.len() ==> !(#[trigger] classes[j]).nets.contains(net) {
        lemma_no_class(classes, net, 0);
    }
}

/// A via is written with its own size and drill where it has them, else with the board's via
/// size and via drill.
pub proof fn law_via_size_and_drill_default_to_the_board(b: BoardFacts, code: int, i: int, v: ViaFacts)
    ensures
        ({
            let node = via_node(b, code, i, v)->List_0;
            &&& node[2] == clause("size"@, num(if v.size is Some { v.size->0 as int } else { b.via_size as int }))
            &&& node[3] == clause("drill"@, num(if v.drill is Some { v.drill->0 as int } else { b.via_drill as int }))
        }),
{
}

proof fn lemma_net_code_from(nets: Seq<String>, name: Seq<char>, i: int, from: int)
    requires
        0 <= from <= i < nets.len(),
        nets[i]@ == name,
        forall|t: int| 0 <= t < i ==> (#[trigger] nets[t])@ != name,
    ensures
        net_code(nets, name, from) == Some(i + 1),
    decreases i - from,
{
    if from < i {
        lemma_net_code_from(nets, name, i, from + 1);
    }
}

proof fn lemma_no_net_code(nets: Seq<String>, name: Seq<char>, from: int)
    requires
        0 <= from,
        forall|t: int| 0 <= t < nets.len() ==> (#[trigger] nets[t])@ != name,
    ensures
        net_code(nets, name, from) is None,
    decreases nets.len() - from,
{
    if from < nets.len() {
        lemma_no_net_code(nets, name, from + 1);
    }
}

/// Net codes follow the order of the project's nets: the first net named `name`, at position
/// `i`, has code `i + 1`, and a name that no net has gets no code (its copper is left out).
pub proof fn law_net_codes_follow_the_net_order(nets: Seq<String>, name: Seq<char>)
    ensures
        forall|i: int|
            0 <= i < nets.len() && (#[trigger] nets[i])@ == name && (forall|t: int| 0 <= t < i ==> (#[trigger] nets[t])@ != name)
                ==> net_code(nets, name, 0) == Some(i + 1),
        (forall|t: int| 0 <= t < nets.len() ==> (#[trigger] nets[t])@ != name) ==> net_code(nets, name, 0) is None,
{
    assert forall|i: int|
        0 <= i < nets.len() && (#[trigger] nets[i])@ == name && (forall|t: int| 0 <= t < i ==> (#[trigger] nets[t])@ != name)
        implies net_code(nets, name, 0) == Some(i + 1) by {
        lemma_net_code_from(nets, name, i, 0);
    }
    if forall|t: int| 0 <= t < nets.len() ==> (#[trigger] nets[t])@ != name {
        lemma_no_net_code(nets, name, 0);
    }
}

} // verus!
