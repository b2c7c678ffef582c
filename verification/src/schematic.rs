//! The schematic files of a generated KiCad project: one page for the root and one for each
//! sub-sheet. A page embeds the library symbols, places the symbols of its components with
//! their properties, pins and instances, adds power flags, wires, a label on every terminal
//! of a net, explicit labels, no-connect markers and, on the root page, the sheet symbols.
//! Positions are in nanometres and angles in millionths of a degree, already in the page's
//! frame.
use crate::board::{
    append_node, clause, clause_node, decimal_node, indexed_key, li, new_items, num, num_node, point_node, qu, quoted_node,
    sy, sym_node, uuid_clause, uuid_node, BoardPoint,
};
use crate::connectivity::{lemma_sexp_views_index, lemma_sexp_views_len, sexp_view, sexp_views, Sexp, SexpView};
use crate::footprint::{first_value, second_quoted};
use crate::kicad::{identity_name, sorted_put, stable_uuid, url_uuid};
use crate::lock::has_key;
use crate::text::{decimal, push_decimal};
use vstd::prelude::*;

verus! {

/// A pin of a library symbol: its number and its unit (0 for every unit).
#[derive(Debug)]
pub struct SymbolPin {
    pub number: String,
    pub unit: u32,
}

/// A component's symbol placed on a page: its view, the page it is on, its library symbol,
/// printed reference, value, footprint and fields, its position, rotation and unit, and the
/// pins of its library symbol.
#[derive(Debug)]
pub struct PlacedSymbol {
    pub view_id: String,
    pub sheet: String,
    pub lib_id: String,
    pub reference: String,
    pub value: String,
    pub footprint: String,
    pub fields: Vec<(String, String)>,
    pub at: BoardPoint,
    pub rotation: i64,
    pub unit: u32,
    pub pins: Vec<SymbolPin>,
}

/// An explicit net label on a page.
#[derive(Debug)]
pub struct LabelFacts {
    pub sheet: String,
    pub net: String,
    pub at: BoardPoint,
    pub rotation: i64,
}

/// What one schematic page is made of. `symbols` holds each component's library symbol under
/// its symbol id; `power_flag` is the library's power flag symbol, needed when `power` (the
/// terminals that take a power flag) is not empty; positions that a terminal has on this page
/// come with `power`, `net_labels` and `no_connect`.
#[derive(Debug)]
pub struct SchematicFacts {
    pub project: String,
    pub version: String,
    pub sheets: Vec<String>,
    pub symbols: Vec<(String, Sexp)>,
    pub power_flag: Option<Sexp>,
    pub placements: Vec<PlacedSymbol>,
    pub power: Vec<(String, Option<BoardPoint>)>,
    pub wires: Vec<(String, Vec<BoardPoint>)>,
    pub net_labels: Vec<(String, Vec<(String, Option<BoardPoint>)>)>,
    pub labels: Vec<LabelFacts>,
    pub no_connect: Vec<(String, Option<BoardPoint>)>,
}

/// `(at x y rotation)`.
pub open spec fn at3(x: int, y: int, rotation: int) -> SexpView {
    li(seq![sy("at"@), num(x), num(y), num(rotation)])
}

/// The text effects of a schematic item, hidden or not.
pub open spec fn sch_effects(hide: bool) -> SexpView {
    li(
        seq![sy("effects"@), li(seq![sy("font"@), li(seq![sy("size"@), num(1_270_000), num(1_270_000)])])] + if hide {
            seq![clause("hide"@, sy("yes"@))]
        } else {
            Seq::empty()
        },
    )
}

/// A symbol property at `(x, y)`.
pub open spec fn property(key: Seq<char>, value: Seq<char>, x: int, y: int, hide: bool) -> SexpView {
    li(seq![sy("property"@), qu(key), qu(value), at3(x, y, 0), sch_effects(hide)])
}

/// The embedded library symbols after the first `k`: each symbol id once, the first symbol
/// given for it, named by its id, in ascending id order.
pub open spec fn symbol_table(syms: Seq<(String, Sexp)>, k: nat) -> Seq<(Seq<char>, SexpView)>
    decreases k,
{
    if k == 0 || k > syms.len() {
        Seq::empty()
    } else {
        let m = symbol_table(syms, (k - 1) as nat);
        let id = syms[k - 1].0@;
        if exists|i: int| 0 <= i < m.len() && #[trigger] m[i].0 == id {
            m
        } else {
            insert_symbol(m, id, second_quoted(sexp_view(syms[k - 1].1), id))
        }
    }
}

/// `m` with `(id, node)` inserted before the first entry whose id is not below `id`.
pub open spec fn insert_symbol(m: Seq<(Seq<char>, SexpView)>, id: Seq<char>, node: SexpView) -> Seq<(Seq<char>, SexpView)>
    decreases m.len(),
{
    if m.len() == 0 {
        seq![(id, node)]
    } else if crate::route_workflow::lex_le(id, m[0].0) {
        seq![(id, node)] + m
    } else {
        seq![m[0]] + insert_symbol(m.drop_first(), id, node)
    }
}

/// The page's `lib_symbols`: the power flag first when terminals take one, then the
/// components' symbols.
pub open spec fn lib_symbols(f: SchematicFacts) -> SexpView {
    li(
        seq![sy("lib_symbols"@)] + (if f.power@.len() > 0 {
            match f.power_flag {
                Some(flag) => seq![second_quoted(sexp_view(flag), "power:PWR_FLAG"@)],
                None => Seq::empty(),
            }
        } else {
            Seq::empty()
        }) + symbol_table(f.symbols@, f.symbols@.len()).map_values(|e: (Seq<char>, SexpView)| e.1),
    )
}

/// The pins of a symbol, each number once with the unit of its first pin, in ascending
/// number order.
pub open spec fn pin_table(pins: Seq<SymbolPin>, k: nat) -> Seq<(Seq<char>, Seq<char>)>
    decreases k,
{
    if k == 0 || k > pins.len() {
        Seq::empty()
    } else {
        let m = pin_table(pins, (k - 1) as nat);
        let p = pins[k - 1];
        if has_key(m, p.number@) {
            m
        } else {
            sorted_put(m, p.number@, decimal(p.unit as nat))
        }
    }
}

/// The pins of table `t` among its first `k` that unit `unit` shows: those of every unit
/// and those of that unit.
pub open spec fn shown_pins(t: Seq<(Seq<char>, Seq<char>)>, unit: nat, k: nat) -> Seq<Seq<char>>
    decreases k,
{
    if k == 0 || k > t.len() {
        Seq::empty()
    } else {
        shown_pins(t, unit, (k - 1) as nat) + if t[k - 1].1 == decimal(0) || t[k - 1].1 == decimal(unit) {
            seq![t[k - 1].0]
        } else {
            Seq::empty()
        }
    }
}

/// The fields of a component after its first `k`, as properties, but for its datasheet.
pub open spec fn field_properties(fields: Seq<(String, String)>, x: int, y: int, k: nat) -> Seq<SexpView>
    decreases k,
{
    if k == 0 || k > fields.len() {
        Seq::empty()
    } else {
        field_properties(fields, x, y, (k - 1) as nat) + if fields[k - 1].0@ == "Datasheet"@ {
            Seq::<SexpView>::empty()
        } else {
            seq![property(fields[k - 1].0@, fields[k - 1].1@, x, y, true)]
        }
    }
}

/// The instance path of a page: the root's identity, then the sheet's.
pub open spec fn instance_path(project: Seq<char>, sheet: Seq<char>) -> Seq<char> {
    let root = url_uuid(identity_name(project, "schematic/root"@));
    if sheet.len() == 0 {
        "/"@ + root
    } else {
        "/"@ + root + "/"@ + url_uuid(identity_name(project, "schematic/sheet/"@ + sheet))
    }
}

/// The instances clause of a symbol on the page with path `path`.
pub open spec fn instances(project: Seq<char>, path: Seq<char>, reference: Seq<char>, unit: Seq<char>) -> SexpView {
    clause(
        "instances"@,
        li(
            seq![
                sy("project"@),
                qu(project),
                li(seq![sy("path"@), qu(path), clause("reference"@, qu(reference)), clause("unit"@, sy(unit))]),
            ],
        ),
    )
}

/// A placed symbol of the page of sheet `sheet`.
pub open spec fn symbol_node(f: SchematicFacts, sheet: Seq<char>, p: PlacedSymbol) -> SexpView {
    let x = p.at.x as int;
    let y = p.at.y as int;
    let value = if p.value@.len() == 0 { p.reference@ } else { p.value@ };
    let datasheet = match first_value(p.fields@, "Datasheet"@, 0) {
        Some(d) => d,
        None => "~"@,
    };
    let key = "schematic/component/"@ + p.view_id@;
    let table = pin_table(p.pins@, p.pins@.len());
    let shown = shown_pins(table, p.unit as nat, table.len());
    li(
        seq![
            sy("symbol"@),
            clause("lib_id"@, qu(p.lib_id@)),
            at3(x, y, p.rotation as int),
            clause("unit"@, sy(decimal(p.unit as nat))),
            clause("exclude_from_sim"@, sy("no"@)),
            clause("in_bom"@, sy("yes"@)),
            clause("on_board"@, sy("yes"@)),
            clause("dnp"@, sy("no"@)),
            uuid_clause(f.project@, key),
            property("Reference"@, p.reference@, x, y, false),
            property("Value"@, value, x, y + 2_540_000, false),
            property("Footprint"@, p.footprint@, x, y, true),
            property("Datasheet"@, datasheet, x, y, true),
        ] + field_properties(p.fields@, x, y, p.fields@.len()) + Seq::new(
            shown.len(),
            |j: int| li(seq![sy("pin"@), qu(shown[j]), uuid_clause(f.project@, key + "/pin/"@ + shown[j])]),
        ) + seq![instances(f.project@, instance_path(f.project@, sheet), p.reference@, decimal(p.unit as nat))],
    )
}

/// The symbols of the first `k` placements that are on the page.
pub open spec fn symbol_nodes(f: SchematicFacts, sheet: Seq<char>, k: nat) -> Seq<SexpView>
    decreases k,
{
    if k == 0 || k > f.placements@.len() {
        Seq::empty()
    } else {
        symbol_nodes(f, sheet, (k - 1) as nat) + if f.placements@[k - 1].sheet@ == sheet {
            seq![symbol_node(f, sheet, f.placements@[k - 1])]
        } else {
            Seq::empty()
        }
    }
}

/// The power flag of terminal `endpoint`, the `i`-th that takes one, at `at`.
pub open spec fn power_flag(f: SchematicFacts, sheet: Seq<char>, endpoint: Seq<char>, at: BoardPoint, i: int) -> SexpView {
    let reference = "#FLG"@ + decimal((i + 1) as nat);
    let x = at.x as int;
    let y = at.y as int;
    li(
        seq![
            sy("symbol"@),
            clause("lib_id"@, qu("power:PWR_FLAG"@)),
            at3(x, y, 0),
            clause("unit"@, sy("1"@)),
            clause("in_bom"@, sy("no"@)),
            clause("on_board"@, sy("no"@)),
            uuid_clause(f.project@, "schematic/power/"@ + endpoint),
            li(seq![sy("property"@), qu("Reference"@), qu(reference), at3(x, y, 0), sch_effects(true)]),
            li(seq![sy("property"@), qu("Value"@), qu("PWR_FLAG"@), at3(x, y, 0), sch_effects(true)]),
            instances(f.project@, instance_path(f.project@, sheet), reference, "1"@),
        ],
    )
}

/// The power flags of the first `k` terminals that take one and have a position on the page.
pub open spec fn power_flags(f: SchematicFacts, sheet: Seq<char>, k: nat) -> Seq<SexpView>
    decreases k,
{
    if k == 0 || k > f.power@.len() {
        Seq::empty()
    } else {
        power_flags(f, sheet, (k - 1) as nat) + match f.power@[k - 1].1 {
            Some(at) => seq![power_flag(f, sheet, f.power@[k - 1].0@, at, k - 1)],
            None => Seq::empty(),
        }
    }
}

/// The number of the first `k` entries of `sheets` that name page `sheet`.
pub open spec fn on_page(sheets: Seq<Seq<char>>, sheet: Seq<char>, k: nat) -> nat
    decreases k,
{
    if k == 0 || k > sheets.len() {
        0
    } else {
        on_page(sheets, sheet, (k - 1) as nat) + if sheets[k - 1] == sheet {
            1nat
        } else {
            0nat
        }
    }
}

/// The pages of the wires.
pub open spec fn wire_sheets(f: SchematicFacts) -> Seq<Seq<char>> {
    f.wires@.map_values(|w: (String, Vec<BoardPoint>)| w.0@)
}

/// The segments of wire `path`, the `w`-th of the page.
pub open spec fn wire_segments(f: SchematicFacts, sheet: Seq<char>, w: nat, path: Seq<BoardPoint>) -> Seq<SexpView> {
    Seq::new(
        if path.len() > 0 { (path.len() - 1) as nat } else { 0 },
        |s: int|
            li(
                seq![
                    sy("wire"@),
                    li(seq![sy("pts"@), crate::board::point_clause("xy"@, path[s]), crate::board::point_clause("xy"@, path[s + 1])]),
                    li(seq![sy("stroke"@), clause("width"@, num(0)), clause("type"@, sy("default"@))]),
                    uuid_clause(
                        f.project@,
                        "schematic/wire/"@ + sheet + "/"@ + decimal(w) + "/"@ + decimal(s as nat),
                    ),
                ],
            ),
    )
}

/// The wire segments of the first `k` wires that are on the page.
pub open spec fn wire_nodes(f: SchematicFacts, sheet: Seq<char>, k: nat) -> Seq<SexpView>
    decreases k,
{
    if k == 0 || k > f.wires@.len() {
        Seq::empty()
    } else {
        wire_nodes(f, sheet, (k - 1) as nat) + if f.wires@[k - 1].0@ == sheet {
            wire_segments(f, sheet, on_page(wire_sheets(f), sheet, (k - 1) as nat), f.wires@[k - 1].1@)
        } else {
            Seq::empty()
        }
    }
}

/// A label of net `net` at `(x, y)`: local on a single page, global with sub-sheets.
pub open spec fn label_node(f: SchematicFacts, net: Seq<char>, x: int, y: int, rotation: int, key: Seq<char>) -> SexpView {
    let sheets = f.sheets@.len() > 0;
    li(
        seq![
            sy(if sheets { "global_label"@ } else { "label"@ }),
            qu(net),
            at3(x, y, rotation),
            sch_effects(false),
            uuid_clause(f.project@, "schematic/label/"@ + net + "/"@ + key),
        ] + if sheets {
            seq![clause("shape"@, sy("passive"@))]
        } else {
            Seq::empty()
        },
    )
}

/// The labels of the first `k` terminals of net `net` that have a position on the page.
pub open spec fn terminal_labels(
    f: SchematicFacts,
    sheet: Seq<char>,
    net: Seq<char>,
    ts: Seq<(String, Option<BoardPoint>)>,
    k: nat,
) -> Seq<SexpView>
    decreases k,
{
    if k == 0 || k > ts.len() {
        Seq::empty()
    } else {
        terminal_labels(f, sheet, net, ts, (k - 1) as nat) + match ts[k - 1].1 {
            Some(at) => seq![label_node(f, net, at.x as int, at.y as int, 0, sheet + "/endpoint/"@ + ts[k - 1].0@)],
            None => Seq::empty(),
        }
    }
}

/// The terminal labels of the first `k` nets.
pub open spec fn net_labels(f: SchematicFacts, sheet: Seq<char>, k: nat) -> Seq<SexpView>
    decreases k,
{
    if k == 0 || k > f.net_labels@.len() {
        Seq::empty()
    } else {
        let (net, ts) = f.net_labels@[k - 1];
        net_labels(f, sheet, (k - 1) as nat) + terminal_labels(f, sheet, net@, ts@, ts@.len())
    }
}

/// The pages of the explicit labels.
pub open spec fn label_sheets(f: SchematicFacts) -> Seq<Seq<char>> {
    f.labels@.map_values(|l: LabelFacts| l.sheet@)
}

/// The first `k` explicit labels that are on the page.
pub open spec fn explicit_labels(f: SchematicFacts, sheet: Seq<char>, k: nat) -> Seq<SexpView>
    decreases k,
{
    if k == 0 || k > f.labels@.len() {
        Seq::empty()
    } else {
        let l = f.labels@[k - 1];
        explicit_labels(f, sheet, (k - 1) as nat) + if l.sheet@ == sheet {
            seq![
                label_node(
                    f,
                    l.net@,
                    l.at.x as int,
                    l.at.y as int,
                    l.rotation as int,
                    sheet + "/explicit/"@ + decimal(on_page(label_sheets(f), sheet, (k - 1) as nat)),
                ),
            ]
        } else {
            Seq::empty()
        }
    }
}

/// The no-connect markers of the first `k` terminals that have a position on the page.
pub open spec fn no_connects(f: SchematicFacts, sheet: Seq<char>, k: nat) -> Seq<SexpView>
    decreases k,
{
    if k == 0 || k > f.no_connect@.len() {
        Seq::empty()
    } else {
        no_connects(f, sheet, (k - 1) as nat) + match f.no_connect@[k - 1].1 {
            Some(at) => seq![
                li(
                    seq![
                        sy("no_connect"@),
                        li(seq![sy("at"@), num(at.x as int), num(at.y as int)]),
                        uuid_clause(f.project@, "schematic/no-connect/"@ + sheet + "/"@ + f.no_connect@[k - 1].0@),
                    ],
                ),
            ],
            None => Seq::empty(),
        }
    }
}

/// The symbol of sub-sheet `sheet`, the `i`-th: four to a row, 65 mm apart, rows 25 mm apart.
pub open spec fn sheet_symbol(f: SchematicFacts, sheet: Seq<char>, i: nat) -> SexpView {
    let x: int = 20_000_000int + (i as int % 4) * 65_000_000;
    let y: int = 120_000_000int + (i as int / 4) * 25_000_000;
    let id = url_uuid(identity_name(f.project@, "schematic/sheet/"@ + sheet));
    li(
        seq![
            sy("sheet"@),
            li(seq![sy("at"@), num(x), num(y)]),
            li(seq![sy("size"@), num(50_000_000), num(15_000_000)]),
            clause("uuid"@, qu(id)),
            li(seq![sy("property"@), qu("Sheetname"@), qu(sheet), at3(x, y - 1_270_000, 0), sch_effects(false)]),
            li(
                seq![
                    sy("property"@),
                    qu("Sheetfile"@),
                    qu(f.project@ + ".sheets/"@ + id + ".kicad_sch"@),
                    at3(x, y + 16_270_000, 0),
                    sch_effects(false),
                ],
            ),
            clause(
                "instances"@,
                li(
                    seq![
                        sy("project"@),
                        qu(f.project@),
                        li(
                            seq![
                                sy("path"@),
                                qu("/"@ + url_uuid(identity_name(f.project@, "schematic/root"@))),
                                clause("page"@, qu(decimal(i + 2))),
                            ],
                        ),
                    ],
                ),
            ),
        ],
    )
}

/// The tree of the page of sheet `sheet` (the root page for an empty name).
pub open spec fn schematic_tree(f: SchematicFacts, sheet: Seq<char>) -> SexpView {
    let root = sheet.len() == 0;
    let page = if root {
        url_uuid(identity_name(f.project@, "schematic/root"@))
    } else {
        url_uuid(identity_name(f.project@, "schematic/file/"@ + sheet))
    };
    li(
        seq![
            sy("kicad_sch"@),
            clause("version"@, sy("20250114"@)),
            clause("generator"@, qu("kil"@)),
            clause("generator_version"@, qu(f.version@)),
            clause("uuid"@, qu(page)),
            clause("paper"@, qu(if f.sheets@.len() > 8 && root { "A3"@ } else { "A4"@ })),
            lib_symbols(f),
        ] + symbol_nodes(f, sheet, f.placements@.len()) + power_flags(f, sheet, f.power@.len()) + wire_nodes(
            f,
            sheet,
            f.wires@.len(),
        ) + net_labels(f, sheet, f.net_labels@.len()) + explicit_labels(f, sheet, f.labels@.len()) + no_connects(
            f,
            sheet,
            f.no_connect@.len(),
        ) + (if root {
            Seq::new(f.sheets@.len(), |i: int| sheet_symbol(f, f.sheets@[i]@, i as nat))
        } else {
            Seq::empty()
        }) + seq![clause("sheet_instances"@, li(seq![sy("path"@), qu("/"@), clause("page"@, qu("1"@))]))],
    )
}

} // verus!

verus! {

/// The plain entries of a symbol table.
pub open spec fn entry_views(m: Seq<(String, Sexp)>) -> Seq<(Seq<char>, SexpView)> {
    m.map_values(|e: (String, Sexp)| (e.0@, sexp_view(e.1)))
}

fn insert_symbol_exec(m: Vec<(String, Sexp)>, id: &String, node: Sexp) -> (r: Vec<(String, Sexp)>)
    ensures
        entry_views(r@) == insert_symbol(entry_views(m@), id@, sexp_view(node)),
{
    let ghost mv = entry_views(m@);
    let ghost nv = sexp_view(node);
    let mut i: usize = 0;
    assert(mv.skip(0) =~= mv);
    assert(mv.take(0) + mv =~= mv);
    while i < m.len() && !crate::route_workflow::lex_le_exec(id, &m[i].0)
        invariant
            i <= m@.len(),
            mv == entry_views(m@),
            insert_symbol(mv, id@, nv) == mv.take(i as int) + insert_symbol(mv.skip(i as int), id@, nv),
        decreases m.len() - i,
    {
        proof {
            let rest = mv.skip(i as int);
            assert(rest[0] == (m@[i as int].0@, sexp_view(m@[i as int].1)));
            assert(rest.drop_first() =~= mv.skip(i + 1));
            assert(mv.take(i + 1) =~= mv.take(i as int) + seq![rest[0]]);
            assert(mv.take(i as int) + (seq![rest[0]] + insert_symbol(rest.drop_first(), id@, nv)) =~= mv.take(i + 1)
                + insert_symbol(mv.skip(i + 1), id@, nv));
        }
        i += 1;
    }
    proof {
        if i < m.len() {
            assert(mv.skip(i as int)[0] == (m@[i as int].0@, sexp_view(m@[i as int].1)));
        } else {
            assert(mv.skip(i as int) =~= Seq::<(Seq<char>, SexpView)>::empty());
        }
    }
    let mut m = m;
    m.insert(i, (id.clone(), node));
    assert(entry_views(m@) =~= mv.take(i as int) + (seq![(id@, nv)] + mv.skip(i as int)));
    m
}

fn symbols_exec(syms: &Vec<(String, Sexp)>) -> (r: Vec<(String, Sexp)>)
    ensures
        entry_views(r@) == symbol_table(syms@, syms@.len()),
{
    let mut m: Vec<(String, Sexp)> = Vec::new();
    assert(entry_views(m@) =~= symbol_table(syms@, 0));
    let mut k: usize = 0;
    while k < syms.len()
        invariant
            k <= syms@.len(),
            entry_views(m@) == symbol_table(syms@, k as nat),
        decreases syms.len() - k,
    {
        let ghost mv = entry_views(m@);
        let id = &syms[k].0;
        let mut found = false;
        let mut j: usize = 0;
        while j < m.len()
            invariant
                j <= m@.len(),
                mv == entry_views(m@),
                !found ==> forall|t: int| 0 <= t < j ==> #[trigger] mv[t].0 != id@,
                found ==> exists|t: int| 0 <= t < mv.len() && #[trigger] mv[t].0 == id@,
            decreases m.len() - j,
        {
            assert(mv[j as int] == (m@[j as int].0@, sexp_view(m@[j as int].1)));
            if crate::text::same_text(m[j].0.as_str(), id.as_str()) {
                assert(mv[j as int].0 == id@);
                found = true;
            }
            j += 1;
        }
        if !found {
            let mut node = syms[k].1.copy();
            crate::footprint::set_second_quoted(&mut node, id.as_str());
            m = insert_symbol_exec(m, id, node);
        }
        k += 1;
    }
    m
}

fn has_pin(m: &Vec<(String, String)>, number: &String) -> (r: bool)
    ensures
        r == has_key(crate::modules::pair_views(m@), number@),
{
    let ghost mv = crate::modules::pair_views(m@);
    let mut j: usize = 0;
    while j < m.len()
        invariant
            j <= m@.len(),
            mv == crate::modules::pair_views(m@),
            forall|t: int| 0 <= t < j ==> #[trigger] mv[t].0 != number@,
        decreases m.len() - j,
    {
        assert(mv[j as int] == (m@[j as int].0@, m@[j as int].1@));
        if crate::text::same_text(m[j].0.as_str(), number.as_str()) {
            assert(mv[j as int].0 == number@);
            return true;
        }
        j += 1;
    }
    false
}

fn pins_exec(pins: &Vec<SymbolPin>) -> (r: Vec<(String, String)>)
    ensures
        crate::modules::pair_views(r@) == pin_table(pins@, pins@.len()),
{
    let mut m: Vec<(String, String)> = Vec::new();
    assert(crate::modules::pair_views(m@) =~= pin_table(pins@, 0));
    let mut k: usize = 0;
    while k < pins.len()
        invariant
            k <= pins@.len(),
            crate::modules::pair_views(m@) == pin_table(pins@, k as nat),
        decreases pins.len() - k,
    {
        if !has_pin(&m, &pins[k].number) {
            let mut unit = String::new();
            push_decimal(&mut unit, pins[k].unit as usize);
            m = crate::kicad::sorted_put_exec(m, &pins[k].number, &unit);
        }
        k += 1;
    }
    m
}

fn shown_exec(t: &Vec<(String, String)>, unit: u32) -> (r: Vec<String>)
    ensures
        crate::text::views(r@) == shown_pins(crate::modules::pair_views(t@), unit as nat, t@.len()),
{
    let ghost tv = crate::modules::pair_views(t@);
    let mut zero = String::new();
    push_decimal(&mut zero, 0);
    let mut own = String::new();
    push_decimal(&mut own, unit as usize);
    let mut out: Vec<String> = Vec::new();
    let mut k: usize = 0;
    assert(crate::text::views(out@) =~= shown_pins(tv, unit as nat, 0));
    while k < t.len()
        invariant
            k <= t@.len(),
            tv == crate::modules::pair_views(t@),
            tv.len() == t@.len(),
            zero@ == decimal(0),
            own@ == decimal(unit as nat),
            crate::text::views(out@) == shown_pins(tv, unit as nat, k as nat),
        decreases t.len() - k,
    {
        assert(tv[k as int] == (t@[k as int].0@, t@[k as int].1@));
        let u = t[k].1.as_str();
        if crate::text::same_text(u, zero.as_str()) || crate::text::same_text(u, own.as_str()) {
            let ghost before = out@;
            out.push(t[k].0.clone());
            proof {
                crate::text::lemma_views_push(before, out@.last());
            }
        }
        assert(crate::text::views(out@) =~= shown_pins(tv, unit as nat, (k + 1) as nat));
        k += 1;
    }
    out
}

} // verus!

verus! {

fn at3_node(x: i64, y: i64, rotation: i64) -> (n: Sexp)
    ensures
        sexp_view(n) == at3(x as int, y as int, rotation as int),
{
    let mut e = new_items();
    append_node(&mut e, sym_node("at"));
    append_node(&mut e, num_node(x));
    append_node(&mut e, num_node(y));
    append_node(&mut e, num_node(rotation));
    assert(sexp_views(e@) =~= seq![sy("at"@), num(x as int), num(y as int), num(rotation as int)]);
    Sexp::List(e)
}

fn effects_node(hide: bool) -> (n: Sexp)
    ensures
        sexp_view(n) == sch_effects(hide),
{
    let mut size = new_items();
    append_node(&mut size, sym_node("size"));
    append_node(&mut size, num_node(1_270_000));
    append_node(&mut size, num_node(1_270_000));
    assert(sexp_views(size@) =~= seq![sy("size"@), num(1_270_000), num(1_270_000)]);
    let mut e = new_items();
    append_node(&mut e, sym_node("effects"));
    append_node(&mut e, clause_node("font", Sexp::List(size)));
    if hide {
        append_node(&mut e, clause_node("hide", sym_node("yes")));
    }
    assert(sexp_views(e@) =~= match sch_effects(hide) {
        SexpView::List(xs) => xs,
        _ => Seq::empty(),
    });
    Sexp::List(e)
}

fn property_node(key: &str, value: &str, x: i64, y: i64, hide: bool) -> (n: Sexp)
    ensures
        sexp_view(n) == property(key@, value@, x as int, y as int, hide),
{
    let mut e = new_items();
    append_node(&mut e, sym_node("property"));
    append_node(&mut e, quoted_node(key));
    append_node(&mut e, quoted_node(value));
    append_node(&mut e, at3_node(x, y, 0));
    append_node(&mut e, effects_node(hide));
    assert(sexp_views(e@) =~= seq![sy("property"@), qu(key@), qu(value@), at3(x as int, y as int, 0), sch_effects(hide)]);
    Sexp::List(e)
}

fn instances_node(project: &str, path: &str, reference: &str, unit: &str) -> (n: Sexp)
    ensures
        sexp_view(n) == instances(project@, path@, reference@, unit@),
{
    let mut p = new_items();
    append_node(&mut p, sym_node("path"));
    append_node(&mut p, quoted_node(path));
    append_node(&mut p, clause_node("reference", quoted_node(reference)));
    append_node(&mut p, clause_node("unit", sym_node(unit)));
    assert(sexp_views(p@) =~= seq![sy("path"@), qu(path@), clause("reference"@, qu(reference@)), clause("unit"@, sy(unit@))]);
    let mut pr = new_items();
    append_node(&mut pr, sym_node("project"));
    append_node(&mut pr, quoted_node(project));
    append_node(&mut pr, Sexp::List(p));
    assert(sexp_views(pr@) =~= seq![
        sy("project"@),
        qu(project@),
        li(seq![sy("path"@), qu(path@), clause("reference"@, qu(reference@)), clause("unit"@, sy(unit@))]),
    ]);
    clause_node("instances", Sexp::List(pr))
}

fn page_path(project: &str, sheet: &str) -> (r: String)
    ensures
        r@ == instance_path(project@, sheet@),
{
    let root = stable_uuid(project, "schematic/root");
    let mut r = String::new();
    r.append("/");
    r.append(root.as_str());
    if sheet.unicode_len() > 0 {
        let key = crate::text::text2("schematic/sheet/", sheet);
        let id = stable_uuid(project, key.as_str());
        r.append("/");
        r.append(id.as_str());
    }
    r
}

fn datasheet_of(fields: &Vec<(String, String)>) -> (r: String)
    ensures
        r@ == match first_value(fields@, "Datasheet"@, 0) {
            Some(d) => d,
            None => "~"@,
        },
{
    let mut i: usize = 0;
    while i < fields.len()
        invariant
            i <= fields@.len(),
            first_value(fields@, "Datasheet"@, 0) == first_value(fields@, "Datasheet"@, i as int),
        decreases fields.len() - i,
    {
        if crate::text::same_text(fields[i].0.as_str(), "Datasheet") {
            return fields[i].1.clone();
        }
        i += 1;
    }
    "~".to_owned()
}

} // verus!

verus! {

fn push_field_properties(items: &mut Vec<Sexp>, fields: &Vec<(String, String)>, x: i64, y: i64)
    ensures
        sexp_views(final(items)@) == sexp_views(old(items)@) + field_properties(fields@, x as int, y as int, fields@.len()),
{
    let ghost base = sexp_views(items@);
    let mut k: usize = 0;
    while k < fields.len()
        invariant
            k <= fields@.len(),
            sexp_views(items@) == base + field_properties(fields@, x as int, y as int, k as nat),
        decreases fields.len() - k,
    {
        if !crate::text::same_text(fields[k].0.as_str(), "Datasheet") {
            append_node(items, property_node(fields[k].0.as_str(), fields[k].1.as_str(), x, y, true));
        }
        assert(sexp_views(items@) =~= base + field_properties(fields@, x as int, y as int, (k + 1) as nat));
        k += 1;
    }
}

fn symbol_item(f: &SchematicFacts, sheet: &str, path: &str, p: &PlacedSymbol) -> (n: Sexp)
    requires
        p.at.y <= i64::MAX - 2_540_000,
        path@ == instance_path(f.project@, sheet@),
    ensures
        sexp_view(n) == symbol_node(*f, sheet@, *p),
{
    let x = p.at.x;
    let y = p.at.y;
    let mut unit = String::new();
    push_decimal(&mut unit, p.unit as usize);
    let value = if p.value.unicode_len() == 0 {
        p.reference.as_str()
    } else {
        p.value.as_str()
    };
    let datasheet = datasheet_of(&p.fields);
    let key = crate::text::text2("schematic/component/", p.view_id.as_str());
    let mut e = new_items();
    append_node(&mut e, sym_node("symbol"));
    append_node(&mut e, clause_node("lib_id", quoted_node(p.lib_id.as_str())));
    append_node(&mut e, at3_node(x, y, p.rotation));
    append_node(&mut e, clause_node("unit", sym_node(unit.as_str())));
    append_node(&mut e, clause_node("exclude_from_sim", sym_node("no")));
    append_node(&mut e, clause_node("in_bom", sym_node("yes")));
    append_node(&mut e, clause_node("on_board", sym_node("yes")));
    append_node(&mut e, clause_node("dnp", sym_node("no")));
    append_node(&mut e, uuid_node(f.project.as_str(), key.as_str()));
    append_node(&mut e, property_node("Reference", p.reference.as_str(), x, y, false));
    append_node(&mut e, property_node("Value", value, x, y + 2_540_000, false));
    append_node(&mut e, property_node("Footprint", p.footprint.as_str(), x, y, true));
    append_node(&mut e, property_node("Datasheet", datasheet.as_str(), x, y, true));
    let ghost head = sexp_views(e@);
    push_field_properties(&mut e, &p.fields, x, y);
    let ghost with_fields = sexp_views(e@);
    let table = pins_exec(&p.pins);
    let shown = shown_exec(&table, p.unit);
    let ghost sv = crate::text::views(shown@);
    let ghost pins = Seq::new(
        sv.len(),
        |j: int| li(seq![sy("pin"@), qu(sv[j]), uuid_clause(f.project@, key@ + "/pin/"@ + sv[j])]),
    );
    let mut j: usize = 0;
    while j < shown.len()
        invariant
            j <= shown@.len(),
            sv == crate::text::views(shown@),
            sv.len() == shown@.len(),
            pins == Seq::new(
                sv.len(),
                |j: int| li(seq![sy("pin"@), qu(sv[j]), uuid_clause(f.project@, key@ + "/pin/"@ + sv[j])]),
            ),
            sexp_views(e@) == with_fields + pins.take(j as int),
        decreases shown.len() - j,
    {
        assert(sv[j as int] == shown@[j as int]@);
        let pk = crate::text::text3(key.as_str(), "/pin/", shown[j].as_str());
        let mut pin = new_items();
        append_node(&mut pin, sym_node("pin"));
        append_node(&mut pin, quoted_node(shown[j].as_str()));
        append_node(&mut pin, uuid_node(f.project.as_str(), pk.as_str()));
        assert(sexp_views(pin@) =~= seq![sy("pin"@), qu(sv[j as int]), uuid_clause(f.project@, key@ + "/pin/"@ + sv[j as int])]);
        append_node(&mut e, Sexp::List(pin));
        assert(pins.take(j + 1) =~= pins.take(j as int).push(pins[j as int]));
        j += 1;
    }
    assert(pins.take(j as int) =~= pins);
    append_node(&mut e, instances_node(f.project.as_str(), path, p.reference.as_str(), unit.as_str()));
    assert(sexp_views(e@) =~= match symbol_node(*f, sheet@, *p) {
        SexpView::List(xs) => xs,
        _ => Seq::empty(),
    });
    Sexp::List(e)
}

} // verus!

verus! {

fn power_flag_item(f: &SchematicFacts, sheet: &str, path: &str, endpoint: &str, at: BoardPoint, i: usize) -> (n: Sexp)
    requires
        path@ == instance_path(f.project@, sheet@),
        i < usize::MAX,
    ensures
        sexp_view(n) == power_flag(*f, sheet@, endpoint@, at, i as int),
{
    let reference = indexed_key("#FLG", i + 1);
    let key = crate::text::text2("schematic/power/", endpoint);
    let mut e = new_items();
    append_node(&mut e, sym_node("symbol"));
    append_node(&mut e, clause_node("lib_id", quoted_node("power:PWR_FLAG")));
    append_node(&mut e, at3_node(at.x, at.y, 0));
    append_node(&mut e, clause_node("unit", sym_node("1")));
    append_node(&mut e, clause_node("in_bom", sym_node("no")));
    append_node(&mut e, clause_node("on_board", sym_node("no")));
    append_node(&mut e, uuid_node(f.project.as_str(), key.as_str()));
    let mut r1 = new_items();
    append_node(&mut r1, sym_node("property"));
    append_node(&mut r1, quoted_node("Reference"));
    append_node(&mut r1, quoted_node(reference.as_str()));
    append_node(&mut r1, at3_node(at.x, at.y, 0));
    append_node(&mut r1, effects_node(true));
    assert(sexp_views(r1@) =~= seq![sy("property"@), qu("Reference"@), qu(reference@), at3(at.x as int, at.y as int, 0), sch_effects(true)]);
    append_node(&mut e, Sexp::List(r1));
    let mut r2 = new_items();
    append_node(&mut r2, sym_node("property"));
    append_node(&mut r2, quoted_node("Value"));
    append_node(&mut r2, quoted_node("PWR_FLAG"));
    append_node(&mut r2, at3_node(at.x, at.y, 0));
    append_node(&mut r2, effects_node(true));
    assert(sexp_views(r2@) =~= seq![sy("property"@), qu("Value"@), qu("PWR_FLAG"@), at3(at.x as int, at.y as int, 0), sch_effects(true)]);
    append_node(&mut e, Sexp::List(r2));
    append_node(&mut e, instances_node(f.project.as_str(), path, reference.as_str(), "1"));
    assert(sexp_views(e@) =~= match power_flag(*f, sheet@, endpoint@, at, i as int) {
        SexpView::List(xs) => xs,
        _ => Seq::empty(),
    });
    Sexp::List(e)
}

fn push_power_flags(items: &mut Vec<Sexp>, f: &SchematicFacts, sheet: &str, path: &str)
    requires
        path@ == instance_path(f.project@, sheet@),
    ensures
        sexp_views(final(items)@) == sexp_views(old(items)@) + power_flags(*f, sheet@, f.power@.len()),
{
    let ghost base = sexp_views(items@);
    let mut k: usize = 0;
    while k < f.power.len()
        invariant
            k <= f.power@.len(),
            path@ == instance_path(f.project@, sheet@),
            sexp_views(items@) == base + power_flags(*f, sheet@, k as nat),
        decreases f.power.len() - k,
    {
        match f.power[k].1 {
            Some(at) => {
                append_node(items, power_flag_item(f, sheet, path, f.power[k].0.as_str(), at, k));
            },
            None => {},
        }
        assert(sexp_views(items@) =~= base + power_flags(*f, sheet@, (k + 1) as nat));
        k += 1;
    }
}

fn wire_segment_item(f: &SchematicFacts, sheet: &str, w: usize, path: &Vec<BoardPoint>, s: usize) -> (n: Sexp)
    requires
        s + 1 < path@.len(),
    ensures
        sexp_view(n) == wire_segments(*f, sheet@, w as nat, path@)[s as int],
{
    let _points = path.len();
    let mut pts = new_items();
    append_node(&mut pts, sym_node("pts"));
    append_node(&mut pts, point_node("xy", path[s]));
    append_node(&mut pts, point_node("xy", path[s + 1]));
    assert(sexp_views(pts@) =~= seq![
        sy("pts"@),
        crate::board::point_clause("xy"@, path@[s as int]),
        crate::board::point_clause("xy"@, path@[s + 1]),
    ]);
    let mut st = new_items();
    append_node(&mut st, sym_node("stroke"));
    append_node(&mut st, clause_node("width", num_node(0)));
    append_node(&mut st, clause_node("type", sym_node("default")));
    assert(sexp_views(st@) =~= seq![sy("stroke"@), clause("width"@, num(0)), clause("type"@, sy("default"@))]);
    let mut key = crate::text::text3("schematic/wire/", sheet, "/");
    push_decimal(&mut key, w);
    key.append("/");
    push_decimal(&mut key, s);
    let mut e = new_items();
    append_node(&mut e, sym_node("wire"));
    append_node(&mut e, Sexp::List(pts));
    append_node(&mut e, Sexp::List(st));
    append_node(&mut e, uuid_node(f.project.as_str(), key.as_str()));
    assert(key@ =~= "schematic/wire/"@ + sheet@ + "/"@ + decimal(w as nat) + "/"@ + decimal(s as nat));
    assert(sexp_views(e@) =~= match wire_segments(*f, sheet@, w as nat, path@)[s as int] {
        SexpView::List(xs) => xs,
        _ => Seq::empty(),
    });
    Sexp::List(e)
}

fn push_wires(items: &mut Vec<Sexp>, f: &SchematicFacts, sheet: &str)
    ensures
        sexp_views(final(items)@) == sexp_views(old(items)@) + wire_nodes(*f, sheet@, f.wires@.len()),
{
    let ghost base = sexp_views(items@);
    let mut count: usize = 0;
    let mut k: usize = 0;
    while k < f.wires.len()
        invariant
            k <= f.wires@.len(),
            count <= k,
            count as nat == on_page(wire_sheets(*f), sheet@, k as nat),
            sexp_views(items@) == base + wire_nodes(*f, sheet@, k as nat),
        decreases f.wires.len() - k,
    {
        assert(wire_sheets(*f)[k as int] == f.wires@[k as int].0@);
        if crate::text::same_text(f.wires[k].0.as_str(), sheet) {
            let path = &f.wires[k].1;
            let ghost before = sexp_views(items@);
            let ghost segs = wire_segments(*f, sheet@, count as nat, path@);
            if path.len() > 0 {
                let n = path.len() - 1;
                let mut s: usize = 0;
                while s < n
                    invariant
                        s <= n,
                        n + 1 == path@.len(),
                        segs == wire_segments(*f, sheet@, count as nat, path@),
                        segs.len() == n,
                        sexp_views(items@) == before + segs.take(s as int),
                    decreases n - s,
                {
                    append_node(items, wire_segment_item(f, sheet, count, path, s));
                    assert(segs.take(s + 1) =~= segs.take(s as int).push(segs[s as int]));
                    s += 1;
                }
                assert(segs.take(s as int) =~= segs);
            } else {
                assert(segs =~= Seq::<SexpView>::empty());
                assert(sexp_views(items@) =~= before + segs);
            }
            count += 1;
        }
        assert(sexp_views(items@) =~= base + wire_nodes(*f, sheet@, (k + 1) as nat));
        k += 1;
    }
}

} // verus!

verus! {

fn label_item(f: &SchematicFacts, net: &str, x: i64, y: i64, rotation: i64, key: &str) -> (n: Sexp)
    ensures
        sexp_view(n) == label_node(*f, net@, x as int, y as int, rotation as int, key@),
{
    let sheets = f.sheets.len() > 0;
    let uk = crate::text::text4("schematic/label/", net, "/", key);
    let mut e = new_items();
    if sheets {
        append_node(&mut e, sym_node("global_label"));
    } else {
        append_node(&mut e, sym_node("label"));
    }
    append_node(&mut e, quoted_node(net));
    append_node(&mut e, at3_node(x, y, rotation));
    append_node(&mut e, effects_node(false));
    append_node(&mut e, uuid_node(f.project.as_str(), uk.as_str()));
    if sheets {
        append_node(&mut e, clause_node("shape", sym_node("passive")));
    }
    assert(sexp_views(e@) =~= match label_node(*f, net@, x as int, y as int, rotation as int, key@) {
        SexpView::List(xs) => xs,
        _ => Seq::empty(),
    });
    Sexp::List(e)
}

fn push_net_labels(items: &mut Vec<Sexp>, f: &SchematicFacts, sheet: &str)
    ensures
        sexp_views(final(items)@) == sexp_views(old(items)@) + net_labels(*f, sheet@, f.net_labels@.len()),
{
    let ghost base = sexp_views(items@);
    let mut k: usize = 0;
    while k < f.net_labels.len()
        invariant
            k <= f.net_labels@.len(),
            sexp_views(items@) == base + net_labels(*f, sheet@, k as nat),
        decreases f.net_labels.len() - k,
    {
        let net = f.net_labels[k].0.as_str();
        let ts = &f.net_labels[k].1;
        let ghost before = sexp_views(items@);
        let mut j: usize = 0;
        while j < ts.len()
            invariant
                j <= ts@.len(),
                sexp_views(items@) == before + terminal_labels(*f, sheet@, net@, ts@, j as nat),
            decreases ts.len() - j,
        {
            match ts[j].1 {
                Some(at) => {
                    let key = crate::text::text3(sheet, "/endpoint/", ts[j].0.as_str());
                    append_node(items, label_item(f, net, at.x, at.y, 0, key.as_str()));
                },
                None => {},
            }
            assert(sexp_views(items@) =~= before + terminal_labels(*f, sheet@, net@, ts@, (j + 1) as nat));
            j += 1;
        }
        assert(sexp_views(items@) =~= base + net_labels(*f, sheet@, (k + 1) as nat));
        k += 1;
    }
}

fn push_explicit_labels(items: &mut Vec<Sexp>, f: &SchematicFacts, sheet: &str)
    ensures
        sexp_views(final(items)@) == sexp_views(old(items)@) + explicit_labels(*f, sheet@, f.labels@.len()),
{
    let ghost base = sexp_views(items@);
    let mut count: usize = 0;
    let mut k: usize = 0;
    while k < f.labels.len()
        invariant
            k <= f.labels@.len(),
            count <= k,
            count as nat == on_page(label_sheets(*f), sheet@, k as nat),
            sexp_views(items@) == base + explicit_labels(*f, sheet@, k as nat),
        decreases f.labels.len() - k,
    {
        assert(label_sheets(*f)[k as int] == f.labels@[k as int].sheet@);
        let l = &f.labels[k];
        if crate::text::same_text(l.sheet.as_str(), sheet) {
            let mut key = crate::text::text2(sheet, "/explicit/");
            push_decimal(&mut key, count);
            append_node(items, label_item(f, l.net.as_str(), l.at.x, l.at.y, l.rotation, key.as_str()));
            count += 1;
        }
        assert(sexp_views(items@) =~= base + explicit_labels(*f, sheet@, (k + 1) as nat));
        k += 1;
    }
}

fn push_no_connects(items: &mut Vec<Sexp>, f: &SchematicFacts, sheet: &str)
    ensures
        sexp_views(final(items)@) == sexp_views(old(items)@) + no_connects(*f, sheet@, f.no_connect@.len()),
{
    let ghost base = sexp_views(items@);
    let mut k: usize = 0;
    while k < f.no_connect.len()
        invariant
            k <= f.no_connect@.len(),
            sexp_views(items@) == base + no_connects(*f, sheet@, k as nat),
        decreases f.no_connect.len() - k,
    {
        match f.no_connect[k].1 {
            Some(at) => {
                let key = crate::text::text4("schematic/no-connect/", sheet, "/", f.no_connect[k].0.as_str());
                let mut a = new_items();
                append_node(&mut a, sym_node("at"));
                append_node(&mut a, num_node(at.x));
                append_node(&mut a, num_node(at.y));
                assert(sexp_views(a@) =~= seq![sy("at"@), num(at.x as int), num(at.y as int)]);
                let mut e = new_items();
                append_node(&mut e, sym_node("no_connect"));
                append_node(&mut e, Sexp::List(a));
                append_node(&mut e, uuid_node(f.project.as_str(), key.as_str()));
                assert(sexp_views(e@) =~= seq![
                    sy("no_connect"@),
                    li(seq![sy("at"@), num(at.x as int), num(at.y as int)]),
                    uuid_clause(f.project@, "schematic/no-connect/"@ + sheet@ + "/"@ + f.no_connect@[k as int].0@),
                ]);
                append_node(items, Sexp::List(e));
            },
            None => {},
        }
        assert(sexp_views(items@) =~= base + no_connects(*f, sheet@, (k + 1) as nat));
        k += 1;
    }
}

} // verus!

verus! {

fn sheet_file_property(project: &str, id: &str, x: i64, y: i64) -> (n: Sexp)
    requires
        y <= i64::MAX - 16_270_000,
    ensures
        sexp_view(n) == li(
            seq![
                sy("property"@),
                qu("Sheetfile"@),
                qu(project@ + ".sheets/"@ + id@ + ".kicad_sch"@),
                at3(x as int, y + 16_270_000, 0),
                sch_effects(false),
            ],
        ),
{
    let mut file_name = crate::text::text2(project, ".sheets/");
    file_name.append(id);
    file_name.append(".kicad_sch");
    let mut file = new_items();
    append_node(&mut file, sym_node("property"));
    append_node(&mut file, quoted_node("Sheetfile"));
    append_node(&mut file, quoted_node(file_name.as_str()));
    append_node(&mut file, at3_node(x, y + 16_270_000, 0));
    append_node(&mut file, effects_node(false));
    assert(sexp_views(file@) =~= seq![
        sy("property"@),
        qu("Sheetfile"@),
        qu(project@ + ".sheets/"@ + id@ + ".kicad_sch"@),
        at3(x as int, y + 16_270_000, 0),
        sch_effects(false),
    ]);
    Sexp::List(file)
}

fn sheet_instances_node(project: &str, root: &str, page: usize) -> (n: Sexp)
    ensures
        sexp_view(n) == clause(
            "instances"@,
            li(seq![sy("project"@), qu(project@), li(seq![sy("path"@), qu("/"@ + root@), clause("page"@, qu(decimal(page as nat)))])]),
        ),
{
    let page_path = crate::text::text2("/", root);
    let mut number = String::new();
    push_decimal(&mut number, page);
    let mut path = new_items();
    append_node(&mut path, sym_node("path"));
    append_node(&mut path, quoted_node(page_path.as_str()));
    append_node(&mut path, clause_node("page", Sexp::Quoted(number)));
    assert(sexp_views(path@) =~= seq![sy("path"@), qu("/"@ + root@), clause("page"@, qu(decimal(page as nat)))]);
    let mut pr = new_items();
    append_node(&mut pr, sym_node("project"));
    append_node(&mut pr, quoted_node(project));
    append_node(&mut pr, Sexp::List(path));
    assert(sexp_views(pr@) =~= seq![
        sy("project"@),
        qu(project@),
        li(seq![sy("path"@), qu("/"@ + root@), clause("page"@, qu(decimal(page as nat)))]),
    ]);
    clause_node("instances", Sexp::List(pr))
}

fn sheet_symbol_item(f: &SchematicFacts, sheet: &str, i: usize) -> (n: Sexp)
    requires
        i <= u32::MAX - 2,
    ensures
        sexp_view(n) == sheet_symbol(*f, sheet@, i as nat),
{
    let x: i64 = 20_000_000 + ((i % 4) as i64) * 65_000_000;
    let y: i64 = 120_000_000 + ((i / 4) as i64) * 25_000_000;
    let key = crate::text::text2("schematic/sheet/", sheet);
    let id = stable_uuid(f.project.as_str(), key.as_str());
    let root = stable_uuid(f.project.as_str(), "schematic/root");
    let mut e = new_items();
    append_node(&mut e, sym_node("sheet"));
    let mut a = new_items();
    append_node(&mut a, sym_node("at"));
    append_node(&mut a, num_node(x));
    append_node(&mut a, num_node(y));
    assert(sexp_views(a@) =~= seq![sy("at"@), num(x as int), num(y as int)]);
    append_node(&mut e, Sexp::List(a));
    let mut size = new_items();
    append_node(&mut size, sym_node("size"));
    append_node(&mut size, num_node(50_000_000));
    append_node(&mut size, num_node(15_000_000));
    assert(sexp_views(size@) =~= seq![sy("size"@), num(50_000_000), num(15_000_000)]);
    append_node(&mut e, Sexp::List(size));
    append_node(&mut e, clause_node("uuid", quoted_node(id.as_str())));
    let mut name = new_items();
    append_node(&mut name, sym_node("property"));
    append_node(&mut name, quoted_node("Sheetname"));
    append_node(&mut name, quoted_node(sheet));
    append_node(&mut name, at3_node(x, y - 1_270_000, 0));
    append_node(&mut name, effects_node(false));
    assert(sexp_views(name@) =~= seq![sy("property"@), qu("Sheetname"@), qu(sheet@), at3(x as int, y - 1_270_000, 0), sch_effects(false)]);
    append_node(&mut e, Sexp::List(name));
    append_node(&mut e, sheet_file_property(f.project.as_str(), id.as_str(), x, y));
    append_node(&mut e, sheet_instances_node(f.project.as_str(), root.as_str(), i + 2));
    assert(x as int == 20_000_000int + (i as int % 4) * 65_000_000);
    assert(y as int == 120_000_000int + (i as int / 4) * 25_000_000);
    assert(sexp_views(e@) =~= match sheet_symbol(*f, sheet@, i as nat) {
        SexpView::List(xs) => xs,
        _ => Seq::empty(),
    });
    Sexp::List(e)
}

/// Whether every position of the page leaves room for the offsets of its properties, and
/// its sheets can be numbered and laid out in a machine word.
pub open spec fn page_fits(f: SchematicFacts) -> bool {
    &&& f.sheets@.len() <= u32::MAX - 2
    &&& forall|i: int| 0 <= i < f.placements@.len() ==> (#[trigger] f.placements@[i]).at.y <= i64::MAX - 2_540_000
}

fn page_header(f: &SchematicFacts, sheet: &str) -> (r: Vec<Sexp>)
    ensures
        sexp_views(r@) == schematic_tree(*f, sheet@)->List_0.take(6),
{
    let root = sheet.unicode_len() == 0;
    let page = if root {
        stable_uuid(f.project.as_str(), "schematic/root")
    } else {
        let key = crate::text::text2("schematic/file/", sheet);
        stable_uuid(f.project.as_str(), key.as_str())
    };
    let mut items = new_items();
    append_node(&mut items, sym_node("kicad_sch"));
    append_node(&mut items, clause_node("version", sym_node("20250114")));
    append_node(&mut items, clause_node("generator", quoted_node("kil")));
    append_node(&mut items, clause_node("generator_version", quoted_node(f.version.as_str())));
    append_node(&mut items, clause_node("uuid", Sexp::Quoted(page)));
    if f.sheets.len() > 8 && root {
        append_node(&mut items, clause_node("paper", quoted_node("A3")));
    } else {
        append_node(&mut items, clause_node("paper", quoted_node("A4")));
    }
    assert(sexp_views(items@) =~= schematic_tree(*f, sheet@)->List_0.take(6));
    items
}

fn lib_symbols_node(f: &SchematicFacts) -> (n: Sexp)
    ensures
        sexp_view(n) == lib_symbols(*f),
{
    let mut libs = new_items();
    append_node(&mut libs, sym_node("lib_symbols"));
    if f.power.len() > 0 {
        match &f.power_flag {
            Some(flag) => {
                let mut node = flag.copy();
                crate::footprint::set_second_quoted(&mut node, "power:PWR_FLAG");
                append_node(&mut libs, node);
            },
            None => {},
        }
    }
    let ghost lhead = sexp_views(libs@);
    let table = symbols_exec(&f.symbols);
    let ghost tv = entry_views(table@);
    let ghost tnodes = tv.map_values(|e: (Seq<char>, SexpView)| e.1);
    let mut t: usize = 0;
    while t < table.len()
        invariant
            t <= table@.len(),
            tv == entry_views(table@),
            tnodes == tv.map_values(|e: (Seq<char>, SexpView)| e.1),
            sexp_views(libs@) == lhead + tnodes.take(t as int),
        decreases table.len() - t,
    {
        append_node(&mut libs, table[t].1.copy());
        assert(tnodes[t as int] == sexp_view(table@[t as int].1));
        assert(tnodes.take(t + 1) =~= tnodes.take(t as int).push(tnodes[t as int]));
        t += 1;
    }
    assert(tnodes.take(t as int) =~= tnodes);
    assert(sexp_views(libs@) =~= match lib_symbols(*f) {
        SexpView::List(xs) => xs,
        _ => Seq::empty(),
    });
    Sexp::List(libs)
}

fn push_symbols(items: &mut Vec<Sexp>, f: &SchematicFacts, sheet: &str, path: &str)
    requires
        page_fits(*f),
        path@ == instance_path(f.project@, sheet@),
    ensures
        sexp_views(final(items)@) == sexp_views(old(items)@) + symbol_nodes(*f, sheet@, f.placements@.len()),
{
    let ghost s0 = sexp_views(items@);
    let mut k: usize = 0;
    while k < f.placements.len()
        invariant
            k <= f.placements@.len(),
            page_fits(*f),
            path@ == instance_path(f.project@, sheet@),
            sexp_views(items@) == s0 + symbol_nodes(*f, sheet@, k as nat),
        decreases f.placements.len() - k,
    {
        let p = &f.placements[k];
        if crate::text::same_text(p.sheet.as_str(), sheet) {
            append_node(items, symbol_item(f, sheet, path, p));
        }
        assert(sexp_views(items@) =~= s0 + symbol_nodes(*f, sheet@, (k + 1) as nat));
        k += 1;
    }
}

fn push_sheet_symbols(items: &mut Vec<Sexp>, f: &SchematicFacts)
    requires
        page_fits(*f),
    ensures
        sexp_views(final(items)@) == sexp_views(old(items)@) + Seq::new(
            f.sheets@.len(),
            |i: int| sheet_symbol(*f, f.sheets@[i]@, i as nat),
        ),
{
    let ghost s1 = sexp_views(items@);
    let ghost sheet_nodes = Seq::new(f.sheets@.len(), |i: int| sheet_symbol(*f, f.sheets@[i]@, i as nat));
    let mut i: usize = 0;
    while i < f.sheets.len()
        invariant
            i <= f.sheets@.len(),
            page_fits(*f),
            sheet_nodes == Seq::new(f.sheets@.len(), |i: int| sheet_symbol(*f, f.sheets@[i]@, i as nat)),
            sexp_views(items@) == s1 + sheet_nodes.take(i as int),
        decreases f.sheets.len() - i,
    {
        append_node(items, sheet_symbol_item(f, f.sheets[i].as_str(), i));
        assert(sheet_nodes.take(i + 1) =~= sheet_nodes.take(i as int).push(sheet_nodes[i as int]));
        i += 1;
    }
    assert(sheet_nodes.take(i as int) =~= sheet_nodes);
}

/// The tree of the page of sheet `sheet`, the root page for an empty name (see
/// `schematic_tree`): its header, embedded library symbols, the symbols of the components
/// placed on it, power flags, wires, labels on the terminals of each net and the explicit
/// ones, no-connect markers, the sheet symbols of the root page and the sheet instances.
#[verifier::rlimit(40)]
pub fn schematic_node(f: &SchematicFacts, sheet: &str) -> (r: Sexp)
    requires
        page_fits(*f),
        f.power@.len() > 0 ==> f.power_flag is Some,
    ensures
        sexp_view(r) == schematic_tree(*f, sheet@),
{
    let root = sheet.unicode_len() == 0;
    let mut items = page_header(f, sheet);
    append_node(&mut items, lib_symbols_node(f));
    let path = page_path(f.project.as_str(), sheet);
    let ghost a = sexp_views(items@);
    push_symbols(&mut items, f, sheet, path.as_str());
    let ghost b = sexp_views(items@);
    push_power_flags(&mut items, f, sheet, path.as_str());
    let ghost c = sexp_views(items@);
    push_wires(&mut items, f, sheet);
    let ghost d = sexp_views(items@);
    push_net_labels(&mut items, f, sheet);
    let ghost e = sexp_views(items@);
    push_explicit_labels(&mut items, f, sheet);
    let ghost g = sexp_views(items@);
    push_no_connects(&mut items, f, sheet);
    let ghost h = sexp_views(items@);
    if root {
        push_sheet_symbols(&mut items, f);
    }
    let ghost k = sexp_views(items@);
    let mut inst = new_items();
    append_node(&mut inst, sym_node("path"));
    append_node(&mut inst, quoted_node("/"));
    append_node(&mut inst, clause_node("page", quoted_node("1")));
    assert(sexp_views(inst@) =~= seq![sy("path"@), qu("/"@), clause("page"@, qu("1"@))]);
    append_node(&mut items, clause_node("sheet_instances", Sexp::List(inst)));
    let ghost tree = schematic_tree(*f, sheet@)->List_0;
    assert(a =~= tree.take(7));
    assert(sexp_views(items@) =~= tree);
    Sexp::List(items)
}

} // verus!
