//! The project file of a generated KiCad project: board design settings from the rules, the
//! default and custom net classes, the schematic names of the nets each class covers, and the
//! schematic's sheets. Lengths are nanometres, written as decimal millimetres.
use crate::board::fixed_text;
use crate::kicad::{identity_name, schematic_net, schematic_net_name, stable_uuid, url_uuid};
use crate::modules::{json_fields, json_view, json_views, lemma_json_fields_push, lemma_json_views_push, Json, JsonView};
use crate::rules::{ClassView, NetRules, RulesView};
use crate::text::{decimal, push_decimal};
use vstd::prelude::*;

verus! {

/// The pretty-printed JSON text (`serde_json::to_string_pretty`) of the value a `Json`
/// copies into.
pub uninterp spec fn json_pretty(v: JsonView) -> Seq<char>;

/// Prints a `Json` with `serde_json::to_string_pretty`. Claimed: the text depends on the value
/// alone (it is `json_pretty`); the printing rules are not stated. Printing a `Value` cannot
/// fail, its map keys being strings.
#[verifier::external_body]
fn pretty_json(j: &Json) -> (r: String)
    ensures
        r@ == json_pretty(json_view(*j)),
{
    serde_json::to_string_pretty(&crate::pipeline::value_of(j)).unwrap_or_default()
}

/// A length of `v` nanometres as a JSON number of millimetres.
pub open spec fn mm(v: int) -> JsonView {
    JsonView::Number(fixed_text(v))
}

/// A whole JSON number.
pub open spec fn whole(n: nat) -> JsonView {
    JsonView::Number(decimal(n))
}

pub open spec fn empty_array() -> JsonView {
    JsonView::Array(Seq::empty())
}

pub open spec fn meta_version(n: nat) -> JsonView {
    JsonView::Object(seq![("version"@, whole(n))])
}

/// A net class of the project file: its name, clearance and track width, the rest as the
/// default class has it.
pub open spec fn class_entry(r: RulesView, via_size: nat, via_drill: nat, name: Seq<char>, clearance: nat, track: nat) -> JsonView {
    JsonView::Object(
        seq![
            ("bus_width"@, whole(12)),
            ("clearance"@, mm(clearance as int)),
            ("diff_pair_gap"@, mm(250_000)),
            ("diff_pair_via_gap"@, mm(250_000)),
            ("diff_pair_width"@, mm(r.preferred_track_width as int)),
            ("line_style"@, whole(0)),
            ("microvia_diameter"@, mm(300_000)),
            ("microvia_drill"@, mm(100_000)),
            ("name"@, JsonView::Text(name)),
            ("pcb_color"@, JsonView::Text("rgba(0, 0, 0, 0.000)"@)),
            ("priority"@, whole(2147483647)),
            ("schematic_color"@, JsonView::Text("rgba(0, 0, 0, 0.000)"@)),
            ("track_width"@, mm(track as int)),
            ("via_diameter"@, mm(via_size as int)),
            ("via_drill"@, mm(via_drill as int)),
            ("wire_width"@, whole(6)),
        ],
    )
}

/// The default class, then each net class.
pub open spec fn class_entries(r: RulesView, via_size: nat, via_drill: nat) -> Seq<JsonView> {
    seq![class_entry(r, via_size, via_drill, "Default"@, r.clearance, r.preferred_track_width)] + r.net_classes.map_values(
        |c: ClassView| class_entry(r, via_size, via_drill, c.name, c.clearance, c.preferred_track_width),
    )
}

/// The class assignments of the first `k` classes: each net, by its schematic name, with the
/// name of its class.
pub open spec fn assignments(classes: Seq<ClassView>, has_sheets: bool, k: nat) -> Seq<(Seq<char>, JsonView)>
    decreases k,
{
    if k == 0 || k > classes.len() {
        Seq::empty()
    } else {
        let c = classes[k - 1];
        assignments(classes, has_sheets, (k - 1) as nat) + c.nets.map_values(
            |n: Seq<char>| (schematic_net(n, has_sheets), JsonView::Array(seq![JsonView::Text(c.name)])),
        )
    }
}

/// The sheets of the project: the root, then each sub-sheet, with their identities.
pub open spec fn sheet_entries(project: Seq<char>, sheets: Seq<Seq<char>>) -> Seq<JsonView> {
    seq![JsonView::Array(seq![JsonView::Text(url_uuid(identity_name(project, "schematic/root"@))), JsonView::Text("Root"@)])]
        + sheets.map_values(
        |s: Seq<char>|
            JsonView::Array(
                seq![JsonView::Text(url_uuid(identity_name(project, "schematic/sheet/"@ + s))), JsonView::Text(s)],
            ),
    )
}

/// The board's design settings.
pub open spec fn design_settings(r: RulesView, via_size: nat, via_drill: nat) -> JsonView {
    JsonView::Object(
        seq![
            ("defaults"@, JsonView::Object(seq![("board_outline_line_width"@, mm(50_000)), ("copper_line_width"@, mm(r.preferred_track_width as int))])),
            ("drc_exclusions"@, empty_array()),
            ("meta"@, meta_version(2)),
            (
                "rules"@,
                JsonView::Object(
                    seq![
                        ("allow_blind_buried_vias"@, JsonView::Bool(false)),
                        ("allow_microvias"@, JsonView::Bool(false)),
                        ("min_clearance"@, mm(r.clearance as int)),
                        ("min_track_width"@, mm(r.minimum_track_width as int)),
                        ("min_via_diameter"@, mm(via_size as int)),
                    ],
                ),
            ),
            ("track_widths"@, JsonView::Array(seq![mm(0), mm(r.preferred_track_width as int)])),
            (
                "via_dimensions"@,
                JsonView::Array(
                    seq![
                        JsonView::Object(seq![("diameter"@, mm(0)), ("drill"@, mm(0))]),
                        JsonView::Object(seq![("diameter"@, mm(via_size as int)), ("drill"@, mm(via_drill as int))]),
                    ],
                ),
            ),
        ],
    )
}

/// The project file's document.
pub open spec fn project_document(
    project: Seq<char>,
    r: RulesView,
    via_size: nat,
    via_drill: nat,
    sheets: Seq<Seq<char>>,
) -> JsonView {
    let has_sheets = sheets.len() > 0;
    JsonView::Object(
        seq![
            ("board"@, JsonView::Object(seq![("design_settings"@, design_settings(r, via_size, via_drill))])),
            ("boards"@, empty_array()),
            ("cvpcb"@, JsonView::Object(seq![("equivalence_files"@, empty_array())])),
            ("erc"@, JsonView::Object(seq![("erc_exclusions"@, empty_array()), ("meta"@, meta_version(0))])),
            ("libraries"@, JsonView::Object(seq![("pinned_footprint_libs"@, empty_array()), ("pinned_symbol_libs"@, empty_array())])),
            ("meta"@, JsonView::Object(seq![("filename"@, JsonView::Text(project + ".kicad_pro"@)), ("version"@, whole(3))])),
            (
                "net_settings"@,
                JsonView::Object(
                    seq![
                        ("classes"@, JsonView::Array(class_entries(r, via_size, via_drill))),
                        ("meta"@, meta_version(4)),
                        ("net_colors"@, JsonView::Null),
                        ("netclass_assignments"@, JsonView::Object(assignments(r.net_classes, has_sheets, r.net_classes.len()))),
                        ("netclass_patterns"@, empty_array()),
                    ],
                ),
            ),
            ("pcbnew"@, JsonView::Object(Seq::empty())),
            ("schematic"@, JsonView::Object(seq![("meta"@, meta_version(1))])),
            ("sheets"@, JsonView::Array(sheet_entries(project, sheets))),
            ("text_variables"@, JsonView::Object(Seq::empty())),
        ],
    )
}

} // verus!

verus! {

fn members() -> (v: Vec<(String, Json)>)
    ensures
        json_fields(v@) == Seq::<(Seq<char>, JsonView)>::empty(),
{
    let v: Vec<(String, Json)> = Vec::new();
    assert(json_fields(v@) =~= Seq::<(Seq<char>, JsonView)>::empty());
    v
}

fn member(m: &mut Vec<(String, Json)>, k: &str, v: Json)
    ensures
        json_fields(final(m)@) == json_fields(old(m)@).push((k@, json_view(v))),
{
    let e = (k.to_owned(), v);
    proof {
        lemma_json_fields_push(m@, e);
    }
    m.push(e);
}

fn elements() -> (v: Vec<Json>)
    ensures
        json_views(v@) == Seq::<JsonView>::empty(),
{
    let v: Vec<Json> = Vec::new();
    assert(json_views(v@) =~= Seq::<JsonView>::empty());
    v
}

fn element(a: &mut Vec<Json>, v: Json)
    ensures
        json_views(final(a)@) == json_views(old(a)@).push(json_view(v)),
{
    proof {
        lemma_json_views_push(a@, v);
    }
    a.push(v);
}

fn mm_json(v: u64) -> (r: Json)
    ensures
        json_view(r) == mm(v as int),
{
    let t = crate::board::magnitude_text(false, v);
    assert(t@ =~= fixed_text(v as int));
    Json::Number(t)
}

fn whole_json(n: usize) -> (r: Json)
    ensures
        json_view(r) == whole(n as nat),
{
    let mut t = String::new();
    push_decimal(&mut t, n);
    Json::Number(t)
}

fn text_json(s: &str) -> (r: Json)
    ensures
        json_view(r) == JsonView::Text(s@),
{
    Json::Text(s.to_owned())
}

fn meta_json(n: usize) -> (r: Json)
    ensures
        json_view(r) == meta_version(n as nat),
{
    let mut m = members();
    member(&mut m, "version", whole_json(n));
    assert(json_fields(m@) =~= seq![("version"@, whole(n as nat))]);
    Json::Object(m)
}

fn empty_array_json() -> (r: Json)
    ensures
        json_view(r) == empty_array(),
{
    Json::Array(elements())
}

fn class_json(rules: &NetRules, via_size: u64, via_drill: u64, name: &str, clearance: u64, track: u64) -> (r: Json)
    ensures
        json_view(r) == class_entry(rules@, via_size as nat, via_drill as nat, name@, clearance as nat, track as nat),
{
    let mut m = members();
    member(&mut m, "bus_width", whole_json(12));
    member(&mut m, "clearance", mm_json(clearance));
    member(&mut m, "diff_pair_gap", mm_json(250_000));
    member(&mut m, "diff_pair_via_gap", mm_json(250_000));
    member(&mut m, "diff_pair_width", mm_json(rules.preferred_track_width));
    member(&mut m, "line_style", whole_json(0));
    member(&mut m, "microvia_diameter", mm_json(300_000));
    member(&mut m, "microvia_drill", mm_json(100_000));
    member(&mut m, "name", text_json(name));
    member(&mut m, "pcb_color", text_json("rgba(0, 0, 0, 0.000)"));
    member(&mut m, "priority", whole_json(2147483647));
    member(&mut m, "schematic_color", text_json("rgba(0, 0, 0, 0.000)"));
    member(&mut m, "track_width", mm_json(track));
    member(&mut m, "via_diameter", mm_json(via_size));
    member(&mut m, "via_drill", mm_json(via_drill));
    member(&mut m, "wire_width", whole_json(6));
    assert(json_fields(m@) =~= match class_entry(rules@, via_size as nat, via_drill as nat, name@, clearance as nat, track as nat) {
        JsonView::Object(o) => o,
        _ => Seq::empty(),
    });
    Json::Object(m)
}

fn classes_json(rules: &NetRules, via_size: u64, via_drill: u64) -> (r: Json)
    ensures
        json_view(r) == JsonView::Array(class_entries(rules@, via_size as nat, via_drill as nat)),
{
    let ghost want = class_entries(rules@, via_size as nat, via_drill as nat);
    let mut a = elements();
    element(&mut a, class_json(rules, via_size, via_drill, "Default", rules.clearance, rules.preferred_track_width));
    let mut i: usize = 0;
    while i < rules.net_classes.len()
        invariant
            i <= rules.net_classes@.len(),
            want == class_entries(rules@, via_size as nat, via_drill as nat),
            want.len() == rules.net_classes@.len() + 1,
            json_views(a@) == want.take(i + 1),
        decreases rules.net_classes.len() - i,
    {
        let c = &rules.net_classes[i];
        assert(rules@.net_classes[i as int] == c@);
        element(&mut a, class_json(rules, via_size, via_drill, c.name.as_str(), c.clearance, c.preferred_track_width));
        assert(want.take(i + 2) =~= want.take(i + 1).push(want[i + 1]));
        i += 1;
    }
    assert(want.take(i + 1) =~= want);
    Json::Array(a)
}

fn assignments_json(rules: &NetRules, has_sheets: bool) -> (r: Json)
    ensures
        json_view(r) == JsonView::Object(assignments(rules@.net_classes, has_sheets, rules@.net_classes.len())),
{
    let mut m = members();
    let mut k: usize = 0;
    while k < rules.net_classes.len()
        invariant
            k <= rules.net_classes@.len(),
            json_fields(m@) == assignments(rules@.net_classes, has_sheets, k as nat),
        decreases rules.net_classes.len() - k,
    {
        let c = &rules.net_classes[k];
        let ghost cv = rules@.net_classes[k as int];
        assert(cv == c@);
        let ghost before = json_fields(m@);
        let ghost add = cv.nets.map_values(
            |n: Seq<char>| (schematic_net(n, has_sheets), JsonView::Array(seq![JsonView::Text(cv.name)])),
        );
        let mut j: usize = 0;
        while j < c.nets.len()
            invariant
                j <= c.nets@.len(),
                cv == c@,
                add == cv.nets.map_values(
                    |n: Seq<char>| (schematic_net(n, has_sheets), JsonView::Array(seq![JsonView::Text(cv.name)])),
                ),
                json_fields(m@) == before + add.take(j as int),
            decreases c.nets.len() - j,
        {
            let name = schematic_net_name(c.nets[j].as_str(), has_sheets);
            let mut a = elements();
            element(&mut a, text_json(c.name.as_str()));
            assert(json_views(a@) =~= seq![JsonView::Text(cv.name)]);
            assert(cv.nets[j as int] == c.nets@[j as int]@);
            member(&mut m, name.as_str(), Json::Array(a));
            assert(add.take(j + 1) =~= add.take(j as int).push(add[j as int]));
            j += 1;
        }
        assert(add.take(j as int) =~= add);
        k += 1;
    }
    Json::Object(m)
}

fn sheets_json(project: &str, sheets: &Vec<String>) -> (r: Json)
    ensures
        json_view(r) == JsonView::Array(sheet_entries(project@, crate::text::views(sheets@))),
{
    let ghost want = sheet_entries(project@, crate::text::views(sheets@));
    let mut a = elements();
    let mut root = elements();
    element(&mut root, Json::Text(stable_uuid(project, "schematic/root")));
    element(&mut root, text_json("Root"));
    assert(json_views(root@) =~= seq![JsonView::Text(url_uuid(identity_name(project@, "schematic/root"@))), JsonView::Text("Root"@)]);
    element(&mut a, Json::Array(root));
    let mut i: usize = 0;
    while i < sheets.len()
        invariant
            i <= sheets@.len(),
            want == sheet_entries(project@, crate::text::views(sheets@)),
            want.len() == sheets@.len() + 1,
            json_views(a@) == want.take(i + 1),
        decreases sheets.len() - i,
    {
        let key = crate::text::text2("schematic/sheet/", sheets[i].as_str());
        let mut e = elements();
        element(&mut e, Json::Text(stable_uuid(project, key.as_str())));
        element(&mut e, text_json(sheets[i].as_str()));
        assert(crate::text::views(sheets@)[i as int] == sheets@[i as int]@);
        assert(json_views(e@) =~= seq![
            JsonView::Text(url_uuid(identity_name(project@, "schematic/sheet/"@ + sheets@[i as int]@))),
            JsonView::Text(sheets@[i as int]@),
        ]);
        element(&mut a, Json::Array(e));
        assert(want.take(i + 2) =~= want.take(i + 1).push(want[i + 1]));
        i += 1;
    }
    assert(want.take(i + 1) =~= want);
    Json::Array(a)
}

fn design_settings_json(rules: &NetRules, via_size: u64, via_drill: u64) -> (r: Json)
    ensures
        json_view(r) == design_settings(rules@, via_size as nat, via_drill as nat),
{
    let mut defaults = members();
    member(&mut defaults, "board_outline_line_width", mm_json(50_000));
    member(&mut defaults, "copper_line_width", mm_json(rules.preferred_track_width));
    assert(json_fields(defaults@) =~= seq![("board_outline_line_width"@, mm(50_000)), ("copper_line_width"@, mm(rules@.preferred_track_width as int))]);
    let mut rs = members();
    member(&mut rs, "allow_blind_buried_vias", Json::Bool(false));
    member(&mut rs, "allow_microvias", Json::Bool(false));
    member(&mut rs, "min_clearance", mm_json(rules.clearance));
    member(&mut rs, "min_track_width", mm_json(rules.minimum_track_width));
    member(&mut rs, "min_via_diameter", mm_json(via_size));
    assert(json_fields(rs@) =~= seq![
        ("allow_blind_buried_vias"@, JsonView::Bool(false)),
        ("allow_microvias"@, JsonView::Bool(false)),
        ("min_clearance"@, mm(rules@.clearance as int)),
        ("min_track_width"@, mm(rules@.minimum_track_width as int)),
        ("min_via_diameter"@, mm(via_size as int)),
    ]);
    let mut widths = elements();
    element(&mut widths, mm_json(0));
    element(&mut widths, mm_json(rules.preferred_track_width));
    assert(json_views(widths@) =~= seq![mm(0), mm(rules@.preferred_track_width as int)]);
    let mut d0 = members();
    member(&mut d0, "diameter", mm_json(0));
    member(&mut d0, "drill", mm_json(0));
    assert(json_fields(d0@) =~= seq![("diameter"@, mm(0)), ("drill"@, mm(0))]);
    let mut d1 = members();
    member(&mut d1, "diameter", mm_json(via_size));
    member(&mut d1, "drill", mm_json(via_drill));
    assert(json_fields(d1@) =~= seq![("diameter"@, mm(via_size as int)), ("drill"@, mm(via_drill as int))]);
    let mut dims = elements();
    element(&mut dims, Json::Object(d0));
    element(&mut dims, Json::Object(d1));
    assert(json_views(dims@) =~= seq![
        JsonView::Object(seq![("diameter"@, mm(0)), ("drill"@, mm(0))]),
        JsonView::Object(seq![("diameter"@, mm(via_size as int)), ("drill"@, mm(via_drill as int))]),
    ]);
    let mut m = members();
    member(&mut m, "defaults", Json::Object(defaults));
    member(&mut m, "drc_exclusions", empty_array_json());
    member(&mut m, "meta", meta_json(2));
    member(&mut m, "rules", Json::Object(rs));
    member(&mut m, "track_widths", Json::Array(widths));
    member(&mut m, "via_dimensions", Json::Array(dims));
    assert(json_fields(m@) =~= match design_settings(rules@, via_size as nat, via_drill as nat) {
        JsonView::Object(o) => o,
        _ => Seq::empty(),
    });
    Json::Object(m)
}

} // verus!

verus! {

fn object_of1(k: &str, v: Json) -> (r: Json)
    ensures
        json_view(r) == JsonView::Object(seq![(k@, json_view(v))]),
{
    let ghost vv = json_view(v);
    let mut m = members();
    member(&mut m, k, v);
    assert(json_fields(m@) =~= seq![(k@, vv)]);
    Json::Object(m)
}

fn object_of2(k1: &str, v1: Json, k2: &str, v2: Json) -> (r: Json)
    ensures
        json_view(r) == JsonView::Object(seq![(k1@, json_view(v1)), (k2@, json_view(v2))]),
{
    let ghost a = json_view(v1);
    let ghost b = json_view(v2);
    let mut m = members();
    member(&mut m, k1, v1);
    member(&mut m, k2, v2);
    assert(json_fields(m@) =~= seq![(k1@, a), (k2@, b)]);
    Json::Object(m)
}

/// The project file's document (see `project_document`).
pub fn project_value(project: &str, rules: &NetRules, via_size: u64, via_drill: u64, sheets: &Vec<String>) -> (r: Json)
    ensures
        json_view(r) == project_document(project@, rules@, via_size as nat, via_drill as nat, crate::text::views(sheets@)),
{
    let has_sheets = sheets.len() > 0;
    let filename = crate::text::text2(project, ".kicad_pro");
    let mut ns = members();
    member(&mut ns, "classes", classes_json(rules, via_size, via_drill));
    member(&mut ns, "meta", meta_json(4));
    member(&mut ns, "net_colors", Json::Null);
    member(&mut ns, "netclass_assignments", assignments_json(rules, has_sheets));
    member(&mut ns, "netclass_patterns", empty_array_json());
    assert(json_fields(ns@) =~= seq![
        ("classes"@, JsonView::Array(class_entries(rules@, via_size as nat, via_drill as nat))),
        ("meta"@, meta_version(4)),
        ("net_colors"@, JsonView::Null),
        ("netclass_assignments"@, JsonView::Object(assignments(rules@.net_classes, has_sheets, rules@.net_classes.len()))),
        ("netclass_patterns"@, empty_array()),
    ]);
    let mut m = members();
    member(&mut m, "board", object_of1("design_settings", design_settings_json(rules, via_size, via_drill)));
    member(&mut m, "boards", empty_array_json());
    member(&mut m, "cvpcb", object_of1("equivalence_files", empty_array_json()));
    member(&mut m, "erc", object_of2("erc_exclusions", empty_array_json(), "meta", meta_json(0)));
    member(&mut m, "libraries", object_of2("pinned_footprint_libs", empty_array_json(), "pinned_symbol_libs", empty_array_json()));
    member(&mut m, "meta", object_of2("filename", Json::Text(filename), "version", whole_json(3)));
    member(&mut m, "net_settings", Json::Object(ns));
    member(&mut m, "pcbnew", Json::Object(members()));
    member(&mut m, "schematic", object_of1("meta", meta_json(1)));
    member(&mut m, "sheets", sheets_json(project, sheets));
    member(&mut m, "text_variables", Json::Object(members()));
    assert(json_fields(m@) =~= match project_document(project@, rules@, via_size as nat, via_drill as nat, crate::text::views(sheets@)) {
        JsonView::Object(o) => o,
        _ => Seq::empty(),
    });
    Json::Object(m)
}

/// The text of the project file: its document pretty-printed, with a final newline.
pub fn project_json(project: &str, rules: &NetRules, via_size: u64, via_drill: u64, sheets: &Vec<String>) -> (r: String)
    ensures
        r@ == json_pretty(project_document(project@, rules@, via_size as nat, via_drill as nat, crate::text::views(sheets@)))
            + "\n"@,
{
    let v = project_value(project, rules, via_size, via_drill, sheets);
    let mut t = pretty_json(&v);
    t.append("\n");
    t
}

} // verus!
