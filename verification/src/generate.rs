//! A whole generated KiCad project: the design rules, the project file, the root schematic
//! page and one file per sub-sheet, and the board, each as the text that is written.
use crate::board::{pcb_node, pcb_tree, BoardFacts};
use crate::connectivity::{sexp_views, Sexp};
use crate::kicad::{design_rules, identity_name, rules_file, sheet_filename, url_uuid};
use crate::lock::{canonical_document, document_text};
use crate::project_file::{json_pretty, project_document, project_json};
use crate::schematic::{page_fits, schematic_node, schematic_tree, SchematicFacts};
use crate::stackup::valid_layer_count;
use crate::text::views;
use vstd::prelude::*;

verus! {

/// The texts of a generated project: design rules, project file, root schematic, each
/// sub-sheet's file name and text, and the board.
#[derive(Debug)]
pub struct GeneratedProject {
    pub design_rules: String,
    pub project: String,
    pub schematic: String,
    pub sheets: Vec<(String, String)>,
    pub pcb: String,
}

/// Whether a net-class name can stand in a rule expression: no quote, apostrophe or
/// backslash.
pub open spec fn rule_safe(name: Seq<char>) -> bool {
    forall|i: int| 0 <= i < name.len() ==> #[trigger] name[i] != '"' && name[i] != '\'' && name[i] != '\\'
}

/// The first net class, among those from `from` on, whose name cannot stand in a rule
/// expression.
pub open spec fn first_unsafe(classes: Seq<crate::rules::ClassView>, from: int) -> Option<Seq<char>>
    decreases classes.len() - from,
{
    if from < 0 || from >= classes.len() {
        None
    } else if !rule_safe(classes[from].name) {
        Some(classes[from].name)
    } else {
        first_unsafe(classes, from + 1)
    }
}

/// Why a project cannot be generated, if it cannot: an unsupported layer count, a net-class
/// name unsafe in rule expressions, or terminals that take a power flag without the library's
/// power flag symbol.
pub open spec fn generation_error(b: BoardFacts, page: SchematicFacts) -> Option<Seq<char>> {
    if !valid_layer_count(b.layers as nat) {
        Some("copper layer count must be even, between 2 and 32"@)
    } else if first_unsafe(b.rules@.net_classes, 0) is Some {
        Some("invalid net-class name '"@ + first_unsafe(b.rules@.net_classes, 0)->0 + "'"@)
    } else if page.power@.len() > 0 && page.power_flag is None {
        Some("missing power:PWR_FLAG library asset"@)
    } else {
        None
    }
}

fn is_rule_safe(name: &str) -> (r: bool)
    ensures
        r == rule_safe(name@),
{
    let cs = crate::text::chars_of(name);
    let mut i: usize = 0;
    while i < cs.len()
        invariant
            i <= cs@.len(),
            cs@ == name@,
            forall|j: int| 0 <= j < i ==> #[trigger] cs@[j] != '"' && cs@[j] != '\'' && cs@[j] != '\\',
        decreases cs.len() - i,
    {
        if cs[i] == '"' || cs[i] == '\'' || cs[i] == '\\' {
            assert(!(cs@[i as int] != '"' && cs@[i as int] != '\'' && cs@[i as int] != '\\'));
            return false;
        }
        i += 1;
    }
    true
}

fn unsafe_class(rules: &crate::rules::NetRules) -> (r: Option<String>)
    ensures
        match r {
            Some(n) => first_unsafe(rules@.net_classes, 0) == Some(n@),
            None => first_unsafe(rules@.net_classes, 0) is None,
        },
{
    let mut k: usize = 0;
    while k < rules.net_classes.len()
        invariant
            k <= rules.net_classes@.len(),
            first_unsafe(rules@.net_classes, 0) == first_unsafe(rules@.net_classes, k as int),
        decreases rules.net_classes.len() - k,
    {
        let name = rules.net_classes[k].name.as_str();
        assert(rules@.net_classes[k as int].name == name@);
        if !is_rule_safe(name) {
            return Some(name.to_owned());
        }
        k += 1;
    }
    None
}

fn sheet_pages(page: &SchematicFacts) -> (r: Vec<(String, String)>)
    requires
        page_fits(*page),
        page.power@.len() > 0 ==> page.power_flag is Some,
    ensures
        r@.len() == page.sheets@.len(),
        forall|i: int|
            0 <= i < r@.len() ==> (#[trigger] r@[i]).0@ == url_uuid(identity_name(page.project@, "schematic/sheet/"@ + page.sheets@[i]@))
                + ".kicad_sch"@ && r@[i].1@ == document_text(schematic_tree(*page, page.sheets@[i]@)),
{
    let mut sheets: Vec<(String, String)> = Vec::new();
    let mut i: usize = 0;
    while i < page.sheets.len()
        invariant
            i <= page.sheets@.len(),
            page_fits(*page),
            page.power@.len() > 0 ==> page.power_flag is Some,
            sheets@.len() == i,
            forall|j: int|
                0 <= j < i ==> (#[trigger] sheets@[j]).0@ == url_uuid(
                    identity_name(page.project@, "schematic/sheet/"@ + page.sheets@[j]@),
                ) + ".kicad_sch"@ && sheets@[j].1@ == document_text(schematic_tree(*page, page.sheets@[j]@)),
        decreases page.sheets.len() - i,
    {
        let name = page.sheets[i].as_str();
        let file = sheet_filename(page.project.as_str(), name);
        let node = schematic_node(page, name);
        let text = canonical_document(&node);
        sheets.push((file, text));
        i += 1;
    }
    sheets
}

/// Generates the project (see `generation_error`): the design rules of the board's rules,
/// the project file, the root page and each sub-sheet's page under its file name, and the
/// board with the placed footprints `footprints`, each printed as KiCad documents are.
#[verifier::rlimit(40)]
pub fn generate(board: &BoardFacts, footprints: &Vec<Sexp>, page: &SchematicFacts) -> (r: Result<GeneratedProject, String>)
    requires
        page_fits(*page),
    ensures
        match generation_error(*board, *page) {
            Some(e) => r matches Err(m) && m@ == e,
            None => r matches Ok(g) && {
                &&& g.design_rules@ == rules_file(board.rules@, board.layers as nat)
                &&& g.project@ == json_pretty(
                    project_document(
                        board.project@,
                        board.rules@,
                        board.via_size as nat,
                        board.via_drill as nat,
                        views(page.sheets@),
                    ),
                ) + "\n"@
                &&& g.schematic@ == document_text(schematic_tree(*page, ""@))
                &&& g.sheets@.len() == page.sheets@.len()
                &&& forall|i: int|
                    0 <= i < g.sheets@.len() ==> (#[trigger] g.sheets@[i]).0@ == url_uuid(
                        identity_name(page.project@, "schematic/sheet/"@ + page.sheets@[i]@),
                    ) + ".kicad_sch"@ && g.sheets@[i].1@ == document_text(schematic_tree(*page, page.sheets@[i]@))
                &&& g.pcb@ == document_text(pcb_tree(*board, sexp_views(footprints@)))
            },
        },
{
    match crate::stackup::validate_layer_count(board.layers) {
        Err(m) => {
            return Err(m);
        },
        Ok(()) => {},
    }
    match unsafe_class(&board.rules) {
        Some(name) => {
            return Err(crate::text::text3("invalid net-class name '", name.as_str(), "'"));
        },
        None => {},
    }
    if page.power.len() > 0 && page.power_flag.is_none() {
        return Err("missing power:PWR_FLAG library asset".to_owned());
    }
    let root = schematic_node(page, "");
    let schematic = canonical_document(&root);
    let sheets = sheet_pages(page);
    let pcb = canonical_document(&pcb_node(board, footprints));
    let project = project_json(board.project.as_str(), &board.rules, board.via_size, board.via_drill, &page.sheets);
    Ok(GeneratedProject { design_rules: design_rules(&board.rules, board.layers), project, schematic, sheets, pcb })
}

} // verus!
