//! The repair report of a routed board: its findings numbered for the plotted layer views,
//! errors first, then opens, then warnings, with the crops that the first twelve get on each
//! view.
use crate::route_workflow::{fviews, DrcSummary, Finding, FindingView};
use crate::stackup::{copper_layer_names, copper_layers};
use crate::text::{decimal, push_char, push_decimal, views};
use vstd::prelude::*;

verus! {

/// How many findings get crops of their own.
pub const CROPPED_FINDINGS: usize = 12;

/// A numbered finding of the repair report: its number, its kind (`error`, `open` or
/// `warning`), the finding, and the names of its crops, one per layer view, for the findings
/// that get crops (a crop is written only where the finding has points to frame).
#[derive(Debug)]
pub struct RepairEntry {
    pub id: usize,
    pub kind: String,
    pub finding: Finding,
    pub crops: Vec<String>,
}

/// The plain value of a repair entry.
pub struct RepairEntryView {
    pub id: nat,
    pub kind: Seq<char>,
    pub finding: FindingView,
    pub crops: Seq<Seq<char>>,
}

impl View for RepairEntry {
    type V = RepairEntryView;

    open spec fn view(&self) -> RepairEntryView {
        RepairEntryView { id: self.id as nat, kind: self.kind@, finding: self.finding@, crops: views(self.crops@) }
    }
}

/// `s` with each `.` turned into `_`.
pub open spec fn underscored(s: Seq<char>) -> Seq<char> {
    s.map_values(|c: char| if c == '.' { '_' } else { c })
}

/// The file name of the view of copper layer `layer`.
pub open spec fn view_name(layer: Seq<char>) -> Seq<char> {
    underscored(layer) + ".svg"@
}

/// The layer views of a board with `layers` copper layers, in layer order.
pub open spec fn repair_view_names(layers: nat) -> Seq<Seq<char>> {
    copper_layer_names(layers).map_values(|l: Seq<char>| view_name(l))
}

/// The findings of a summary with their kinds: the errors, then the opens, then the warnings.
pub open spec fn kinded_findings(s: DrcSummary) -> Seq<(Seq<char>, FindingView)> {
    fviews(s.errors@).map_values(|f: FindingView| ("error"@, f)) + fviews(s.opens@).map_values(
        |f: FindingView| ("open"@, f),
    ) + fviews(s.warning_details@).map_values(|f: FindingView| ("warning"@, f))
}

/// The crops of finding number `id` on the views `vs`: none past the twelfth.
pub open spec fn crop_names(id: nat, vs: Seq<Seq<char>>) -> Seq<Seq<char>> {
    if id <= 12 {
        vs.map_values(|v: Seq<char>| "finding-"@ + decimal(id) + "-"@ + v)
    } else {
        Seq::empty()
    }
}

/// The repair report of summary `s` for a board with `layers` copper layers: the layer views
/// and the numbered findings.
pub open spec fn repair_spec(s: DrcSummary, layers: nat) -> (Seq<Seq<char>>, Seq<RepairEntryView>) {
    let vs = repair_view_names(layers);
    let fs = kinded_findings(s);
    (
        vs,
        Seq::new(
            fs.len(),
            |n: int| RepairEntryView { id: (n + 1) as nat, kind: fs[n].0, finding: fs[n].1, crops: crop_names((n + 1) as nat, vs) },
        ),
    )
}

fn view_name_exec(layer: &str) -> (r: String)
    ensures
        r@ == view_name(layer@),
{
    let cs = crate::text::chars_of(layer);
    let mut out = String::new();
    let mut i: usize = 0;
    while i < cs.len()
        invariant
            i <= cs@.len(),
            cs@ == layer@,
            out@ == underscored(cs@.take(i as int)),
        decreases cs.len() - i,
    {
        let c = if cs[i] == '.' {
            '_'
        } else {
            cs[i]
        };
        push_char(&mut out, c);
        assert(underscored(cs@.take(i + 1)) =~= underscored(cs@.take(i as int)).push(c));
        i += 1;
    }
    assert(cs@.take(i as int) =~= cs@);
    out.append(".svg");
    out
}

fn crops_exec(id: usize, vs: &Vec<String>) -> (r: Vec<String>)
    ensures
        views(r@) == crop_names(id as nat, views(vs@)),
{
    let mut out: Vec<String> = Vec::new();
    if id > CROPPED_FINDINGS {
        assert(views(out@) =~= crop_names(id as nat, views(vs@)));
        return out;
    }
    let ghost want = crop_names(id as nat, views(vs@));
    let mut i: usize = 0;
    while i < vs.len()
        invariant
            i <= vs@.len(),
            id <= 12,
            want == crop_names(id as nat, views(vs@)),
            want.len() == vs@.len(),
            views(out@) == want.take(i as int),
        decreases vs.len() - i,
    {
        let mut c = String::new();
        c.append("finding-");
        push_decimal(&mut c, id);
        c.append("-");
        c.append(vs[i].as_str());
        let ghost before = out@;
        out.push(c);
        proof {
            crate::text::lemma_views_push(before, out@.last());
        }
        assert(want[i as int] == "finding-"@ + decimal(id as nat) + "-"@ + vs@[i as int]@);
        assert(views(out@) =~= want.take(i + 1));
        i += 1;
    }
    assert(want.take(i as int) =~= want);
    out
}

fn push_entries(out: &mut Vec<RepairEntry>, fs: &Vec<Finding>, kind: &str, vs: &Vec<String>)
    requires
        old(out)@.len() + fs@.len() <= usize::MAX,
    ensures
        final(out)@.len() == old(out)@.len() + fs@.len(),
        forall|j: int| 0 <= j < old(out)@.len() ==> (#[trigger] final(out)@[j])@ == old(out)@[j]@,
        forall|j: int|
            0 <= j < fs@.len() ==> (#[trigger] final(out)@[old(out)@.len() + j])@ == (RepairEntryView {
                id: (old(out)@.len() + j + 1) as nat,
                kind: kind@,
                finding: fs@[j]@,
                crops: crop_names((old(out)@.len() + j + 1) as nat, views(vs@)),
            }),
{
    let start = out.len();
    let mut i: usize = 0;
    while i < fs.len()
        invariant
            i <= fs@.len(),
            start == old(out)@.len(),
            start + fs@.len() <= usize::MAX,
            out@.len() == start + i,
            forall|j: int| 0 <= j < start ==> (#[trigger] out@[j])@ == old(out)@[j]@,
            forall|j: int|
                0 <= j < i ==> (#[trigger] out@[start + j])@ == (RepairEntryView {
                    id: (start + j + 1) as nat,
                    kind: kind@,
                    finding: fs@[j]@,
                    crops: crop_names((start + j + 1) as nat, views(vs@)),
                }),
        decreases fs.len() - i,
    {
        let id = start + i + 1;
        let e = RepairEntry { id, kind: kind.to_owned(), finding: fs[i].copy(), crops: crops_exec(id, vs) };
        out.push(e);
        i += 1;
    }
}

/// The repair report of summary `summary` for a board with `layers` copper layers (see
/// `repair_spec`): one view per copper layer, named after it, and every finding numbered from
/// one, errors first, then opens, then warnings, the first twelve with a crop on each view.
pub fn repair_findings(summary: &DrcSummary, layers: u8) -> (r: (Vec<String>, Vec<RepairEntry>))
    requires
        summary.errors@.len() + summary.opens@.len() + summary.warning_details@.len() < usize::MAX,
    ensures
        views(r.0@) == repair_spec(*summary, layers as nat).0,
        r.1@.len() == repair_spec(*summary, layers as nat).1.len(),
        forall|n: int| 0 <= n < r.1@.len() ==> (#[trigger] r.1@[n])@ == repair_spec(*summary, layers as nat).1[n],
{
    let names = copper_layers(layers);
    let mut vs: Vec<String> = Vec::new();
    let ghost want = repair_view_names(layers as nat);
    let mut i: usize = 0;
    while i < names.len()
        invariant
            i <= names@.len(),
            views(names@) == copper_layer_names(layers as nat),
            want == repair_view_names(layers as nat),
            views(vs@) == want.take(i as int),
        decreases names.len() - i,
    {
        let ghost before = vs@;
        vs.push(view_name_exec(names[i].as_str()));
        proof {
            crate::text::lemma_views_push(before, vs@.last());
        }
        assert(copper_layer_names(layers as nat)[i as int] == names@[i as int]@);
        assert(views(vs@) =~= want.take(i + 1));
        i += 1;
    }
    assert(want.take(i as int) =~= want);
    let mut entries: Vec<RepairEntry> = Vec::new();
    push_entries(&mut entries, &summary.errors, "error", &vs);
    let ghost e1 = entries@;
    push_entries(&mut entries, &summary.opens, "open", &vs);
    let ghost e2 = entries@;
    push_entries(&mut entries, &summary.warning_details, "warning", &vs);
    let ghost fs = kinded_findings(*summary);
    let ghost spec = repair_spec(*summary, layers as nat).1;
    let ghost e = summary.errors@.len();
    let ghost o = summary.opens@.len();
    assert forall|n: int| 0 <= n < entries@.len() implies (#[trigger] entries@[n])@ == spec[n] by {
        if n < e {
            assert(fs[n] == ("error"@, summary.errors@[n]@));
            assert(entries@[n]@ == e2[n]@);
            assert(e2[n]@ == e1[n]@);
            assert(e1[0 + n]@ == e1[n]@);
        } else if n < e + o {
            assert(fs[n] == ("open"@, summary.opens@[n - e]@));
            assert(entries@[n]@ == e2[n]@);
            assert(e2[e + (n - e)]@ == e2[n]@);
        } else {
            assert(fs[n] == ("warning"@, summary.warning_details@[n - e - o]@));
            assert(entries@[(e + o) + (n - e - o)]@ == entries@[n]@);
        }
    }
    (vs, entries)
}

} // verus!
