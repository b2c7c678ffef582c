//! Text and trees that the generated KiCad artifacts carry: net names, sheet files, stable
//! identities, the custom design rules of net classes and the board's layer table.
use crate::rules::{class_allows, class_allows_vias, class_allows_zone, ClassView, NetClass, NetRules, RulesView};
use crate::connectivity::{lemma_sexp_views_index, lemma_sexp_views_len, lemma_sexp_views_push, sexp_view, sexp_views, Sexp, SexpView};
use crate::stackup::{copper_layer_names, copper_layers};
use crate::text::{decimal, digit_char, push_char, push_decimal, views};
use vstd::prelude::*;

verus! {

/// The schematic name of a net: names are global (`/NAME`) on a single-sheet schematic, kept
/// as written when they already start with `/` or when the schematic has sub-sheets.
pub open spec fn schematic_net(name: Seq<char>, has_sheets: bool) -> Seq<char> {
    if (name.len() > 0 && name[0] == '/') || has_sheets {
        name
    } else {
        seq!['/'] + name
    }
}

/// The schematic name of net `name`; `has_sheets` tells whether the schematic has sub-sheets.
pub fn schematic_net_name(name: &str, has_sheets: bool) -> (r: String)
    ensures
        r@ == schematic_net(name@, has_sheets),
{
    let c = crate::text::chars_of(name);
    if (c.len() > 0 && c[0] == '/') || has_sheets {
        name.to_owned()
    } else {
        let mut r = String::new();
        push_char(&mut r, '/');
        r.append(name);
        assert(r@ =~= seq!['/'] + name@);
        r
    }
}

/// What `Uuid::new_v5(&Uuid::NAMESPACE_URL, name)` of the `uuid` crate prints: the SHA-1
/// name-based UUID of the bytes of `name` in the URL namespace, hyphenated, in lower case.
pub uninterp spec fn url_uuid(name: Seq<char>) -> Seq<char>;

/// Calls `uuid::Uuid::new_v5` with the URL namespace on the UTF-8 bytes of `name` and prints
/// the result with `Display`. Claimed: the text depends on `name` alone (it is `url_uuid`)
/// and is the 36-character hyphenated form. Which UUID it is is not stated.
#[verifier::external_body]
fn url_uuid_text(name: &str) -> (r: String)
    ensures
        r@ == url_uuid(name@),
        r@.len() == 36,
{
    uuid::Uuid::new_v5(&uuid::Uuid::NAMESPACE_URL, name.as_bytes()).to_string()
}

/// The name from which the stable identity of object `key` of project `project` is derived.
pub open spec fn identity_name(project: Seq<char>, key: Seq<char>) -> Seq<char> {
    "kil:"@ + project + ":"@ + key
}

/// The stable identity of object `key` of the project named `project`: the same project and
/// key always give the same UUID.
pub fn stable_uuid(project: &str, key: &str) -> (r: String)
    ensures
        r@ == url_uuid(identity_name(project@, key@)),
{
    let name = crate::text::text4("kil:", project, ":", key);
    url_uuid_text(name.as_str())
}

/// The file name of the schematic sheet `sheet`: its stable identity with `.kicad_sch`.
pub fn sheet_filename(project: &str, sheet: &str) -> (r: String)
    ensures
        r@ == url_uuid(identity_name(project@, "schematic/sheet/"@ + sheet@)) + ".kicad_sch"@,
{
    let key = crate::text::text2("schematic/sheet/", sheet);
    let mut r = stable_uuid(project, key.as_str());
    r.append(".kicad_sch");
    r
}

/// The divisor of fractional digit `i` (0 to 5) of a length in nanometres.
pub open spec fn place(i: int) -> nat {
    if i == 0 {
        100000
    } else if i == 1 {
        10000
    } else if i == 2 {
        1000
    } else if i == 3 {
        100
    } else if i == 4 {
        10
    } else {
        1
    }
}

/// The six fractional digits of a millimetre length given as the remainder `r < 10^6`
/// nanometres.
pub open spec fn six_digits(r: nat) -> Seq<char> {
    Seq::new(6, |i: int| digit_char((r / place(i)) % 10))
}

/// `s` without its trailing zero digits.
pub open spec fn trim_zeros(s: Seq<char>) -> Seq<char>
    decreases s.len(),
{
    if s.len() > 0 && s.last() == '0' {
        trim_zeros(s.drop_last())
    } else {
        s
    }
}

/// A length of `nm` nanometres written in millimetres, as KiCad rule files read them: the
/// whole part, then a point and the fractional digits without trailing zeros when there are
/// any.
pub open spec fn mm_text(nm: nat) -> Seq<char> {
    let whole = decimal(nm / 1_000_000);
    if nm % 1_000_000 == 0 {
        whole
    } else {
        whole + seq!['.'] + trim_zeros(six_digits(nm % 1_000_000))
    }
}

/// Appends a length of `nm` nanometres written in millimetres.
pub fn push_mm(out: &mut String, nm: u64)
    ensures
        final(out)@ == old(out)@ + mm_text(nm as nat),
{
    crate::text::push_decimal_wide(out, nm / 1_000_000);
    let rem = nm % 1_000_000;
    if rem == 0 {
        return;
    }
    let ghost before = out@;
    push_char(out, '.');
    let mut digits: Vec<char> = Vec::new();
    let mut i: usize = 0;
    let mut div: u64 = 100000;
    while i < 6
        invariant
            i <= 6,
            rem < 1_000_000,
            i < 6 ==> div as nat == place(i as int),
            digits@ == six_digits(rem as nat).take(i as int),
        decreases 6 - i,
    {
        let d: u64 = (rem / div) % 10;
        digits.push((48u8 + d as u8) as char);
        assert(digits@ =~= six_digits(rem as nat).take(i + 1));
        div = div / 10;
        i += 1;
    }
    assert(digits@ =~= six_digits(rem as nat));
    let mut end: usize = 6;
    while end > 0 && digits[end - 1] == '0'
        invariant
            end <= 6,
            digits@.len() == 6,
            trim_zeros(digits@) == trim_zeros(digits@.take(end as int)),
        decreases end,
    {
        assert(digits@.take(end as int).drop_last() =~= digits@.take(end - 1));
        end -= 1;
    }
    assert(trim_zeros(digits@.take(end as int)) == digits@.take(end as int));
    let mut t: usize = 0;
    while t < end
        invariant
            t <= end <= 6,
            digits@.len() == 6,
            out@ == before + seq!['.'] + digits@.take(t as int),
        decreases end - t,
    {
        push_char(out, digits[t]);
        t += 1;
        assert(out@ =~= before + seq!['.'] + digits@.take(t as int));
    }
    assert(out@ =~= old(out)@ + mm_text(nm as nat));
}

/// Which objects a class keeps off a layer: tracks, zones, or both.
pub open spec fn disallowed(track: bool, zone: bool) -> Seq<char> {
    if track && zone {
        "track zone"@
    } else if track {
        "track"@
    } else {
        "zone"@
    }
}

/// The condition that selects the members of class `name`.
pub open spec fn class_condition(name: Seq<char>) -> Seq<char> {
    "(condition \"A.NetClass == '"@ + name + "'\")"@
}

/// The rule keeping a class's tracks or zones off `layer`, when it keeps any off.
pub open spec fn layer_rule(c: ClassView, layer: Seq<char>) -> Seq<char> {
    let track = !class_allows(c, layer);
    let zone = !class_allows_zone(c, layer);
    if track || zone {
        "(rule \""@ + c.name + "-"@ + layer + "\" "@ + class_condition(c.name) + " (layer \""@ + layer
            + "\") (constraint disallow "@ + disallowed(track, zone) + "))\n"@
    } else {
        Seq::empty()
    }
}

/// The layer rules of a class for the first `n` layers of `board`.
pub open spec fn layer_rules(c: ClassView, board: Seq<Seq<char>>, n: nat) -> Seq<char>
    decreases n,
{
    if n == 0 {
        Seq::empty()
    } else {
        layer_rules(c, board, (n - 1) as nat) + layer_rule(c, board[n - 1])
    }
}

/// The rules of one class: its minimum track width, the layers it keeps off, and its via ban.
pub open spec fn class_rules(c: ClassView, board: Seq<Seq<char>>) -> Seq<char> {
    "(rule \""@ + c.name + "-width\" "@ + class_condition(c.name) + " (constraint track_width (min "@ + mm_text(
        c.minimum_track_width,
    ) + ")))\n"@ + layer_rules(c, board, board.len()) + if class_allows_vias(c) {
        Seq::empty()
    } else {
        "(rule \""@ + c.name + "-vias\" "@ + class_condition(c.name) + " (constraint disallow via))\n"@
    }
}

/// The rules of the first `n` classes.
pub open spec fn classes_rules(cs: Seq<ClassView>, board: Seq<Seq<char>>, n: nat) -> Seq<char>
    decreases n,
{
    if n == 0 {
        Seq::empty()
    } else {
        classes_rules(cs, board, (n - 1) as nat) + class_rules(cs[n - 1], board)
    }
}

/// The custom design rules file of a board with `layers` copper layers.
pub open spec fn rules_file(r: RulesView, layers: nat) -> Seq<char> {
    "(version 1)\n"@ + classes_rules(r.net_classes, copper_layer_names(layers), r.net_classes.len())
}

fn push_condition(out: &mut String, name: &str)
    ensures
        final(out)@ == old(out)@ + class_condition(name@),
{
    out.append("(condition \"A.NetClass == '");
    out.append(name);
    out.append("'\")");
    assert(final(out)@ =~= old(out)@ + class_condition(name@));
}

fn push_class_rules(out: &mut String, c: &NetClass, board: &Vec<String>)
    ensures
        final(out)@ == old(out)@ + class_rules(c@, views(board@)),
{
    let ghost start = out@;
    let name = c.name.as_str();
    out.append("(rule \"");
    out.append(name);
    out.append("-width\" ");
    push_condition(out, name);
    out.append(" (constraint track_width (min ");
    push_mm(out, c.minimum_track_width);
    out.append(")))\n");
    let ghost head = out@;
    assert(head =~= start + ("(rule \""@ + c@.name + "-width\" "@ + class_condition(c@.name) + " (constraint track_width (min "@
        + mm_text(c@.minimum_track_width) + ")))\n"@));
    let mut k: usize = 0;
    while k < board.len()
        invariant
            k <= board@.len(),
            name@ == c@.name,
            out@ == head + layer_rules(c@, views(board@), k as nat),
        decreases board.len() - k,
    {
        let layer = board[k].as_str();
        let ghost lv = views(board@)[k as int];
        assert(lv == layer@);
        let track = !c.allows(layer);
        let zone = !c.allows_zone(layer);
        let ghost before = out@;
        if track || zone {
            out.append("(rule \"");
            out.append(name);
            out.append("-");
            out.append(layer);
            out.append("\" ");
            push_condition(out, name);
            out.append(" (layer \"");
            out.append(layer);
            out.append("\") (constraint disallow ");
            let word = if track && zone {
                "track zone"
            } else if track {
                "track"
            } else {
                "zone"
            };
            assert(word@ == disallowed(track, zone));
            out.append(word);
            out.append("))\n");
            assert(out@ =~= before + layer_rule(c@, lv));
        } else {
            assert(out@ =~= before + layer_rule(c@, lv));
        }
        k += 1;
        assert(out@ =~= head + layer_rules(c@, views(board@), k as nat));
    }
    let ghost mid = out@;
    if !c.allows_vias() {
        out.append("(rule \"");
        out.append(name);
        out.append("-vias\" ");
        push_condition(out, name);
        out.append(" (constraint disallow via))\n");
        assert(out@ =~= mid + ("(rule \""@ + c@.name + "-vias\" "@ + class_condition(c@.name) + " (constraint disallow via))\n"@));
    }
    assert(out@ =~= start + class_rules(c@, views(board@)));
}

/// The custom design rules of the net classes for a board with `layers` copper layers: each
/// class's minimum track width, the layers that keep its tracks or zones off, and a via ban
/// where the class allows no through vias.
pub fn design_rules(rules: &NetRules, layers: u8) -> (r: String)
    ensures
        r@ == rules_file(rules@, layers as nat),
{
    let board = copper_layers(layers);
    let mut out = "(version 1)\n".to_owned();
    let mut i: usize = 0;
    while i < rules.net_classes.len()
        invariant
            i <= rules.net_classes@.len(),
            views(board@) == copper_layer_names(layers as nat),
            out@ == "(version 1)\n"@ + classes_rules(rules@.net_classes, views(board@), i as nat),
        decreases rules.net_classes.len() - i,
    {
        assert(rules@.net_classes[i as int] == rules.net_classes@[i as int]@);
        push_class_rules(&mut out, &rules.net_classes[i], &board);
        i += 1;
        assert(out@ =~= "(version 1)\n"@ + classes_rules(rules@.net_classes, views(board@), i as nat));
    }
    out
}

} // verus!

verus! {

/// The map from endpoint to net after `insert(endpoint, net)` into a map kept in ascending
/// endpoint order: an existing endpoint takes the new net.
pub open spec fn sorted_put(m: Seq<(Seq<char>, Seq<char>)>, e: Seq<char>, n: Seq<char>) -> Seq<(Seq<char>, Seq<char>)>
    decreases m.len(),
{
    if m.len() == 0 {
        seq![(e, n)]
    } else if m[0].0 == e {
        m.update(0, (e, n))
    } else if crate::route_workflow::lex_le(e, m[0].0) {
        seq![(e, n)] + m
    } else {
        seq![m[0]] + sorted_put(m.drop_first(), e, n)
    }
}

/// The endpoint map after the first `j` endpoints of net `i`.
pub open spec fn endpoint_map_upto(nets: Seq<crate::validate::NetEntry>, i: int, j: nat) -> Seq<(Seq<char>, Seq<char>)>
    decreases i, j,
{
    if j > 0 && 0 <= i < nets.len() && j <= nets[i].endpoints@.len() {
        sorted_put(endpoint_map_upto(nets, i, (j - 1) as nat), nets[i].endpoints@[j - 1]@, nets[i].name@)
    } else if i > 0 && i <= nets.len() {
        endpoint_map_upto(nets, i - 1, nets[i - 1].endpoints@.len())
    } else {
        Seq::empty()
    }
}

/// Each endpoint with the net that lists it, in ascending endpoint order; an endpoint listed
/// by several nets maps to the last of them.
pub open spec fn endpoint_map(nets: Seq<crate::validate::NetEntry>) -> Seq<(Seq<char>, Seq<char>)> {
    endpoint_map_upto(nets, nets.len() as int, 0)
}

pub(crate) fn sorted_put_exec(m: Vec<(String, String)>, e: &String, n: &String) -> (r: Vec<(String, String)>)
    ensures
        crate::modules::pair_views(r@) == sorted_put(crate::modules::pair_views(m@), e@, n@),
{
    let ghost mv = crate::modules::pair_views(m@);
    let mut i: usize = 0;
    assert(mv.skip(0) =~= mv);
    assert(mv.take(0) + mv =~= mv);
    while i < m.len() && !(m[i].0 == *e) && !crate::route_workflow::lex_le_exec(e, &m[i].0)
        invariant
            i <= m@.len(),
            mv == crate::modules::pair_views(m@),
            sorted_put(mv, e@, n@) == mv.take(i as int) + sorted_put(mv.skip(i as int), e@, n@),
        decreases m.len() - i,
    {
        proof {
            let rest = mv.skip(i as int);
            assert(rest[0] == (m@[i as int].0@, m@[i as int].1@));
            assert(rest.drop_first() =~= mv.skip(i + 1));
            assert(mv.take(i + 1) =~= mv.take(i as int) + seq![rest[0]]);
            assert(mv.take(i as int) + (seq![rest[0]] + sorted_put(rest.drop_first(), e@, n@)) =~= mv.take(i + 1)
                + sorted_put(mv.skip(i + 1), e@, n@));
        }
        i += 1;
    }
    let mut m = m;
    if i < m.len() && m[i].0 == *e {
        proof {
            assert(mv.skip(i as int)[0].0 == e@);
        }
        m.set(i, (e.clone(), n.clone()));
        assert(crate::modules::pair_views(m@) =~= mv.take(i as int) + mv.skip(i as int).update(0, (e@, n@)));
        m
    } else {
        proof {
            if i < m.len() {
                assert(mv.skip(i as int)[0] == (m@[i as int].0@, m@[i as int].1@));
            } else {
                assert(mv.skip(i as int) =~= Seq::<(Seq<char>, Seq<char>)>::empty());
            }
        }
        m.insert(i, (e.clone(), n.clone()));
        assert(crate::modules::pair_views(m@) =~= mv.take(i as int) + (seq![(e@, n@)] + mv.skip(i as int)));
        m
    }
}

/// Each endpoint with its net, in ascending endpoint order; an endpoint listed by several
/// nets maps to the last of them.
pub fn endpoint_net_map(nets: &Vec<crate::validate::NetEntry>) -> (r: Vec<(String, String)>)
    ensures
        crate::modules::pair_views(r@) == endpoint_map(nets@),
{
    let mut m: Vec<(String, String)> = Vec::new();
    let mut i: usize = 0;
    assert(crate::modules::pair_views(m@) =~= endpoint_map_upto(nets@, 0, 0));
    while i < nets.len()
        invariant
            i <= nets@.len(),
            crate::modules::pair_views(m@) == endpoint_map_upto(nets@, i as int, 0),
        decreases nets.len() - i,
    {
        let net = &nets[i];
        let mut j: usize = 0;
        while j < net.endpoints.len()
            invariant
                i < nets@.len(),
                net == &nets@[i as int],
                j <= net.endpoints@.len(),
                crate::modules::pair_views(m@) == endpoint_map_upto(nets@, i as int, j as nat),
            decreases net.endpoints.len() - j,
        {
            m = sorted_put_exec(m, &net.endpoints[j], &net.name);
            j += 1;
        }
        assert(endpoint_map_upto(nets@, (i + 1) as int, 0) == endpoint_map_upto(nets@, i as int, net.endpoints@.len()));
        i += 1;
    }
    m
}

} // verus!

verus! {

/// The board layer id of copper layer `i` named `name`: 0 for `F.Cu`, 2 for `B.Cu`, and
/// `2 i + 2` for an inner layer.
pub open spec fn copper_layer_id(i: int, name: Seq<char>) -> nat {
    if name == "F.Cu"@ {
        0
    } else if name == "B.Cu"@ {
        2
    } else {
        (2 * i + 2) as nat
    }
}

/// A layer table entry `(ID "NAME" KIND ["USER NAME"])`.
pub open spec fn layer_entry(id: Seq<char>, name: Seq<char>, kind: Seq<char>, user_name: Option<Seq<char>>) -> SexpView {
    match user_name {
        Some(u) => SexpView::List(seq![SexpView::Symbol(id), SexpView::Quoted(name), SexpView::Symbol(kind), SexpView::Quoted(u)]),
        None => SexpView::List(seq![SexpView::Symbol(id), SexpView::Quoted(name), SexpView::Symbol(kind)]),
    }
}

/// The technical (non-copper) layers every board declares, in table order.
pub open spec fn technical_layers() -> Seq<SexpView> {
    seq![
        layer_entry("9"@, "F.Adhes"@, "user"@, Some("F.Adhesive"@)),
        layer_entry("11"@, "B.Adhes"@, "user"@, Some("B.Adhesive"@)),
        layer_entry("13"@, "F.Paste"@, "user"@, None),
        layer_entry("15"@, "B.Paste"@, "user"@, None),
        layer_entry("5"@, "F.SilkS"@, "user"@, Some("F.Silkscreen"@)),
        layer_entry("7"@, "B.SilkS"@, "user"@, Some("B.Silkscreen"@)),
        layer_entry("1"@, "F.Mask"@, "user"@, None),
        layer_entry("3"@, "B.Mask"@, "user"@, None),
        layer_entry("17"@, "Dwgs.User"@, "user"@, Some("User.Drawings"@)),
        layer_entry("19"@, "Cmts.User"@, "user"@, Some("User.Comments"@)),
        layer_entry("25"@, "Edge.Cuts"@, "user"@, None),
        layer_entry("27"@, "Margin"@, "user"@, None),
        layer_entry("31"@, "F.CrtYd"@, "user"@, Some("F.Courtyard"@)),
        layer_entry("29"@, "B.CrtYd"@, "user"@, Some("B.Courtyard"@)),
        layer_entry("35"@, "F.Fab"@, "user"@, None),
        layer_entry("33"@, "B.Fab"@, "user"@, None),
    ]
}

/// The copper entries of the layer table, front to back.
pub open spec fn copper_entries(layers: nat) -> Seq<SexpView> {
    let names = copper_layer_names(layers);
    Seq::new(
        names.len(),
        |i: int| layer_entry(decimal(copper_layer_id(i, names[i])), names[i], "signal"@, None),
    )
}

/// The `(layers ...)` table of a board with `layers` copper layers: its copper layers front to
/// back, then the technical layers.
pub open spec fn layer_table(layers: nat) -> SexpView {
    SexpView::List(seq![SexpView::Symbol("layers"@)] + copper_entries(layers) + technical_layers())
}

/// Appends the layer table entry `(id "name" kind ["user_name"])`.
fn push_layer_entry(items: &mut Vec<Sexp>, id: String, name: &str, kind: &str, user_name: Option<&str>)
    ensures
        sexp_views(final(items)@) == sexp_views(old(items)@).push(
            layer_entry(
                id@,
                name@,
                kind@,
                match user_name {
                    Some(u) => Some(u@),
                    None => None,
                },
            ),
        ),
{
    let ghost user = match user_name {
        Some(u) => Some(u@),
        None => None,
    };
    let mut entry: Vec<Sexp> = Vec::new();
    entry.push(Sexp::Symbol(id));
    entry.push(Sexp::Quoted(name.to_owned()));
    entry.push(Sexp::Symbol(kind.to_owned()));
    match user_name {
        Some(u) => {
            entry.push(Sexp::Quoted(u.to_owned()));
            proof {
                lemma_sexp_views_len(entry@);
                lemma_sexp_views_index(entry@, 0);
                lemma_sexp_views_index(entry@, 1);
                lemma_sexp_views_index(entry@, 2);
                lemma_sexp_views_index(entry@, 3);
                assert(sexp_views(entry@) =~= seq![SexpView::Symbol(id@), SexpView::Quoted(name@), SexpView::Symbol(kind@), SexpView::Quoted(u@)]);
            }
        },
        None => {
            proof {
                lemma_sexp_views_len(entry@);
                lemma_sexp_views_index(entry@, 0);
                lemma_sexp_views_index(entry@, 1);
                lemma_sexp_views_index(entry@, 2);
                assert(sexp_views(entry@) =~= seq![SexpView::Symbol(id@), SexpView::Quoted(name@), SexpView::Symbol(kind@)]);
            }
        },
    }
    let node = Sexp::List(entry);
    assert(sexp_view(node) == layer_entry(id@, name@, kind@, user));
    proof {
        lemma_sexp_views_push(items@, node);
    }
    items.push(node);
}

/// The board's layer table for `layers` copper layers.
pub fn pcb_layers(layers: u8) -> (r: Sexp)
    ensures
        sexp_view(r) == layer_table(layers as nat),
{
    let names = copper_layers(layers);
    let ghost nv = copper_layer_names(layers as nat);
    let mut items: Vec<Sexp> = Vec::new();
    items.push(Sexp::Symbol("layers".to_owned()));
    proof {
        lemma_sexp_views_push(Seq::<Sexp>::empty(), items@[0]);
        assert(Seq::<Sexp>::empty().push(items@[0]) =~= items@);
        assert(sexp_views(Seq::<Sexp>::empty()) =~= Seq::<SexpView>::empty());
        assert(copper_entries(layers as nat).take(0) =~= Seq::<SexpView>::empty());
    }
    let mut i: usize = 0;
    while i < names.len()
        invariant
            i <= names@.len(),
            views(names@) == nv,
            nv == copper_layer_names(layers as nat),
            nv.len() <= 257,
            sexp_views(items@) == seq![SexpView::Symbol("layers"@)] + copper_entries(layers as nat).take(i as int),
        decreases names.len() - i,
    {
        let name = names[i].as_str();
        assert(nv[i as int] == name@);
        let mut id = String::new();
        let fcu = crate::text::same_text(name, "F.Cu");
        let bcu = crate::text::same_text(name, "B.Cu");
        if fcu {
            push_decimal(&mut id, 0);
        } else if bcu {
            push_decimal(&mut id, 2);
        } else {
            push_decimal(&mut id, 2 * i + 2);
        }
        assert(id@ == decimal(copper_layer_id(i as int, nv[i as int])));
        let ghost before = sexp_views(items@);
        push_layer_entry(&mut items, id, name, "signal", None);
        assert(copper_entries(layers as nat).take(i + 1) =~= copper_entries(layers as nat).take(i as int).push(
            copper_entries(layers as nat)[i as int],
        ));
        assert(sexp_views(items@) =~= seq![SexpView::Symbol("layers"@)] + copper_entries(layers as nat).take(i + 1));
        i += 1;
    }
    assert(copper_entries(layers as nat).take(i as int) =~= copper_entries(layers as nat));
    push_layer_entry(&mut items, "9".to_owned(), "F.Adhes", "user", Some("F.Adhesive"));
    push_layer_entry(&mut items, "11".to_owned(), "B.Adhes", "user", Some("B.Adhesive"));
    push_layer_entry(&mut items, "13".to_owned(), "F.Paste", "user", None);
    push_layer_entry(&mut items, "15".to_owned(), "B.Paste", "user", None);
    push_layer_entry(&mut items, "5".to_owned(), "F.SilkS", "user", Some("F.Silkscreen"));
    push_layer_entry(&mut items, "7".to_owned(), "B.SilkS", "user", Some("B.Silkscreen"));
    push_layer_entry(&mut items, "1".to_owned(), "F.Mask", "user", None);
    push_layer_entry(&mut items, "3".to_owned(), "B.Mask", "user", None);
    push_layer_entry(&mut items, "17".to_owned(), "Dwgs.User", "user", Some("User.Drawings"));
    push_layer_entry(&mut items, "19".to_owned(), "Cmts.User", "user", Some("User.Comments"));
    push_layer_entry(&mut items, "25".to_owned(), "Edge.Cuts", "user", None);
    push_layer_entry(&mut items, "27".to_owned(), "Margin", "user", None);
    push_layer_entry(&mut items, "31".to_owned(), "F.CrtYd", "user", Some("F.Courtyard"));
    push_layer_entry(&mut items, "29".to_owned(), "B.CrtYd", "user", Some("B.Courtyard"));
    push_layer_entry(&mut items, "35".to_owned(), "F.Fab", "user", None);
    push_layer_entry(&mut items, "33".to_owned(), "B.Fab", "user", None);
    assert(sexp_views(items@) =~= seq![SexpView::Symbol("layers"@)] + copper_entries(layers as nat) + technical_layers());
    Sexp::List(items)
}

} // verus!
