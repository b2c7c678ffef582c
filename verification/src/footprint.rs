//! Footprint items as the board file carries them: layers swapped for the back side, clauses
//! upserted or removed, stable identities for the items, and a library footprint placed on the
//! board.
use crate::connectivity::{lemma_sexp_views_index, lemma_sexp_views_len, lemma_sexp_views_push, sexp_view, sexp_views, Sexp, SexpView};
use crate::kicad::{identity_name, schematic_net, stable_uuid, url_uuid};
use crate::library::item_text;
use crate::text::{decimal, push_decimal, views};
use vstd::prelude::*;

verus! {

/// The layer on the other side of the board for a front or back layer name; any other text
/// as it is.
pub open spec fn flipped_layer(s: Seq<char>) -> Seq<char> {
    if s == "F.Cu"@ {
        "B.Cu"@
    } else if s == "B.Cu"@ {
        "F.Cu"@
    } else if s == "F.SilkS"@ {
        "B.SilkS"@
    } else if s == "B.SilkS"@ {
        "F.SilkS"@
    } else if s == "F.Mask"@ {
        "B.Mask"@
    } else if s == "B.Mask"@ {
        "F.Mask"@
    } else if s == "F.Paste"@ {
        "B.Paste"@
    } else if s == "B.Paste"@ {
        "F.Paste"@
    } else if s == "F.CrtYd"@ {
        "B.CrtYd"@
    } else if s == "B.CrtYd"@ {
        "F.CrtYd"@
    } else if s == "F.Fab"@ {
        "B.Fab"@
    } else if s == "B.Fab"@ {
        "F.Fab"@
    } else {
        s
    }
}

/// A node with every quoted layer name moved to the other side of the board.
pub open spec fn layers_swapped(n: SexpView) -> SexpView
    decreases n,
{
    match n {
        SexpView::Quoted(s) => SexpView::Quoted(flipped_layer(s)),
        SexpView::Symbol(_) => n,
        SexpView::List(items) => SexpView::List(layers_swapped_all(items)),
    }
}

/// The nodes of a list, each with its layers swapped.
pub open spec fn layers_swapped_all(items: Seq<SexpView>) -> Seq<SexpView>
    decreases items,
{
    if items.len() == 0 {
        Seq::empty()
    } else {
        layers_swapped_all(items.drop_last()).push(layers_swapped(items.last()))
    }
}

fn flip_layer(s: &str) -> (r: String)
    ensures
        r@ == flipped_layer(s@),
{
    if crate::text::same_text(s, "F.Cu") {
        "B.Cu".to_owned()
    } else if crate::text::same_text(s, "B.Cu") {
        "F.Cu".to_owned()
    } else if crate::text::same_text(s, "F.SilkS") {
        "B.SilkS".to_owned()
    } else if crate::text::same_text(s, "B.SilkS") {
        "F.SilkS".to_owned()
    } else if crate::text::same_text(s, "F.Mask") {
        "B.Mask".to_owned()
    } else if crate::text::same_text(s, "B.Mask") {
        "F.Mask".to_owned()
    } else if crate::text::same_text(s, "F.Paste") {
        "B.Paste".to_owned()
    } else if crate::text::same_text(s, "B.Paste") {
        "F.Paste".to_owned()
    } else if crate::text::same_text(s, "F.CrtYd") {
        "B.CrtYd".to_owned()
    } else if crate::text::same_text(s, "B.CrtYd") {
        "F.CrtYd".to_owned()
    } else if crate::text::same_text(s, "F.Fab") {
        "B.Fab".to_owned()
    } else if crate::text::same_text(s, "B.Fab") {
        "F.Fab".to_owned()
    } else {
        s.to_owned()
    }
}

proof fn lemma_swapped_all_push(items: Seq<SexpView>, x: SexpView)
    ensures
        layers_swapped_all(items.push(x)) == layers_swapped_all(items).push(layers_swapped(x)),
{
    assert(items.push(x).drop_last() =~= items);
}

/// A copy of `n` with its layers swapped.
fn swapped(n: &Sexp) -> (r: Sexp)
    ensures
        sexp_view(r) == layers_swapped(sexp_view(*n)),
    decreases n,
{
    match n {
        Sexp::Quoted(s) => Sexp::Quoted(flip_layer(s.as_str())),
        Sexp::Symbol(s) => Sexp::Symbol(s.clone()),
        Sexp::List(items) => {
            let ghost v = sexp_views(items@);
            proof {
                lemma_sexp_views_len(items@);
            }
            let mut out: Vec<Sexp> = Vec::new();
            let mut i: usize = 0;
            while i < items.len()
                invariant
                    i <= items@.len(),
                    *n == Sexp::List(*items),
                    v == sexp_views(items@),
                    v.len() == items@.len(),
                    sexp_views(out@) == layers_swapped_all(v.take(i as int)),
                decreases items.len() - i,
            {
                proof {
                    assert(decreases_to!(*n => (*n)->List_0));
                    assert(decreases_to!(*items => items@));
                    assert(decreases_to!(items@ => items@[i as int]));
                    lemma_sexp_views_index(items@, i as int);
                    assert(v.take(i + 1) =~= v.take(i as int).push(v[i as int]));
                    lemma_swapped_all_push(v.take(i as int), v[i as int]);
                }
                let x = swapped(&items[i]);
                proof {
                    lemma_sexp_views_push(out@, x);
                }
                out.push(x);
                i += 1;
            }
            assert(v.take(items@.len() as int) =~= v);
            Sexp::List(out)
        },
    }
}

/// Moves every quoted layer name of a footprint item to the other side of the board:
/// copper, silkscreen, mask, paste, courtyard and fabrication layers.
pub fn swap_front_back_layers(node: &mut Sexp)
    ensures
        sexp_view(*final(node)) == layers_swapped(sexp_view(*old(node))),
{
    let r = swapped(node);
    *node = r;
}

} // verus!

verus! {

/// The head of a list node, when it is a symbol atom.
pub open spec fn symbol_head(n: SexpView) -> Option<Seq<char>> {
    match n {
        SexpView::List(items) => if items.len() > 0 {
            match items[0] {
                SexpView::Symbol(h) => Some(h),
                _ => None,
            }
        } else {
            None
        },
        _ => None,
    }
}

/// The symbol head of a list node.
pub fn node_head(n: &Sexp) -> (r: Option<String>)
    ensures
        match symbol_head(sexp_view(*n)) {
            Some(h) => r matches Some(s) && s@ == h,
            None => r is None,
        },
{
    match n {
        Sexp::List(items) => {
            proof {
                lemma_sexp_views_len(items@);
            }
            if items.len() > 0 {
                proof {
                    lemma_sexp_views_index(items@, 0);
                }
                match &items[0] {
                    Sexp::Symbol(h) => Some(h.clone()),
                    _ => None,
                }
            } else {
                None
            }
        },
        _ => None,
    }
}

/// Whether the symbol head of `n` is `h`.
fn head_is(n: &Sexp, h: &str) -> (r: bool)
    ensures
        r == (symbol_head(sexp_view(*n)) == Some(h@)),
{
    match node_head(n) {
        Some(x) => crate::text::same_text(x.as_str(), h),
        None => false,
    }
}

/// Whether a node is a named property `(property "NAME" ...)`.
pub open spec fn named_property(n: SexpView) -> bool {
    match n {
        SexpView::List(items) => items.len() >= 2 && items[0] == SexpView::Symbol("property"@) && items[1] is Quoted,
        _ => false,
    }
}

/// Whether a node is a named property `(property "NAME" ...)`.
pub fn is_named_property(n: &Sexp) -> (r: bool)
    ensures
        r == named_property(sexp_view(*n)),
{
    match n {
        Sexp::List(items) => {
            proof {
                lemma_sexp_views_len(items@);
            }
            if items.len() >= 2 {
                proof {
                    lemma_sexp_views_index(items@, 0);
                    lemma_sexp_views_index(items@, 1);
                }
                let head = match &items[0] {
                    Sexp::Symbol(h) => crate::text::same_text(h.as_str(), "property"),
                    _ => false,
                };
                let quoted = match &items[1] {
                    Sexp::Quoted(_) => true,
                    _ => false,
                };
                head && quoted
            } else {
                false
            }
        },
        _ => false,
    }
}

/// A list node whose second item becomes the quoted `value`; any other node as it is.
pub open spec fn second_quoted(n: SexpView, value: Seq<char>) -> SexpView {
    match n {
        SexpView::List(items) => if items.len() > 1 {
            SexpView::List(items.update(1, SexpView::Quoted(value)))
        } else {
            n
        },
        _ => n,
    }
}

/// A copy of the items of a list with item `k` replaced by `x`.
fn replaced(items: &Vec<Sexp>, k: usize, x: Sexp) -> (r: Vec<Sexp>)
    requires
        k < items@.len(),
    ensures
        sexp_views(r@) == sexp_views(items@).update(k as int, sexp_view(x)),
{
    proof {
        lemma_sexp_views_len(items@);
    }
    let ghost target = sexp_views(items@).update(k as int, sexp_view(x));
    let mut slot: Option<Sexp> = Some(x);
    let ghost xv = sexp_view(x);
    let mut out: Vec<Sexp> = Vec::new();
    let mut i: usize = 0;
    while i < items.len()
        invariant
            i <= items@.len(),
            k < items@.len(),
            sexp_views(items@).len() == items@.len(),
            target == sexp_views(items@).update(k as int, xv),
            i <= k ==> (slot matches Some(y) && sexp_view(y) == xv),
            sexp_views(out@) == target.take(i as int),
        decreases items.len() - i,
    {
        proof {
            lemma_sexp_views_index(items@, i as int);
            assert(target.take(i + 1) =~= target.take(i as int).push(target[i as int]));
        }
        let y = if i == k {
            match slot.take() {
                Some(y) => y,
                None => Sexp::List(Vec::new()),
            }
        } else {
            items[i].copy()
        };
        proof {
            lemma_sexp_views_push(out@, y);
        }
        out.push(y);
        i += 1;
    }
    assert(target.take(items@.len() as int) =~= target);
    out
}

/// Sets the second item of a list node to the quoted `value`.
pub fn set_second_quoted(node: &mut Sexp, value: &str)
    ensures
        sexp_view(*final(node)) == second_quoted(sexp_view(*old(node)), value@),
{
    let next = match &*node {
        Sexp::List(items) => {
            proof {
                lemma_sexp_views_len(items@);
            }
            if items.len() > 1 {
                Some(Sexp::List(replaced(items, 1, Sexp::Quoted(value.to_owned()))))
            } else {
                None
            }
        },
        _ => None,
    };
    match next {
        Some(n) => {
            *node = n;
        },
        None => {},
    }
}

/// Index of the first item at or after `from` whose symbol head is `h`.
pub open spec fn head_slot(items: Seq<SexpView>, h: Seq<char>, from: int) -> Option<int>
    decreases items.len() - from,
{
    if from < 0 || from >= items.len() {
        None
    } else if symbol_head(items[from]) == Some(h) {
        Some(from)
    } else {
        head_slot(items, h, from + 1)
    }
}

/// The items of a list with `node` in place of the first item after the head that has the
/// same symbol head, or else appended.
pub open spec fn upserted(items: Seq<SexpView>, node: SexpView) -> Seq<SexpView> {
    match symbol_head(node) {
        Some(h) => match head_slot(items, h, 1) {
            Some(i) => items.update(i, node),
            None => items.push(node),
        },
        None => items.push(node),
    }
}

/// Puts `node` in place of the first item (after the head) with the same symbol head, or
/// appends it.
pub fn upsert_child(items: &mut Vec<Sexp>, node: Sexp)
    ensures
        sexp_views(final(items)@) == upserted(sexp_views(old(items)@), sexp_view(node)),
{
    proof {
        lemma_sexp_views_len(items@);
    }
    let head = node_head(&node);
    match head {
        Some(h) => {
            let mut i: usize = 1;
            while i < items.len()
                invariant
                    1 <= i,
                    items@ == old(items)@,
                    symbol_head(sexp_view(node)) == Some(h@),
                    i <= items@.len() || items@.len() == 0,
                    sexp_views(items@).len() == items@.len(),
                    head_slot(sexp_views(items@), h@, 1) == head_slot(sexp_views(items@), h@, i as int),
                decreases items.len() - i,
            {
                proof {
                    lemma_sexp_views_index(items@, i as int);
                }
                if head_is(&items[i], h.as_str()) {
                    assert(head_slot(sexp_views(items@), h@, i as int) == Some(i as int));
                    let next = replaced(items, i, node);
                    *items = next;
                    return;
                }
                i += 1;
            }
            proof {
                lemma_sexp_views_push(items@, node);
            }
            items.push(node);
        },
        None => {
            proof {
                lemma_sexp_views_push(items@, node);
            }
            items.push(node);
        },
    }
}

/// The items of a list without those whose symbol head is one of `heads`.
pub open spec fn without_heads(items: Seq<SexpView>, heads: Seq<Seq<char>>) -> Seq<SexpView>
    decreases items.len(),
{
    if items.len() == 0 {
        Seq::empty()
    } else {
        let prev = without_heads(items.drop_last(), heads);
        let x = items.last();
        if symbol_head(x) matches Some(h) && heads.contains(h) {
            prev
        } else {
            prev.push(x)
        }
    }
}

/// Removes the items whose symbol head is one of `heads`.
pub fn remove_children(items: &mut Vec<Sexp>, heads: &Vec<String>)
    ensures
        sexp_views(final(items)@) == without_heads(sexp_views(old(items)@), views(heads@)),
{
    proof {
        lemma_sexp_views_len(items@);
    }
    let ghost v = sexp_views(items@);
    let ghost hv = views(heads@);
    let mut out: Vec<Sexp> = Vec::new();
    let mut i: usize = 0;
    while i < items.len()
        invariant
            i <= items@.len(),
            v == sexp_views(items@),
            v.len() == items@.len(),
            hv == views(heads@),
            sexp_views(out@) == without_heads(v.take(i as int), hv),
        decreases items.len() - i,
    {
        proof {
            lemma_sexp_views_index(items@, i as int);
            assert(v.take(i + 1).drop_last() =~= v.take(i as int));
        }
        let drop = match node_head(&items[i]) {
            Some(h) => {
                let mut found = false;
                let mut j: usize = 0;
                while j < heads.len()
                    invariant
                        j <= heads@.len(),
                        hv == views(heads@),
                        found == exists|q: int| 0 <= q < j && hv[q] == h@,
                    decreases heads.len() - j,
                {
                    assert(hv[j as int] == heads@[j as int]@);
                    if crate::text::same_text(heads[j].as_str(), h.as_str()) {
                        found = true;
                    }
                    j += 1;
                }
                proof {
                    if found {
                        let q = choose|q: int| 0 <= q < heads@.len() && hv[q] == h@;
                        assert(hv.contains(h@));
                    }
                }
                found
            },
            None => false,
        };
        if !drop {
            let x = items[i].copy();
            proof {
                lemma_sexp_views_push(out@, x);
            }
            out.push(x);
        }
        i += 1;
    }
    assert(v.take(items@.len() as int) =~= v);
    *items = out;
}

/// A property `(property "key" V ...)` with its value set to the quoted `value`; any other
/// node as it is.
pub open spec fn property_set(n: SexpView, key: Seq<char>, value: Seq<char>) -> SexpView {
    if symbol_head(n) == Some("property"@) && item_text(n, 1) == Some(key) {
        match n {
            SexpView::List(items) => if items.len() > 2 {
                SexpView::List(items.update(2, SexpView::Quoted(value)))
            } else {
                n
            },
            _ => n,
        }
    } else {
        n
    }
}

/// Sets the value of every property `key` among `items` to `value`.
pub fn set_property(items: &mut Vec<Sexp>, key: &str, value: &str)
    ensures
        sexp_views(final(items)@).len() == sexp_views(old(items)@).len(),
        forall|i: int|
            0 <= i < sexp_views(old(items)@).len() ==> #[trigger] sexp_views(final(items)@)[i] == property_set(
                sexp_views(old(items)@)[i],
                key@,
                value@,
            ),
{
    proof {
        lemma_sexp_views_len(items@);
    }
    let ghost v = sexp_views(items@);
    let mut out: Vec<Sexp> = Vec::new();
    let mut i: usize = 0;
    while i < items.len()
        invariant
            i <= items@.len(),
            v == sexp_views(items@),
            v.len() == items@.len(),
            sexp_views(out@).len() == i,
            forall|k: int| 0 <= k < i ==> #[trigger] sexp_views(out@)[k] == property_set(v[k], key@, value@),
        decreases items.len() - i,
    {
        proof {
            lemma_sexp_views_index(items@, i as int);
        }
        let c = &items[i];
        let matches = head_is(c, "property") && match crate::library::node_second(c) {
            Some(k) => crate::text::same_text(k.as_str(), key),
            None => false,
        };
        let x = match c {
            Sexp::List(sub) => {
                proof {
                    lemma_sexp_views_len(sub@);
                }
                if matches && sub.len() > 2 {
                    Sexp::List(replaced(sub, 2, Sexp::Quoted(value.to_owned())))
                } else {
                    c.copy()
                }
            },
            _ => c.copy(),
        };
        assert(sexp_view(x) == property_set(v[i as int], key@, value@));
        let ghost before = out@;
        proof {
            lemma_sexp_views_push(out@, x);
        }
        out.push(x);
        proof {
            assert forall|k: int| 0 <= k < i + 1 implies #[trigger] sexp_views(out@)[k] == property_set(v[k], key@, value@) by {
                if k < i {
                    assert(sexp_views(out@)[k] == sexp_views(before)[k]);
                }
            }
        }
        i += 1;
    }
    *items = out;
}

/// The property clause a footprint gets for a missing `key`: hidden, on the fabrication
/// layer, at the footprint origin.
pub open spec fn default_property(key: Seq<char>, value: Seq<char>) -> SexpView {
    SexpView::List(
        seq![
            SexpView::Symbol("property"@),
            SexpView::Quoted(key),
            SexpView::Quoted(value),
            SexpView::List(seq![SexpView::Symbol("at"@), SexpView::Symbol("0.0"@), SexpView::Symbol("0.0"@), SexpView::Symbol("0.0"@)]),
            SexpView::List(seq![SexpView::Symbol("layer"@), SexpView::Quoted("F.Fab"@)]),
            SexpView::List(seq![SexpView::Symbol("hide"@), SexpView::Symbol("yes"@)]),
            SexpView::List(
                seq![
                    SexpView::Symbol("effects"@),
                    SexpView::List(
                        seq![
                            SexpView::Symbol("font"@),
                            SexpView::List(seq![SexpView::Symbol("size"@), SexpView::Symbol("1.27"@), SexpView::Symbol("1.27"@)]),
                        ],
                    ),
                ],
            ),
        ],
    )
}

/// Whether some item is a property `key`.
pub open spec fn has_property(items: Seq<SexpView>, key: Seq<char>) -> bool {
    exists|i: int| 0 <= i < items.len() && symbol_head(items[i]) == Some("property"@) && #[trigger] item_text(items[i], 1) == Some(key)
}

/// Appends a node to a list of nodes.
fn push_node(items: &mut Vec<Sexp>, x: Sexp)
    ensures
        sexp_views(final(items)@) == sexp_views(old(items)@).push(sexp_view(x)),
{
    proof {
        lemma_sexp_views_push(items@, x);
    }
    items.push(x);
}

/// The list node `(a b)`.
fn node2(a: Sexp, b: Sexp) -> (r: Sexp)
    ensures
        sexp_view(r) == SexpView::List(seq![sexp_view(a), sexp_view(b)]),
{
    let mut v: Vec<Sexp> = Vec::new();
    proof {
        assert(sexp_views(v@) =~= Seq::<SexpView>::empty());
    }
    let ghost (x, y) = (sexp_view(a), sexp_view(b));
    push_node(&mut v, a);
    push_node(&mut v, b);
    assert(sexp_views(v@) =~= seq![x, y]);
    Sexp::List(v)
}

/// The list node `(a b c)`.
fn node3(a: Sexp, b: Sexp, c: Sexp) -> (r: Sexp)
    ensures
        sexp_view(r) == SexpView::List(seq![sexp_view(a), sexp_view(b), sexp_view(c)]),
{
    let mut v: Vec<Sexp> = Vec::new();
    proof {
        assert(sexp_views(v@) =~= Seq::<SexpView>::empty());
    }
    let ghost (x, y, z) = (sexp_view(a), sexp_view(b), sexp_view(c));
    push_node(&mut v, a);
    push_node(&mut v, b);
    push_node(&mut v, c);
    assert(sexp_views(v@) =~= seq![x, y, z]);
    Sexp::List(v)
}

/// A symbol atom.
fn sym(t: &str) -> (r: Sexp)
    ensures
        sexp_view(r) == SexpView::Symbol(t@),
{
    Sexp::Symbol(t.to_owned())
}

/// A quoted atom.
fn quoted(t: &str) -> (r: Sexp)
    ensures
        sexp_view(r) == SexpView::Quoted(t@),
{
    Sexp::Quoted(t.to_owned())
}

/// Gives the footprint a hidden property `key` with `value` unless it has one.
pub fn ensure_footprint_property(items: &mut Vec<Sexp>, key: &str, value: &str)
    ensures
        has_property(sexp_views(old(items)@), key@) ==> sexp_views(final(items)@) == sexp_views(old(items)@),
        !has_property(sexp_views(old(items)@), key@) ==> sexp_views(final(items)@) == sexp_views(old(items)@).push(
            default_property(key@, value@),
        ),
{
    proof {
        lemma_sexp_views_len(items@);
    }
    let ghost v = sexp_views(items@);
    let mut i: usize = 0;
    while i < items.len()
        invariant
            i <= items@.len(),
            v == sexp_views(items@),
            v.len() == items@.len(),
            forall|k: int| 0 <= k < i ==> !(symbol_head(v[k]) == Some("property"@) && #[trigger] item_text(v[k], 1) == Some(key@)),
        decreases items.len() - i,
    {
        proof {
            lemma_sexp_views_index(items@, i as int);
        }
        let c = &items[i];
        if head_is(c, "property") {
            match crate::library::node_second(c) {
                Some(k) => {
                    if crate::text::same_text(k.as_str(), key) {
                        return;
                    }
                },
                None => {},
            }
        }
        i += 1;
    }
    let mut at: Vec<Sexp> = Vec::new();
    proof {
        assert(sexp_views(at@) =~= Seq::<SexpView>::empty());
    }
    push_node(&mut at, sym("at"));
    push_node(&mut at, sym("0.0"));
    push_node(&mut at, sym("0.0"));
    push_node(&mut at, sym("0.0"));
    assert(sexp_views(at@) =~= seq![SexpView::Symbol("at"@), SexpView::Symbol("0.0"@), SexpView::Symbol("0.0"@), SexpView::Symbol("0.0"@)]);
    let at = Sexp::List(at);
    let layer = node2(sym("layer"), quoted("F.Fab"));
    let hide = node2(sym("hide"), sym("yes"));
    let effects = node2(sym("effects"), node2(sym("font"), node3(sym("size"), sym("1.27"), sym("1.27"))));
    let mut parts: Vec<Sexp> = Vec::new();
    proof {
        assert(sexp_views(parts@) =~= Seq::<SexpView>::empty());
    }
    push_node(&mut parts, sym("property"));
    push_node(&mut parts, quoted(key));
    push_node(&mut parts, quoted(value));
    push_node(&mut parts, at);
    push_node(&mut parts, layer);
    push_node(&mut parts, hide);
    push_node(&mut parts, effects);
    assert(sexp_views(parts@) =~= seq![
        SexpView::Symbol("property"@),
        SexpView::Quoted(key@),
        SexpView::Quoted(value@),
        sexp_view(at),
        sexp_view(layer),
        sexp_view(hide),
        sexp_view(effects),
    ]);
    let node = Sexp::List(parts);
    assert(sexp_view(node) == default_property(key@, value@));
    proof {
        lemma_sexp_views_push(items@, node);
    }
    items.push(node);
}

} // verus!

verus! {

/// Whether a footprint item gets a stable identity of its own: a graphic, text, point, pad,
/// zone or group, or a named property.
pub open spec fn uuid_eligible(n: SexpView) -> bool {
    ||| named_property(n)
    ||| (symbol_head(n) matches Some(h) && (h == "fp_line"@ || h == "fp_rect"@ || h == "fp_circle"@ || h == "fp_arc"@ || h
        == "fp_poly"@ || h == "fp_curve"@ || h == "fp_text"@ || h == "fp_text_box"@ || h == "point"@ || h == "pad"@ || h
        == "zone"@ || h == "group"@))
}

/// The `(uuid "...")` clause of the `k`-th identified item under `prefix`.
pub open spec fn item_uuid(project: Seq<char>, prefix: Seq<char>, k: nat) -> SexpView {
    SexpView::List(
        seq![
            SexpView::Symbol("uuid"@),
            SexpView::Quoted(url_uuid(identity_name(project, prefix + "/item/"@ + decimal(k)))),
        ],
    )
}

/// A node with stable identities given to its eligible items, numbered in document order from
/// `k` on, and the next free number. An eligible list takes the next number before its
/// items; its `uuid` clause is replaced, or appended when it has none.
pub open spec fn with_uuids(v: SexpView, project: Seq<char>, prefix: Seq<char>, k: nat) -> (SexpView, nat)
    decreases v, 0nat,
{
    match v {
        SexpView::List(items) => if uuid_eligible(v) {
            let slot = head_slot(items, "uuid"@, 1);
            let u = item_uuid(project, prefix, k);
            let r = uuids_upto(items, slot, u, project, prefix, k + 1, items.len());
            (SexpView::List(if slot is None { r.0.push(u) } else { r.0 }), r.1)
        } else {
            let r = uuids_upto(items, None, item_uuid(project, prefix, k), project, prefix, k, items.len());
            (SexpView::List(r.0), r.1)
        },
        _ => (v, k),
    }
}

/// The first `n` items of a list after identities are given: the head kept, item `slot`
/// replaced by `u`, every other item given identities in turn; and the next free number.
pub open spec fn uuids_upto(
    items: Seq<SexpView>,
    slot: Option<int>,
    u: SexpView,
    project: Seq<char>,
    prefix: Seq<char>,
    k: nat,
    n: nat,
) -> (Seq<SexpView>, nat)
    decreases items, n,
{
    if n == 0 || n > items.len() {
        (Seq::empty(), k)
    } else {
        let prev = uuids_upto(items, slot, u, project, prefix, k, (n - 1) as nat);
        let i = n - 1;
        if i == 0 {
            (prev.0.push(items[0]), prev.1)
        } else if slot == Some(i) {
            (prev.0.push(u), prev.1)
        } else {
            let c = with_uuids(items[i], project, prefix, prev.1);
            (prev.0.push(c.0), c.1)
        }
    }
}

proof fn lemma_with_uuids_grows(v: SexpView, project: Seq<char>, prefix: Seq<char>, k: nat)
    ensures
        with_uuids(v, project, prefix, k).1 >= k,
    decreases v, 0nat,
{
    match v {
        SexpView::List(items) => {
            let slot = head_slot(items, "uuid"@, 1);
            if uuid_eligible(v) {
                lemma_upto_grows(items, slot, item_uuid(project, prefix, k), project, prefix, k + 1, items.len(), items.len());
            } else {
                lemma_upto_grows(items, None, item_uuid(project, prefix, k), project, prefix, k, items.len(), items.len());
            }
        },
        _ => {},
    }
}

proof fn lemma_upto_grows(
    items: Seq<SexpView>,
    slot: Option<int>,
    u: SexpView,
    project: Seq<char>,
    prefix: Seq<char>,
    k: nat,
    m: nat,
    n: nat,
)
    requires
        m <= n <= items.len(),
    ensures
        k <= uuids_upto(items, slot, u, project, prefix, k, m).1 <= uuids_upto(items, slot, u, project, prefix, k, n).1,
    decreases items, n,
{
    if n > 0 {
        let prev = uuids_upto(items, slot, u, project, prefix, k, (n - 1) as nat);
        let i = n - 1;
        if i != 0 && slot != Some(i) {
            lemma_with_uuids_grows(items[i], project, prefix, prev.1);
        }
        if m < n {
            lemma_upto_grows(items, slot, u, project, prefix, k, m, (n - 1) as nat);
        } else {
            lemma_upto_grows(items, slot, u, project, prefix, k, (n - 1) as nat, (n - 1) as nat);
        }
    }
}

/// Whether a footprint item gets a stable identity of its own.
fn is_uuid_eligible(n: &Sexp) -> (r: bool)
    ensures
        r == uuid_eligible(sexp_view(*n)),
{
    if is_named_property(n) {
        return true;
    }
    match node_head(n) {
        Some(h) => {
            let h = h.as_str();
            crate::text::same_text(h, "fp_line") || crate::text::same_text(h, "fp_rect") || crate::text::same_text(h, "fp_circle")
                || crate::text::same_text(h, "fp_arc") || crate::text::same_text(h, "fp_poly") || crate::text::same_text(h, "fp_curve")
                || crate::text::same_text(h, "fp_text") || crate::text::same_text(h, "fp_text_box") || crate::text::same_text(h, "point")
                || crate::text::same_text(h, "pad") || crate::text::same_text(h, "zone") || crate::text::same_text(h, "group")
        },
        None => false,
    }
}

/// The `(uuid "...")` clause of the `k`-th identified item under `prefix`.
fn item_uuid_node(project: &str, prefix: &str, k: usize) -> (r: Sexp)
    ensures
        sexp_view(r) == item_uuid(project@, prefix@, k as nat),
{
    let mut key = crate::text::text2(prefix, "/item/");
    push_decimal(&mut key, k);
    let id = stable_uuid(project, key.as_str());
    node2(sym("uuid"), Sexp::Quoted(id))
}

/// A copy of `node` with identities given to its eligible items from number `k` on (see
/// `with_uuids`), and the next free number.
fn uuids_added(node: &Sexp, project: &str, prefix: &str, k: usize) -> (r: (Sexp, usize))
    requires
        with_uuids(sexp_view(*node), project@, prefix@, k as nat).1 <= usize::MAX,
    ensures
        sexp_view(r.0) == with_uuids(sexp_view(*node), project@, prefix@, k as nat).0,
        r.1 == with_uuids(sexp_view(*node), project@, prefix@, k as nat).1,
    decreases node,
{
    match node {
        Sexp::List(items) => {
            let ghost v = sexp_views(items@);
            proof {
                lemma_sexp_views_len(items@);
            }
            let eligible = is_uuid_eligible(node);
            let mut slot: Option<usize> = None;
            if eligible {
                let mut j: usize = 1;
                while j < items.len()
                    invariant_except_break
                        slot is None,
                    invariant
                        1 <= j,
                        v == sexp_views(items@),
                        v.len() == items@.len(),
                        head_slot(v, "uuid"@, 1) == head_slot(v, "uuid"@, j as int),
                    ensures
                        v == sexp_views(items@),
                        match slot {
                            Some(q) => head_slot(v, "uuid"@, 1) == Some(q as int) && q < items@.len(),
                            None => head_slot(v, "uuid"@, 1) is None,
                        },
                    decreases items.len() - j,
                {
                    proof {
                        lemma_sexp_views_index(items@, j as int);
                    }
                    if head_is(&items[j], "uuid") {
                        slot = Some(j);
                        break;
                    }
                    j += 1;
                }
            }
            let ghost gslot: Option<int> = match slot {
                Some(q) => Some(q as int),
                None => None,
            };
            assert(eligible ==> gslot == head_slot(v, "uuid"@, 1));
            let ghost u = item_uuid(project@, prefix@, k as nat);
            let ghost start: nat = if eligible { (k + 1) as nat } else { k as nat };
            let ghost total = uuids_upto(v, gslot, u, project@, prefix@, start, v.len()).1;
            proof {
                lemma_upto_grows(v, gslot, u, project@, prefix@, start, 0, v.len());
            }
            let mut counter: usize = if eligible { k + 1 } else { k };
            let mut out: Vec<Sexp> = Vec::new();
            proof {
                assert(sexp_views(out@) =~= Seq::<SexpView>::empty());
            }
            let mut i: usize = 0;
            while i < items.len()
                invariant
                    i <= items@.len(),
                    *node == Sexp::List(*items),
                    v == sexp_views(items@),
                    v.len() == items@.len(),
                    eligible ==> gslot == head_slot(v, "uuid"@, 1),
                    !eligible ==> gslot is None,
                    match slot {
                        Some(q) => gslot == Some(q as int),
                        None => gslot is None,
                    },
                    u == item_uuid(project@, prefix@, k as nat),
                    total == uuids_upto(v, gslot, u, project@, prefix@, start, v.len()).1,
                    total <= usize::MAX,
                    (sexp_views(out@), counter as nat) == uuids_upto(v, gslot, u, project@, prefix@, start, i as nat),
                decreases items.len() - i,
            {
                proof {
                    lemma_sexp_views_index(items@, i as int);
                    lemma_upto_grows(v, gslot, u, project@, prefix@, start, (i + 1) as nat, v.len());
                }
                if i == 0 {
                    push_node(&mut out, items[0].copy());
                } else if slot == Some(i) {
                    push_node(&mut out, item_uuid_node(project, prefix, k));
                } else {
                    proof {
                        assert(decreases_to!(*node => (*node)->List_0));
                        assert(decreases_to!(*items => items@));
                        assert(decreases_to!(items@ => items@[i as int]));
                    }
                    let (c, next) = uuids_added(&items[i], project, prefix, counter);
                    push_node(&mut out, c);
                    counter = next;
                }
                i += 1;
            }
            if eligible && slot.is_none() {
                push_node(&mut out, item_uuid_node(project, prefix, k));
            }
            (Sexp::List(out), counter)
        },
        _ => (node.copy(), k),
    }
}

/// Gives every eligible item of `node` (see `uuid_eligible`) a stable identity derived from
/// the project name, `prefix` and its number in document order, counting on from `ordinal`.
pub fn add_descendant_uuids(project: &str, node: &mut Sexp, prefix: &str, ordinal: &mut usize)
    requires
        with_uuids(sexp_view(*old(node)), project@, prefix@, *old(ordinal) as nat).1 <= usize::MAX,
    ensures
        sexp_view(*final(node)) == with_uuids(sexp_view(*old(node)), project@, prefix@, *old(ordinal) as nat).0,
        *final(ordinal) == with_uuids(sexp_view(*old(node)), project@, prefix@, *old(ordinal) as nat).1,
{
    let (n, k) = uuids_added(node, project, prefix, *ordinal);
    *node = n;
    *ordinal = k;
}

} // verus!

verus! {

/// The items of a list without bare `locked` symbols.
pub open spec fn without_locked_atoms(items: Seq<SexpView>) -> Seq<SexpView>
    decreases items.len(),
{
    if items.len() == 0 {
        Seq::empty()
    } else {
        let prev = without_locked_atoms(items.drop_last());
        if items.last() == SexpView::Symbol("locked"@) {
            prev
        } else {
            prev.push(items.last())
        }
    }
}

/// The items with every property `key` set to `value` (see `property_set`).
pub open spec fn properties_set(items: Seq<SexpView>, key: Seq<char>, value: Seq<char>) -> Seq<SexpView> {
    Seq::new(items.len(), |i: int| property_set(items[i], key, value))
}

/// The items with a default property `key` added unless one is there.
pub open spec fn ensured(items: Seq<SexpView>, key: Seq<char>, value: Seq<char>) -> Seq<SexpView> {
    if has_property(items, key) {
        items
    } else {
        items.push(default_property(key, value))
    }
}

/// Whether a footprint item moves to the other side with the footprint: all but its own
/// position and layer clauses.
pub open spec fn flips_with_board(n: SexpView) -> bool {
    symbol_head(n) != Some("at"@) && symbol_head(n) != Some("layer"@)
}

/// The value of the first entry with key `key` at or after `from`.
pub open spec fn first_value(m: Seq<(String, String)>, key: Seq<char>, from: int) -> Option<Seq<char>>
    decreases m.len() - from,
{
    if from < 0 || from >= m.len() {
        None
    } else if m[from].0@ == key {
        Some(m[from].1@)
    } else {
        first_value(m, key, from + 1)
    }
}

/// The code of the first entry for net `net` at or after `from`.
pub open spec fn code_of(codes: Seq<(String, i32)>, net: Seq<char>, from: int) -> Option<i32>
    decreases codes.len() - from,
{
    if from < 0 || from >= codes.len() {
        None
    } else if codes[from].0@ == net {
        Some(codes[from].1)
    } else {
        code_of(codes, net, from + 1)
    }
}

/// The `(net CODE "NAME")` clause of a pad.
pub open spec fn net_clause(code: i32, name: Seq<char>) -> SexpView {
    SexpView::List(seq![SexpView::Symbol("net"@), SexpView::Symbol(crate::text::signed_decimal(code as int)), SexpView::Quoted(name)])
}

/// A pad of component `reference` with the net its terminal belongs to; any other item as it
/// is.
pub open spec fn with_pad_net(
    c: SexpView,
    reference: Seq<char>,
    nets: Seq<(String, String)>,
    codes: Seq<(String, i32)>,
    has_sheets: bool,
) -> SexpView {
    if symbol_head(c) == Some("pad"@) {
        match item_text(c, 1) {
            Some(number) => match first_value(nets, reference + "."@ + number, 0) {
                Some(net) => match code_of(codes, net, 0) {
                    Some(code) => match c {
                        SexpView::List(items) => SexpView::List(upserted(items, net_clause(code, schematic_net(net, has_sheets)))),
                        _ => c,
                    },
                    None => c,
                },
                None => c,
            },
            None => c,
        }
    } else {
        c
    }
}

/// What placing does to one footprint item, numbering identities from `k`: identities, the
/// pad's net, and on the back side the swapped layers; and the next free number.
pub open spec fn placed_child(
    c: SexpView,
    project: Seq<char>,
    reference: Seq<char>,
    nets: Seq<(String, String)>,
    codes: Seq<(String, i32)>,
    has_sheets: bool,
    back: bool,
    k: nat,
) -> (SexpView, nat) {
    let (c1, k1) = with_uuids(c, project, "pcb/component/"@ + reference, k);
    let c2 = with_pad_net(c1, reference, nets, codes, has_sheets);
    (if back && flips_with_board(c2) {
        layers_swapped(c2)
    } else {
        c2
    }, k1)
}

/// The first `n` items of a footprint after placing (the head kept), and the next free number.
pub open spec fn placed_children(
    items: Seq<SexpView>,
    project: Seq<char>,
    reference: Seq<char>,
    nets: Seq<(String, String)>,
    codes: Seq<(String, i32)>,
    has_sheets: bool,
    back: bool,
    n: nat,
) -> (Seq<SexpView>, nat)
    decreases n,
{
    if n == 0 || n > items.len() {
        (Seq::empty(), 0)
    } else {
        let prev = placed_children(items, project, reference, nets, codes, has_sheets, back, (n - 1) as nat);
        let i = n - 1;
        if i == 0 {
            (prev.0.push(items[0]), prev.1)
        } else {
            let c = placed_child(items[i], project, reference, nets, codes, has_sheets, back, prev.1);
            (prev.0.push(c.0), c.1)
        }
    }
}

/// The clauses a placed footprint carries before its items are placed: its library id, no
/// lock but the placement's, no version or generator clauses, its side, identity and position,
/// its printed reference and value, and datasheet and description properties.
pub open spec fn placed_items(
    items: Seq<SexpView>,
    project: Seq<char>,
    reference: Seq<char>,
    printed: Seq<char>,
    value: Seq<char>,
    locked: bool,
    back: bool,
    at: SexpView,
) -> Seq<SexpView> {
    let i1 = without_locked_atoms(items);
    let i2 = without_heads(i1, seq!["locked"@]);
    let i3 = if locked {
        i2.insert(if i2.len() < 2 { i2.len() as int } else { 2 }, SexpView::List(seq![SexpView::Symbol("locked"@), SexpView::Symbol("yes"@)]))
    } else {
        i2
    };
    let i4 = without_heads(i3, seq!["version"@, "generator"@, "generator_version"@, "embedded_fonts"@]);
    let i5 = upserted(i4, SexpView::List(seq![SexpView::Symbol("layer"@), SexpView::Quoted(if back { "B.Cu"@ } else { "F.Cu"@ })]));
    let i6 = upserted(
        i5,
        SexpView::List(seq![SexpView::Symbol("uuid"@), SexpView::Quoted(url_uuid(identity_name(project, "pcb/component/"@ + reference)))]),
    );
    let i7 = upserted(i6, at);
    let i8 = properties_set(i7, "Reference"@, printed);
    let i9 = properties_set(i8, "Value"@, if value.len() == 0 { printed } else { value });
    ensured(ensured(i9, "Datasheet"@, ""@), "Description"@, ""@)
}

/// A library footprint placed on the board (but for the mirroring of its geometry on the back
/// side, which is a matter of coordinates): see `placed_items` and `placed_child`.
pub open spec fn placed_footprint(
    footprint: SexpView,
    footprint_id: Seq<char>,
    project: Seq<char>,
    reference: Seq<char>,
    printed: Seq<char>,
    value: Seq<char>,
    locked: bool,
    back: bool,
    at: SexpView,
    nets: Seq<(String, String)>,
    codes: Seq<(String, i32)>,
    has_sheets: bool,
) -> SexpView {
    match second_quoted(footprint, footprint_id) {
        SexpView::List(items) => {
            let prepared = placed_items(items, project, reference, printed, value, locked, back, at);
            SexpView::List(placed_children(prepared, project, reference, nets, codes, has_sheets, back, prepared.len()).0)
        },
        other => other,
    }
}

} // verus!

verus! {

proof fn lemma_sexp_views_insert(s: Seq<Sexp>, i: int, x: Sexp)
    requires
        0 <= i <= s.len(),
    ensures
        sexp_views(s.insert(i, x)) == sexp_views(s).insert(i, sexp_view(x)),
{
    lemma_sexp_views_len(s);
    lemma_sexp_views_len(s.insert(i, x));
    assert forall|k: int| 0 <= k < s.len() + 1 implies sexp_views(s.insert(i, x))[k] == sexp_views(s).insert(i, sexp_view(x))[k] by {
        lemma_sexp_views_index(s.insert(i, x), k);
        if k < i {
            lemma_sexp_views_index(s, k);
        } else if k > i {
            lemma_sexp_views_index(s, k - 1);
        }
    }
    assert(sexp_views(s.insert(i, x)) =~= sexp_views(s).insert(i, sexp_view(x)));
}

/// The items without bare `locked` symbols.
fn drop_locked_atoms(items: &Vec<Sexp>) -> (r: Vec<Sexp>)
    ensures
        sexp_views(r@) == without_locked_atoms(sexp_views(items@)),
{
    proof {
        lemma_sexp_views_len(items@);
    }
    let ghost v = sexp_views(items@);
    let mut out: Vec<Sexp> = Vec::new();
    proof {
        assert(sexp_views(out@) =~= Seq::<SexpView>::empty());
    }
    let mut i: usize = 0;
    while i < items.len()
        invariant
            i <= items@.len(),
            v == sexp_views(items@),
            v.len() == items@.len(),
            sexp_views(out@) == without_locked_atoms(v.take(i as int)),
        decreases items.len() - i,
    {
        proof {
            lemma_sexp_views_index(items@, i as int);
            assert(v.take(i + 1).drop_last() =~= v.take(i as int));
        }
        let bare = match &items[i] {
            Sexp::Symbol(t) => crate::text::same_text(t.as_str(), "locked"),
            _ => false,
        };
        if !bare {
            push_node(&mut out, items[i].copy());
        }
        i += 1;
    }
    assert(v.take(items@.len() as int) =~= v);
    out
}

/// The value of the first entry with key `key`.
fn value_for(m: &Vec<(String, String)>, key: &str) -> (r: Option<String>)
    ensures
        match first_value(m@, key@, 0) {
            Some(v) => r matches Some(s) && s@ == v,
            None => r is None,
        },
{
    let mut i: usize = 0;
    while i < m.len()
        invariant
            i <= m@.len(),
            first_value(m@, key@, 0) == first_value(m@, key@, i as int),
        decreases m.len() - i,
    {
        if crate::text::same_text(m[i].0.as_str(), key) {
            return Some(m[i].1.clone());
        }
        i += 1;
    }
    None
}

/// The code of the first entry for net `net`.
fn code_for(codes: &Vec<(String, i32)>, net: &str) -> (r: Option<i32>)
    ensures
        r == code_of(codes@, net@, 0),
{
    let mut i: usize = 0;
    while i < codes.len()
        invariant
            i <= codes@.len(),
            code_of(codes@, net@, 0) == code_of(codes@, net@, i as int),
        decreases codes.len() - i,
    {
        if crate::text::same_text(codes[i].0.as_str(), net) {
            return Some(codes[i].1);
        }
        i += 1;
    }
    None
}

/// A pad with the net its terminal belongs to (see `with_pad_net`).
fn pad_with_net(
    c: Sexp,
    reference: &str,
    nets: &Vec<(String, String)>,
    codes: &Vec<(String, i32)>,
    has_sheets: bool,
) -> (r: Sexp)
    ensures
        sexp_view(r) == with_pad_net(sexp_view(c), reference@, nets@, codes@, has_sheets),
{
    if !head_is(&c, "pad") {
        return c;
    }
    let number = match crate::library::node_second(&c) {
        Some(n) => n,
        None => {
            return c;
        },
    };
    let key = crate::text::text3(reference, ".", number.as_str());
    let net = match value_for(nets, key.as_str()) {
        Some(n) => n,
        None => {
            return c;
        },
    };
    let code = match code_for(codes, net.as_str()) {
        Some(k) => k,
        None => {
            return c;
        },
    };
    let mut code_text = String::new();
    crate::text::push_signed(&mut code_text, code);
    assert(code_text@ =~= crate::text::signed_decimal(code as int));
    let clause = node3(sym("net"), Sexp::Symbol(code_text), Sexp::Quoted(crate::kicad::schematic_net_name(net.as_str(), has_sheets)));
    match c {
        Sexp::List(items) => {
            let mut items = items;
            upsert_child(&mut items, clause);
            Sexp::List(items)
        },
        other => other,
    }
}

/// One footprint item placed (see `placed_child`), numbering identities from `k`.
fn place_child(
    c: &Sexp,
    project: &str,
    reference: &str,
    nets: &Vec<(String, String)>,
    codes: &Vec<(String, i32)>,
    has_sheets: bool,
    back: bool,
    k: usize,
) -> (r: (Sexp, usize))
    requires
        with_uuids(sexp_view(*c), project@, "pcb/component/"@ + reference@, k as nat).1 <= usize::MAX,
    ensures
        (sexp_view(r.0), r.1 as nat) == placed_child(sexp_view(*c), project@, reference@, nets@, codes@, has_sheets, back, k as nat),
{
    let prefix = crate::text::text2("pcb/component/", reference);
    let (c1, k1) = uuids_added(c, project, prefix.as_str(), k);
    let c2 = pad_with_net(c1, reference, nets, codes, has_sheets);
    let flips = !head_is(&c2, "at") && !head_is(&c2, "layer");
    if back && flips {
        let mut c3 = c2;
        swap_front_back_layers(&mut c3);
        (c3, k1)
    } else {
        (c2, k1)
    }
}

proof fn lemma_placed_grows(
    items: Seq<SexpView>,
    project: Seq<char>,
    reference: Seq<char>,
    nets: Seq<(String, String)>,
    codes: Seq<(String, i32)>,
    has_sheets: bool,
    back: bool,
    m: nat,
    n: nat,
)
    requires
        m <= n <= items.len(),
    ensures
        placed_children(items, project, reference, nets, codes, has_sheets, back, m).1 <= placed_children(
            items,
            project,
            reference,
            nets,
            codes,
            has_sheets,
            back,
            n,
        ).1,
    decreases n,
{
    if m < n {
        let prev = placed_children(items, project, reference, nets, codes, has_sheets, back, (n - 1) as nat);
        if n - 1 > 0 {
            lemma_with_uuids_grows(items[n - 1], project, "pcb/component/"@ + reference, prev.1);
        }
        lemma_placed_grows(items, project, reference, nets, codes, has_sheets, back, m, (n - 1) as nat);
    }
}

/// Whether the identities of a placed footprint can all be numbered in a machine word.
pub open spec fn placement_fits(
    footprint: SexpView,
    footprint_id: Seq<char>,
    project: Seq<char>,
    reference: Seq<char>,
    printed: Seq<char>,
    value: Seq<char>,
    locked: bool,
    back: bool,
    at: SexpView,
    nets: Seq<(String, String)>,
    codes: Seq<(String, i32)>,
    has_sheets: bool,
) -> bool {
    match second_quoted(footprint, footprint_id) {
        SexpView::List(items) => {
            let prepared = placed_items(items, project, reference, printed, value, locked, back, at);
            placed_children(prepared, project, reference, nets, codes, has_sheets, back, prepared.len()).1 <= usize::MAX
        },
        _ => true,
    }
}

/// Places a library footprint on the board as component `reference` (printed as `printed`):
/// see `placed_footprint`. `at` is the footprint's position clause in board coordinates;
/// `nets` maps each terminal `REF.PAD` to its net and `codes` each net to its board net code.
/// On the back side the geometry of the items that `flips_with_board` still has to be
/// mirrored, which is a matter of coordinates.
pub fn place_footprint(
    footprint: &Sexp,
    footprint_id: &str,
    project: &str,
    reference: &str,
    printed: &str,
    value: &str,
    locked: bool,
    side: crate::model::BoardSide,
    at: Sexp,
    nets: &Vec<(String, String)>,
    codes: &Vec<(String, i32)>,
    has_sheets: bool,
) -> (r: Sexp)
    requires
        placement_fits(
            sexp_view(*footprint),
            footprint_id@,
            project@,
            reference@,
            printed@,
            value@,
            locked,
            side == crate::model::BoardSide::Back,
            sexp_view(at),
            nets@,
            codes@,
            has_sheets,
        ),
    ensures
        sexp_view(r) == placed_footprint(
            sexp_view(*footprint),
            footprint_id@,
            project@,
            reference@,
            printed@,
            value@,
            locked,
            side == crate::model::BoardSide::Back,
            sexp_view(at),
            nets@,
            codes@,
            has_sheets,
        ),
{
    let back = side == crate::model::BoardSide::Back;
    let ghost atv = sexp_view(at);
    let mut node = footprint.copy();
    set_second_quoted(&mut node, footprint_id);
    let items = match node {
        Sexp::List(items) => items,
        other => {
            return other;
        },
    };
    let ghost v0 = sexp_views(items@);
    let mut items = drop_locked_atoms(&items);
    let mut heads: Vec<String> = Vec::new();
    heads.push("locked".to_owned());
    assert(views(heads@) =~= seq!["locked"@]);
    remove_children(&mut items, &heads);
    if locked {
        proof {
            lemma_sexp_views_len(items@);
        }
        let at_index = if items.len() < 2 { items.len() } else { 2 };
        let lock = node2(sym("locked"), sym("yes"));
        proof {
            lemma_sexp_views_insert(items@, at_index as int, lock);
        }
        items.insert(at_index, lock);
    }
    let mut drop: Vec<String> = Vec::new();
    drop.push("version".to_owned());
    drop.push("generator".to_owned());
    drop.push("generator_version".to_owned());
    drop.push("embedded_fonts".to_owned());
    assert(views(drop@) =~= seq!["version"@, "generator"@, "generator_version"@, "embedded_fonts"@]);
    remove_children(&mut items, &drop);
    upsert_child(&mut items, node2(sym("layer"), quoted(if back { "B.Cu" } else { "F.Cu" })));
    let key = crate::text::text2("pcb/component/", reference);
    upsert_child(&mut items, node2(sym("uuid"), Sexp::Quoted(stable_uuid(project, key.as_str()))));
    upsert_child(&mut items, at);
    let ghost before_ref = sexp_views(items@);
    set_property(&mut items, "Reference", printed);
    assert(sexp_views(items@) =~= properties_set(before_ref, "Reference"@, printed@));
    let ghost before_value = sexp_views(items@);
    let value_chars = crate::text::chars_of(value);
    let shown = if value_chars.len() == 0 { printed } else { value };
    set_property(&mut items, "Value", shown);
    assert(sexp_views(items@) =~= properties_set(before_value, "Value"@, if value@.len() == 0 { printed@ } else { value@ }));
    ensure_footprint_property(&mut items, "Datasheet", "");
    ensure_footprint_property(&mut items, "Description", "");
    let ghost prepared = sexp_views(items@);
    assert(prepared == placed_items(v0, project@, reference@, printed@, value@, locked, back, atv));
    proof {
        lemma_sexp_views_len(items@);
        lemma_placed_grows(prepared, project@, reference@, nets@, codes@, has_sheets, back, 0, prepared.len());
    }
    let ghost total = placed_children(prepared, project@, reference@, nets@, codes@, has_sheets, back, prepared.len()).1;
    let mut out: Vec<Sexp> = Vec::new();
    proof {
        assert(sexp_views(out@) =~= Seq::<SexpView>::empty());
    }
    let mut ordinal: usize = 0;
    let mut i: usize = 0;
    while i < items.len()
        invariant
            i <= items@.len(),
            prepared == sexp_views(items@),
            prepared.len() == items@.len(),
            total == placed_children(prepared, project@, reference@, nets@, codes@, has_sheets, back, prepared.len()).1,
            total <= usize::MAX,
            (sexp_views(out@), ordinal as nat) == placed_children(prepared, project@, reference@, nets@, codes@, has_sheets, back, i as nat),
        decreases items.len() - i,
    {
        proof {
            lemma_sexp_views_index(items@, i as int);
            lemma_placed_grows(prepared, project@, reference@, nets@, codes@, has_sheets, back, (i + 1) as nat, prepared.len());
        }
        if i == 0 {
            push_node(&mut out, items[0].copy());
        } else {
            let (c, next) = place_child(&items[i], project, reference, nets, codes, has_sheets, back, ordinal);
            push_node(&mut out, c);
            ordinal = next;
        }
        i += 1;
    }
    Sexp::List(out)
}

} // verus!

verus! {

/// Whether a footprint item moves to the other side with the footprint (see
/// `flips_with_board`): on the back side its geometry is mirrored.
pub fn moves_with_footprint(n: &Sexp) -> (r: bool)
    ensures
        r == flips_with_board(sexp_view(*n)),
{
    !head_is(n, "at") && !head_is(n, "layer")
}

} // verus!
