//! Library lookups: derived symbols, unit numbers of symbol sub-units and the variables of
//! library tables.
use crate::connectivity::{
    lemma_sexp_views_index, lemma_sexp_views_len, lemma_sexp_views_push, sexp_view, sexp_views, Sexp, SexpView,
};
use crate::diagnostic::{Diagnostic, Severity};
use crate::route_workflow::{lemma_lex_antisym, lemma_lex_total, lemma_lex_trans, lex_le, lex_le_exec};
use crate::text::{chars_of, parse_u32_text, parsed_u32, push_char, same_text, string_of_range, text2, text3};
use vstd::prelude::*;
use vstd::string::StringSliceAdditionalSpecFns;

verus! {

/// Index of the last `c` in `s` before position `to`.
pub open spec fn last_index(s: Seq<char>, c: char, to: int) -> Option<int>
    decreases to,
{
    if to <= 0 || to > s.len() {
        None
    } else if s[to - 1] == c {
        Some(to - 1)
    } else {
        last_index(s, c, to - 1)
    }
}

/// The unit segment of a sub-unit symbol name `NAME_UNIT_STYLE`: the text between the last
/// two `_`, or everything before the only `_`.
pub open spec fn unit_segment(name: Seq<char>) -> Option<Seq<char>> {
    match last_index(name, '_', name.len() as int) {
        Some(k) => {
            let before = name.take(k);
            match last_index(before, '_', k) {
                Some(j) => Some(before.skip(j + 1)),
                None => Some(before),
            }
        },
        None => None,
    }
}

/// The unit number of a sub-unit symbol name such as `R_1_1`.
pub open spec fn unit_number(name: Seq<char>) -> Option<u32> {
    match unit_segment(name) {
        Some(seg) => parsed_u32(seg),
        None => None,
    }
}

fn find_last(c: &Vec<char>, x: char, to: usize) -> (r: Option<usize>)
    requires
        to <= c@.len(),
    ensures
        match r {
            Some(k) => last_index(c@, x, to as int) == Some(k as int) && k < to,
            None => last_index(c@, x, to as int) is None,
        },
{
    let mut i: usize = to;
    while i > 0
        invariant
            i <= to <= c@.len(),
            last_index(c@, x, to as int) == last_index(c@, x, i as int),
        decreases i,
    {
        if c[i - 1] == x {
            return Some(i - 1);
        }
        i -= 1;
    }
    None
}

/// The unit number of a sub-unit symbol name: the number between the last two `_`.
pub fn symbol_unit_number(name: &str) -> (r: Option<u32>)
    ensures
        r == unit_number(name@),
{
    let c = chars_of(name);
    match find_last(&c, '_', c.len()) {
        Some(k) => {
            let ghost before = c@.take(k as int);
            proof {
                assert forall|t: int| 0 <= t <= k implies last_index(before, '_', t) == last_index(c@, '_', t) by {
                    lemma_last_index_prefix(c@, k as int, t);
                }
            }
            let seg = match find_last(&c, '_', k) {
                Some(j) => {
                    let s = string_of_range(c.as_slice(), j + 1, k);
                    assert(s@ =~= before.skip(j + 1));
                    s
                },
                None => {
                    let s = string_of_range(c.as_slice(), 0, k);
                    assert(s@ =~= before);
                    s
                },
            };
            parse_u32_text(seg.as_str())
        },
        None => None,
    }
}

proof fn lemma_last_index_prefix(s: Seq<char>, k: int, t: int)
    requires
        0 <= t <= k <= s.len(),
    ensures
        last_index(s.take(k), '_', t) == last_index(s, '_', t),
    decreases t,
{
    if t > 0 {
        lemma_last_index_prefix(s, k, t - 1);
    }
}

/// `s` with each occurrence of the nonempty `pat`, scanning left to right without overlap,
/// replaced by `rep`.
pub open spec fn replace_all(s: Seq<char>, pat: Seq<char>, rep: Seq<char>) -> Seq<char>
    decreases s.len(),
{
    if pat.len() == 0 || s.len() < pat.len() {
        s
    } else if s.take(pat.len() as int) == pat {
        rep + replace_all(s.skip(pat.len() as int), pat, rep)
    } else {
        seq![s[0]] + replace_all(s.skip(1), pat, rep)
    }
}

/// The placeholder `${key}` of a library-table variable.
pub open spec fn placeholder(key: Seq<char>) -> Seq<char> {
    "${"@ + key + "}"@
}

/// `uri` with the placeholders of the first `n` variables replaced, one variable after
/// another.
pub open spec fn substituted(uri: Seq<char>, vars: Seq<(String, String)>, n: nat) -> Seq<char>
    decreases n,
{
    if n == 0 {
        uri
    } else {
        let (k, v) = vars[n - 1];
        replace_all(substituted(uri, vars, (n - 1) as nat), placeholder(k@), v@)
    }
}

fn matches_at(c: &Vec<char>, i: usize, pat: &Vec<char>) -> (r: bool)
    requires
        i + pat@.len() <= c@.len(),
    ensures
        r == (c@.skip(i as int).take(pat@.len() as int) == pat@),
{
    let n = c.len();
    let mut t: usize = 0;
    while t < pat.len()
        invariant
            n == c@.len(),
            t <= pat@.len(),
            i + pat@.len() <= c@.len(),
            forall|u: int| 0 <= u < t ==> c@[i + u] == pat@[u],
        decreases pat.len() - t,
    {
        assert(i + t < c@.len());
        if c[i + t] != pat[t] {
            assert(c@.skip(i as int).take(pat@.len() as int)[t as int] != pat@[t as int]);
            return false;
        }
        t += 1;
    }
    assert(c@.skip(i as int).take(pat@.len() as int) =~= pat@);
    true
}

/// `s` with every non-overlapping occurrence of `pat`, left to right, replaced by `rep`.
pub fn replace_text(s: &str, pat: &str, rep: &str) -> (r: String)
    requires
        pat@.len() > 0,
    ensures
        r@ == replace_all(s@, pat@, rep@),
{
    let c = chars_of(s);
    let p = chars_of(pat);
    let q = chars_of(rep);
    let mut out = String::new();
    let mut i: usize = 0;
    assert(c@.skip(0) =~= c@);
    while i < c.len()
        invariant
            i <= c@.len(),
            p@ == pat@,
            q@ == rep@,
            c@ == s@,
            p@.len() > 0,
            replace_all(s@, pat@, rep@) == out@ + replace_all(c@.skip(i as int), pat@, rep@),
        decreases c.len() - i,
    {
        let ghost rest = c@.skip(i as int);
        if c.len() - i >= p.len() && matches_at(&c, i, &p) {
            let mut t: usize = 0;
            let ghost before = out@;
            while t < q.len()
                invariant
                    t <= q@.len(),
                    out@ == before + q@.take(t as int),
                decreases q.len() - t,
            {
                push_char(&mut out, q[t]);
                t += 1;
                assert(out@ =~= before + q@.take(t as int));
            }
            assert(q@.take(q@.len() as int) =~= q@);
            assert(rest.skip(p@.len() as int) =~= c@.skip(i + p@.len()));
            assert(out@ + replace_all(c@.skip(i + p@.len()), pat@, rep@) =~= before + replace_all(rest, pat@, rep@));
            i = i + p.len();
        } else {
            let ghost before = out@;
            push_char(&mut out, c[i]);
            assert(rest.skip(1) =~= c@.skip(i + 1));
            assert(rest[0] == c@[i as int]);
            assert(out@ + replace_all(c@.skip(i + 1), pat@, rep@) =~= before + replace_all(rest, pat@, rep@));
            i = i + 1;
        }
    }
    assert(replace_all(c@.skip(i as int), pat@, rep@) =~= Seq::<char>::empty());
    assert(out@ + Seq::<char>::empty() =~= out@);
    out
}

/// A library-table URI with each `${KEY}` replaced by its variable's value, the variables
/// taken in order.
pub fn expand_variables(uri: &str, variables: &Vec<(String, String)>) -> (r: String)
    ensures
        r@ == substituted(uri@, variables@, variables@.len()),
{
    let mut value = uri.to_owned();
    let mut i: usize = 0;
    while i < variables.len()
        invariant
            i <= variables@.len(),
            value@ == substituted(uri@, variables@, i as nat),
        decreases variables.len() - i,
    {
        let (key, replacement) = &variables[i];
        let mut pat = "${".to_owned();
        pat.append(key.as_str());
        pat.append("}");
        assert(pat@ =~= placeholder(key@));
        proof {
            reveal_strlit("${");
        }
        value = replace_text(value.as_str(), pat.as_str(), replacement.as_str());
        i += 1;
    }
    value
}

} // verus!

verus! {

/// The text of an atom (symbol or quoted).
pub open spec fn atom_str(n: SexpView) -> Option<Seq<char>> {
    match n {
        SexpView::Symbol(s) => Some(s),
        SexpView::Quoted(s) => Some(s),
        SexpView::List(_) => None,
    }
}

/// The text of item `k` of a list node, if that item is an atom.
pub open spec fn item_text(n: SexpView, k: int) -> Option<Seq<char>> {
    match n {
        SexpView::List(items) => if 0 <= k < items.len() {
            atom_str(items[k])
        } else {
            None
        },
        _ => None,
    }
}

/// A list node whose second item (its name) is an atom, with that name replaced by `name`
/// as quoted text; any other node as it is.
pub open spec fn named(n: SexpView, name: Seq<char>) -> SexpView {
    match n {
        SexpView::List(items) => if items.len() > 1 && atom_str(items[1]) is Some {
            SexpView::List(items.update(1, SexpView::Quoted(name)))
        } else {
            n
        },
        _ => n,
    }
}

/// A unit sub-symbol `(symbol "BASE_u_s" ...)` of the base renamed to the derived name
/// `NAME_u_s`; any other node as it is.
pub open spec fn unit_renamed(n: SexpView, base_name: Seq<char>, name: Seq<char>) -> SexpView {
    match (item_text(n, 0), item_text(n, 1)) {
        (Some(h), Some(u)) => if h == "symbol"@ && base_name.is_prefix_of(u) {
            named(n, name + u.skip(base_name.len() as int))
        } else {
            n
        },
        _ => n,
    }
}

/// Whether `candidate` holds the slot that a derived child overrides: the property of the
/// same name for a property, else the first node with the same head.
pub open spec fn same_slot(candidate: SexpView, child: SexpView) -> bool {
    if item_text(child, 0) == Some("property"@) {
        item_text(candidate, 0) == Some("property"@) && item_text(candidate, 1) == item_text(child, 1)
    } else {
        item_text(candidate, 0) == item_text(child, 0)
    }
}

/// Index of the first item at or after `from` that holds the slot of `child`.
pub open spec fn slot_from(items: Seq<SexpView>, child: SexpView, from: int) -> Option<int>
    decreases items.len() - from,
{
    if from < 0 || from >= items.len() {
        None
    } else if same_slot(items[from], child) {
        Some(from)
    } else {
        slot_from(items, child, from + 1)
    }
}

/// `items` with `child` in place of the item holding its slot, or appended.
pub open spec fn overlaid(items: Seq<SexpView>, child: SexpView) -> Seq<SexpView> {
    match slot_from(items, child, 0) {
        Some(i) => items.update(i, child),
        None => items.push(child),
    }
}

/// `items` overlaid with each derived child in turn, but for children without a head and
/// the `extends` clause.
pub open spec fn overlay_all(items: Seq<SexpView>, children: Seq<SexpView>) -> Seq<SexpView>
    decreases children.len(),
{
    if children.len() == 0 {
        items
    } else {
        let prev = overlay_all(items, children.drop_last());
        let c = children.last();
        match item_text(c, 0) {
            Some(h) => if h == "extends"@ {
                prev
            } else {
                overlaid(prev, c)
            },
            None => prev,
        }
    }
}

/// The items of a list after its first two (head and name).
pub open spec fn body_items(items: Seq<SexpView>) -> Seq<SexpView> {
    if items.len() <= 2 {
        Seq::empty()
    } else {
        items.subrange(2, items.len() as int)
    }
}

/// The base symbol's items under the derived name: the name replaced, unit sub-symbols
/// renamed.
pub open spec fn renamed_items(items: Seq<SexpView>, base_name: Seq<char>, name: Seq<char>) -> Seq<SexpView> {
    Seq::new(
        items.len(),
        |k: int|
            if k == 1 && atom_str(items[1]) is Some {
                SexpView::Quoted(name)
            } else if k >= 2 {
                unit_renamed(items[k], base_name, name)
            } else {
                items[k]
            },
    )
}

/// A derived symbol: the base under the derived name, with every property and other clause
/// of the derived symbol overriding or extending the base's.
pub open spec fn merged_symbol(base: SexpView, derived: SexpView, base_name: Seq<char>, name: Seq<char>) -> SexpView {
    match base {
        SexpView::List(items) => {
            let renamed = renamed_items(items, base_name, name);
            match derived {
                SexpView::List(d) => SexpView::List(overlay_all(renamed, body_items(d))),
                _ => SexpView::List(renamed),
            }
        },
        _ => base,
    }
}

/// The text of an atom node.
pub fn atom_text(n: &Sexp) -> (r: Option<String>)
    ensures
        match atom_str(sexp_view(*n)) {
            Some(t) => r matches Some(s) && s@ == t,
            None => r is None,
        },
{
    match n {
        Sexp::Symbol(s) => Some(s.clone()),
        Sexp::Quoted(s) => Some(s.clone()),
        Sexp::List(_) => None,
    }
}

/// The text of item `k` of a list node.
fn item_of(n: &Sexp, k: usize) -> (r: Option<String>)
    ensures
        match item_text(sexp_view(*n), k as int) {
            Some(t) => r matches Some(s) && s@ == t,
            None => r is None,
        },
{
    match n {
        Sexp::List(items) => {
            proof {
                lemma_sexp_views_len(items@);
            }
            if k < items.len() {
                proof {
                    lemma_sexp_views_index(items@, k as int);
                }
                atom_text(&items[k])
            } else {
                None
            }
        },
        _ => None,
    }
}

proof fn lemma_sexp_views_update(s: Seq<Sexp>, i: int, x: Sexp)
    requires
        0 <= i < s.len(),
    ensures
        sexp_views(s.update(i, x)) == sexp_views(s).update(i, sexp_view(x)),
{
    lemma_sexp_views_len(s);
    lemma_sexp_views_len(s.update(i, x));
    assert forall|k: int| 0 <= k < s.len() implies sexp_views(s.update(i, x))[k] == sexp_views(s).update(i, sexp_view(x))[k] by {
        lemma_sexp_views_index(s.update(i, x), k);
        lemma_sexp_views_index(s, k);
    }
    assert(sexp_views(s.update(i, x)) =~= sexp_views(s).update(i, sexp_view(x)));
}

/// Whether `p` is a prefix of `s`.
pub(crate) fn has_prefix(s: &Vec<char>, p: &Vec<char>) -> (r: bool)
    ensures
        r == p@.is_prefix_of(s@),
{
    if p.len() > s.len() {
        return false;
    }
    let mut i: usize = 0;
    while i < p.len()
        invariant
            i <= p@.len() <= s@.len(),
            forall|k: int| 0 <= k < i ==> p@[k] == s@[k],
        decreases p.len() - i,
    {
        if p[i] != s[i] {
            assert(p@ != s@.subrange(0, p@.len() as int));
            return false;
        }
        i += 1;
    }
    assert(p@ =~= s@.subrange(0, p@.len() as int));
    true
}

/// A copy of node `n` under the name `name` (see `named`).
fn with_name(n: &Sexp, name: String) -> (r: Sexp)
    ensures
        sexp_view(r) == named(sexp_view(*n), name@),
{
    match n {
        Sexp::List(items) => {
            proof {
                lemma_sexp_views_len(items@);
                if items@.len() > 1 {
                    lemma_sexp_views_index(items@, 1);
                }
            }
            if items.len() > 1 && atom_text(&items[1]).is_some() {
                let ghost target = sexp_views(items@).update(1, SexpView::Quoted(name@));
                let mut out: Vec<Sexp> = Vec::new();
                let mut slot: Option<String> = Some(name);
                let mut k: usize = 0;
                while k < items.len()
                    invariant
                        k <= items@.len(),
                        items@.len() > 1,
                        sexp_views(items@).len() == items@.len(),
                        target == sexp_views(items@).update(1, SexpView::Quoted(name@)),
                        k <= 1 ==> slot == Some(name),
                        sexp_views(out@) == target.take(k as int),
                    decreases items.len() - k,
                {
                    proof {
                        lemma_sexp_views_index(items@, k as int);
                        assert(target.take(k + 1) =~= target.take(k as int).push(target[k as int]));
                    }
                    let x = if k == 1 {
                        let t = match slot.take() {
                            Some(t) => t,
                            None => String::new(),
                        };
                        Sexp::Quoted(t)
                    } else {
                        items[k].copy()
                    };
                    proof {
                        lemma_sexp_views_push(out@, x);
                    }
                    out.push(x);
                    k += 1;
                }
                assert(target.take(items@.len() as int) =~= target);
                Sexp::List(out)
            } else {
                n.copy()
            }
        },
        _ => n.copy(),
    }
}

/// A unit sub-symbol renamed from the base to the derived symbol (see `unit_renamed`).
fn renamed_unit(n: &Sexp, base_name: &str, name: &str) -> (r: Sexp)
    ensures
        sexp_view(r) == unit_renamed(sexp_view(*n), base_name@, name@),
{
    let h = item_of(n, 0);
    let u = item_of(n, 1);
    match (h, u) {
        (Some(h), Some(u)) => {
            let uc = chars_of(u.as_str());
            let bc = chars_of(base_name);
            if same_text(h.as_str(), "symbol") && has_prefix(&uc, &bc) {
                let suffix = string_of_range(uc.as_slice(), bc.len(), uc.len());
                assert(suffix@ =~= u@.skip(base_name@.len() as int));
                let full = text2(name, suffix.as_str());
                with_name(n, full)
            } else {
                n.copy()
            }
        },
        _ => n.copy(),
    }
}

/// Whether `candidate` holds the slot of derived child `child` (see `same_slot`).
fn holds_slot(candidate: &Sexp, child: &Sexp) -> (r: bool)
    ensures
        r == same_slot(sexp_view(*candidate), sexp_view(*child)),
{
    let ch = item_of(child, 0);
    let cd = item_of(candidate, 0);
    let child_is_property = match &ch {
        Some(t) => same_text(t.as_str(), "property"),
        None => false,
    };
    if child_is_property {
        let candidate_is_property = match &cd {
            Some(t) => same_text(t.as_str(), "property"),
            None => false,
        };
        if !candidate_is_property {
            return false;
        }
        let a = item_of(candidate, 1);
        let b = item_of(child, 1);
        match (a, b) {
            (Some(x), Some(y)) => same_text(x.as_str(), y.as_str()),
            (None, None) => true,
            _ => false,
        }
    } else {
        match (cd, ch) {
            (Some(x), Some(y)) => same_text(x.as_str(), y.as_str()),
            (None, None) => true,
            _ => false,
        }
    }
}

/// Index of the first item holding the slot of `child`.
fn slot_of(items: &Vec<Sexp>, child: &Sexp) -> (r: Option<usize>)
    ensures
        match r {
            Some(i) => slot_from(sexp_views(items@), sexp_view(*child), 0) == Some(i as int) && i < items@.len(),
            None => slot_from(sexp_views(items@), sexp_view(*child), 0) is None,
        },
{
    proof {
        lemma_sexp_views_len(items@);
    }
    let mut i: usize = 0;
    while i < items.len()
        invariant
            i <= items@.len(),
            sexp_views(items@).len() == items@.len(),
            slot_from(sexp_views(items@), sexp_view(*child), 0) == slot_from(sexp_views(items@), sexp_view(*child), i as int),
        decreases items.len() - i,
    {
        proof {
            lemma_sexp_views_index(items@, i as int);
        }
        if holds_slot(&items[i], child) {
            return Some(i);
        }
        i += 1;
    }
    None
}

/// Builds a derived symbol from its base: the base under the derived name `name` (its unit
/// sub-symbols `BASE_u_s` renamed `NAME_u_s`), with each property of the derived symbol
/// replacing the base's property of that name and each other clause (but `extends`)
/// replacing the base's first clause with that head, or else appended.
pub fn merge_derived_symbol(base: &Sexp, derived: &Sexp, base_name: &str, name: &str) -> (r: Sexp)
    ensures
        sexp_view(r) == merged_symbol(sexp_view(*base), sexp_view(*derived), base_name@, name@),
{
    match base {
        Sexp::List(items) => {
            proof {
                lemma_sexp_views_len(items@);
            }
            let ghost v = sexp_views(items@);
            let ghost renamed = renamed_items(v, base_name@, name@);
            let mut out: Vec<Sexp> = Vec::new();
            let mut k: usize = 0;
            while k < items.len()
                invariant
                    k <= items@.len(),
                    v == sexp_views(items@),
                    v.len() == items@.len(),
                    renamed == renamed_items(v, base_name@, name@),
                    sexp_views(out@) == renamed.take(k as int),
                decreases items.len() - k,
            {
                proof {
                    lemma_sexp_views_index(items@, k as int);
                    if items@.len() > 1 {
                        lemma_sexp_views_index(items@, 1);
                    }
                    assert(renamed.take(k + 1) =~= renamed.take(k as int).push(renamed[k as int]));
                }
                let x = if k == 1 && atom_text(&items[1]).is_some() {
                    Sexp::Quoted(name.to_owned())
                } else if k >= 2 {
                    renamed_unit(&items[k], base_name, name)
                } else {
                    items[k].copy()
                };
                proof {
                    lemma_sexp_views_push(out@, x);
                }
                out.push(x);
                k += 1;
            }
            assert(renamed.take(items@.len() as int) =~= renamed);
            match derived {
                Sexp::List(d) => {
                    proof {
                        lemma_sexp_views_len(d@);
                    }
                    let ghost body = body_items(sexp_views(d@));
                    let mut j: usize = 2;
                    proof {
                        assert(body.take(0) =~= Seq::<SexpView>::empty());
                    }
                    while j < d.len()
                        invariant
                            2 <= j,
                            j <= d@.len() || d@.len() <= 2,
                            sexp_views(d@).len() == d@.len(),
                            body == body_items(sexp_views(d@)),
                            d@.len() > 2 ==> sexp_views(out@) == overlay_all(renamed, body.take(j - 2)),
                            d@.len() <= 2 ==> sexp_views(out@) == renamed,
                        decreases d.len() - j,
                    {
                        proof {
                            lemma_sexp_views_index(d@, j as int);
                            assert(body.take(j - 1).drop_last() =~= body.take(j - 2));
                            assert(body.take(j - 1).last() == sexp_view(d@[j as int]));
                        }
                        let c = &d[j];
                        match item_of(c, 0) {
                            Some(h) => {
                                if !same_text(h.as_str(), "extends") {
                                    match slot_of(&out, c) {
                                        Some(i) => {
                                            let x = c.copy();
                                            proof {
                                                lemma_sexp_views_len(out@);
                                                lemma_sexp_views_update(out@, i as int, x);
                                            }
                                            out.set(i, x);
                                        },
                                        None => {
                                            let x = c.copy();
                                            proof {
                                                lemma_sexp_views_push(out@, x);
                                            }
                                            out.push(x);
                                        },
                                    }
                                }
                            },
                            None => {},
                        }
                        j += 1;
                    }
                    proof {
                        if d@.len() > 2 {
                            assert(body.take(d@.len() - 2) =~= body);
                        } else {
                            assert(body =~= Seq::<SexpView>::empty());
                        }
                    }
                    Sexp::List(out)
                },
                _ => Sexp::List(out),
            }
        },
        _ => base.copy(),
    }
}

/// The head atom of a list node.
pub fn node_head(n: &Sexp) -> (r: Option<String>)
    ensures
        match item_text(sexp_view(*n), 0) {
            Some(t) => r matches Some(s) && s@ == t,
            None => r is None,
        },
{
    item_of(n, 0)
}

/// The second item of a list node, if an atom (a clause's name or key).
pub fn node_second(n: &Sexp) -> (r: Option<String>)
    ensures
        match item_text(sexp_view(*n), 1) {
            Some(t) => r matches Some(s) && s@ == t,
            None => r is None,
        },
{
    item_of(n, 1)
}

/// The third item of a list node, if an atom (a property's value).
pub fn node_third(n: &Sexp) -> (r: Option<String>)
    ensures
        match item_text(sexp_view(*n), 2) {
            Some(t) => r matches Some(s) && s@ == t,
            None => r is None,
        },
{
    item_of(n, 2)
}

/// Renames a list node: its second item, if an atom, becomes the quoted `value`.
pub fn set_node_name(node: &mut Sexp, value: &str)
    ensures
        sexp_view(*final(node)) == named(sexp_view(*old(node)), value@),
{
    let renamed = with_name(node, value.to_owned());
    *node = renamed;
}

/// Whether a node is `(symbol "name" ...)`: a list headed by the symbol `symbol` whose second
/// item is the quoted `name`.
pub open spec fn is_symbol_named(n: SexpView, name: Seq<char>) -> bool {
    match n {
        SexpView::List(items) => items.len() > 1 && items[0] == SexpView::Symbol("symbol"@) && items[1]
            == SexpView::Quoted(name),
        _ => false,
    }
}

/// Index of the first of `items` at or after `from` that is the symbol `name`.
pub open spec fn symbol_from(items: Seq<SexpView>, name: Seq<char>, from: int) -> Option<int>
    decreases items.len() - from,
{
    if from < 0 || from >= items.len() {
        None
    } else if is_symbol_named(items[from], name) {
        Some(from)
    } else {
        symbol_from(items, name, from + 1)
    }
}

/// The definition of symbol `name` in the nodes of a symbol library (see
/// `find_named_symbol_node`).
pub open spec fn named_symbol(nodes: Seq<Sexp>, name: Seq<char>) -> Option<SexpView> {
    if nodes.len() == 0 {
        None
    } else {
        match sexp_view(nodes[0]) {
            SexpView::List(items) => match symbol_from(items, name, 0) {
                Some(i) => Some(items[i]),
                None => None,
            },
            _ => None,
        }
    }
}

/// Whether a node is the symbol atom `text`.
fn is_symbol_atom(n: &Sexp, text: &str) -> (r: bool)
    ensures
        r == (sexp_view(*n) == SexpView::Symbol(text@)),
{
    match n {
        Sexp::Symbol(s) => same_text(s.as_str(), text),
        _ => false,
    }
}

/// Whether a node is the quoted atom `text`.
fn is_quoted_atom(n: &Sexp, text: &str) -> (r: bool)
    ensures
        r == (sexp_view(*n) == SexpView::Quoted(text@)),
{
    match n {
        Sexp::Quoted(s) => same_text(s.as_str(), text),
        _ => false,
    }
}

/// The definition of symbol `name` in a symbol library: the first `(symbol "name" ...)`
/// among the items of the library's first node.
pub fn find_named_symbol_node<'a>(nodes: &'a Vec<Sexp>, name: &str) -> (r: Option<&'a Sexp>)
    ensures
        match r {
            Some(n) => named_symbol(nodes@, name@) == Some(sexp_view(*n)),
            None => named_symbol(nodes@, name@) is None,
        },
{
    if nodes.len() == 0 {
        return None;
    }
    match &nodes[0] {
        Sexp::List(items) => {
            proof {
                lemma_sexp_views_len(items@);
            }
            let ghost v = sexp_views(items@);
            let mut i: usize = 0;
            while i < items.len()
                invariant
                    i <= items@.len(),
                    nodes@.len() > 0,
                    nodes@[0] == Sexp::List(*items),
                    v == sexp_views(items@),
                    v.len() == items@.len(),
                    symbol_from(v, name@, 0) == symbol_from(v, name@, i as int),
                decreases items.len() - i,
            {
                proof {
                    lemma_sexp_views_index(items@, i as int);
                }
                match &items[i] {
                    Sexp::List(sub) => {
                        proof {
                            lemma_sexp_views_len(sub@);
                            if sub@.len() > 1 {
                                lemma_sexp_views_index(sub@, 0);
                                lemma_sexp_views_index(sub@, 1);
                            }
                        }
                        if sub.len() > 1 && is_symbol_atom(&sub[0], "symbol") && is_quoted_atom(&sub[1], name) {
                            return Some(&items[i]);
                        }
                    },
                    _ => {},
                }
                i += 1;
            }
            None
        },
        _ => None,
    }
}

/// The key and value of a property clause `(property KEY VALUE ...)`.
pub open spec fn property_of(n: SexpView) -> Option<(Seq<char>, Seq<char>)> {
    if item_text(n, 0) == Some("property"@) {
        match (item_text(n, 1), item_text(n, 2)) {
            (Some(k), Some(v)) => Some((k, v)),
            _ => None,
        }
    } else {
        None
    }
}

/// The value of the last property `key` among `items`.
pub open spec fn property_value(items: Seq<SexpView>, key: Seq<char>) -> Option<Seq<char>>
    decreases items.len(),
{
    if items.len() == 0 {
        None
    } else {
        match property_of(items.last()) {
            Some(p) => if p.0 == key {
                Some(p.1)
            } else {
                property_value(items.drop_last(), key)
            },
            None => property_value(items.drop_last(), key),
        }
    }
}

/// The value of property `key` of a symbol node: that of its last property clause `key`.
pub open spec fn symbol_property(n: SexpView, key: Seq<char>) -> Option<Seq<char>> {
    match n {
        SexpView::List(items) => property_value(items, key),
        _ => None,
    }
}

/// Whether the keys of `r` are strictly ascending.
pub open spec fn keys_ascending(r: Seq<(String, String)>) -> bool {
    forall|i: int, j: int| 0 <= i < j < r.len() ==> lex_le(#[trigger] r[i].0@, #[trigger] r[j].0@) && r[i].0@ != r[j].0@
}

/// Index of the entry with key `key`.
fn key_position(r: &Vec<(String, String)>, key: &String) -> (p: Option<usize>)
    ensures
        match p {
            Some(i) => i < r@.len() && r@[i as int].0@ == key@,
            None => forall|i: int| 0 <= i < r@.len() ==> r@[i].0@ != key@,
        },
{
    let mut i: usize = 0;
    while i < r.len()
        invariant
            i <= r@.len(),
            forall|k: int| 0 <= k < i ==> r@[k].0@ != key@,
        decreases r.len() - i,
    {
        if same_text(r[i].0.as_str(), key.as_str()) {
            return Some(i);
        }
        i += 1;
    }
    None
}

/// The properties of a symbol node, one entry per key in ascending key order, each with
/// the value of the last property clause of that key.
pub fn symbol_properties(node: &Sexp) -> (r: Vec<(String, String)>)
    ensures
        keys_ascending(r@),
        forall|i: int| 0 <= i < r@.len() ==> symbol_property(sexp_view(*node), #[trigger] r@[i].0@) == Some(r@[i].1@),
        forall|key: Seq<char>|
            #[trigger] symbol_property(sexp_view(*node), key) is Some ==> exists|i: int| 0 <= i < r@.len() && r@[i].0@ == key,
{
    let mut r: Vec<(String, String)> = Vec::new();
    match node {
        Sexp::List(items) => {
            proof {
                lemma_sexp_views_len(items@);
            }
            let ghost v = sexp_views(items@);
            let mut k: usize = 0;
            while k < items.len()
                invariant
                    k <= items@.len(),
                    v == sexp_views(items@),
                    v.len() == items@.len(),
                    keys_ascending(r@),
                    forall|i: int| 0 <= i < r@.len() ==> property_value(v.take(k as int), #[trigger] r@[i].0@) == Some(r@[i].1@),
                    forall|key: Seq<char>|
                        #[trigger] property_value(v.take(k as int), key) is Some ==> exists|i: int| 0 <= i < r@.len() && r@[i].0@ == key,
                decreases items.len() - k,
            {
                proof {
                    lemma_sexp_views_index(items@, k as int);
                    assert(v.take(k + 1).drop_last() =~= v.take(k as int));
                    assert(v.take(k + 1).last() == v[k as int]);
                }
                let c = &items[k];
                let h = node_head(c);
                let key = node_second(c);
                let value = node_third(c);
                let is_property = match &h {
                    Some(t) => same_text(t.as_str(), "property"),
                    None => false,
                };
                let ghost before = r@;
                if is_property && key.is_some() && value.is_some() {
                    let key = key.unwrap();
                    let value = value.unwrap();
                    assert(property_of(v[k as int]) == Some((key@, value@)));
                    match key_position(&r, &key) {
                        Some(e) => {
                            r.set(e, (key, value));
                            proof {
                                assert forall|i: int, j: int| 0 <= i < j < r@.len() implies lex_le(#[trigger] r@[i].0@, #[trigger] r@[j].0@)
                                    && r@[i].0@ != r@[j].0@ by {
                                    assert(r@[i].0@ == before[i].0@);
                                    assert(r@[j].0@ == before[j].0@);
                                }
                                assert forall|i: int| 0 <= i < r@.len() implies property_value(v.take(k + 1), #[trigger] r@[i].0@) == Some(r@[i].1@) by {
                                    if i != e {
                                        assert(r@[i] == before[i]);
                                    }
                                }
                                assert forall|kk: Seq<char>| #[trigger] property_value(v.take(k + 1), kk) is Some implies exists|i: int|
                                    0 <= i < r@.len() && r@[i].0@ == kk by {
                                    if kk == key@ {
                                        assert(r@[e as int].0@ == kk);
                                    } else {
                                        assert(property_value(v.take(k as int), kk) is Some);
                                        let i = choose|i: int| 0 <= i < before.len() && before[i].0@ == kk;
                                        assert(r@[i].0@ == kk);
                                    }
                                }
                            }
                        },
                        None => {
                            let mut p: usize = 0;
                            while p < r.len() && !lex_le_exec(&key, &r[p].0)
                                invariant
                                    p <= r@.len(),
                                    r@ == before,
                                    forall|q: int| 0 <= q < p ==> !lex_le(key@, #[trigger] r@[q].0@),
                                decreases r.len() - p,
                            {
                                p += 1;
                            }
                            r.insert(p, (key, value));
                            proof {
                                assert forall|q: int| 0 <= q < p implies lex_le(#[trigger] before[q].0@, key@) && before[q].0@ != key@ by {
                                    lemma_lex_total(key@, before[q].0@);
                                }
                                assert forall|q: int| p <= q < before.len() implies lex_le(key@, #[trigger] before[q].0@) && before[q].0@ != key@ by {
                                    if q > p {
                                        lemma_lex_trans(key@, before[p as int].0@, before[q].0@);
                                    }
                                }
                                assert forall|i: int, j: int| 0 <= i < j < r@.len() implies lex_le(#[trigger] r@[i].0@, #[trigger] r@[j].0@)
                                    && r@[i].0@ != r@[j].0@ by {
                                    if j < p {
                                        assert(r@[i] == before[i] && r@[j] == before[j]);
                                    } else if j == p {
                                        assert(r@[i] == before[i]);
                                    } else if i < p {
                                        assert(r@[i] == before[i] && r@[j] == before[j - 1]);
                                        lemma_lex_trans(before[i].0@, key@, before[j - 1].0@);
                                        if before[i].0@ == before[j - 1].0@ {
                                            lemma_lex_antisym(key@, before[i].0@);
                                        }
                                    } else if i == p {
                                        assert(r@[j] == before[j - 1]);
                                    } else {
                                        assert(r@[i] == before[i - 1] && r@[j] == before[j - 1]);
                                    }
                                }
                                assert forall|i: int| 0 <= i < r@.len() implies property_value(v.take(k + 1), #[trigger] r@[i].0@) == Some(r@[i].1@) by {
                                    if i < p {
                                        assert(r@[i] == before[i]);
                                    } else if i > p {
                                        assert(r@[i] == before[i - 1]);
                                    }
                                }
                                assert forall|kk: Seq<char>| #[trigger] property_value(v.take(k + 1), kk) is Some implies exists|i: int|
                                    0 <= i < r@.len() && r@[i].0@ == kk by {
                                    if kk == key@ {
                                        assert(r@[p as int].0@ == kk);
                                    } else {
                                        assert(property_value(v.take(k as int), kk) is Some);
                                        let i = choose|i: int| 0 <= i < before.len() && before[i].0@ == kk;
                                        if i < p {
                                            assert(r@[i].0@ == kk);
                                        } else {
                                            assert(r@[i + 1].0@ == kk);
                                        }
                                    }
                                }
                            }
                        },
                    }
                } else {
                    proof {
                        assert(property_of(v[k as int]) is None);
                        assert forall|kk: Seq<char>| #[trigger] property_value(v.take(k + 1), kk) is Some implies exists|i: int|
                            0 <= i < r@.len() && r@[i].0@ == kk by {
                            assert(property_value(v.take(k as int), kk) is Some);
                        }
                    }
                }
                k += 1;
            }
            assert(v.take(items@.len() as int) =~= v);
        },
        _ => {},
    }
    r
}

/// What a symbol library declares of one symbol: its name and the symbol it extends.
#[derive(Debug)]
pub struct LibrarySymbol {
    pub name: Option<String>,
    pub extends: Option<String>,
}

/// A symbol resolved through its chain of bases: its merged definition, the bases it derives
/// from (nearest first), and the position of the base symbol whose pins it has.
#[derive(Debug)]
pub struct ResolvedSymbol {
    pub node: Sexp,
    pub derived_from: Vec<String>,
    pub base: usize,
}

/// Why a library asset cannot be loaded.
#[derive(Debug, PartialEq, Eq)]
pub struct AssetError {
    pub code: String,
    pub message: String,
}

/// The names of a library's symbols.
pub open spec fn symbol_names(symbols: Seq<LibrarySymbol>) -> Seq<Option<Seq<char>>> {
    symbols.map_values(
        |s: LibrarySymbol|
            match s.name {
                Some(n) => Some(n@),
                None => None,
            },
    )
}

/// How many of `names` are not on the stack.
pub open spec fn unvisited(names: Seq<Option<Seq<char>>>, stack: Seq<Seq<char>>) -> nat
    decreases names.len(),
{
    if names.len() == 0 {
        0
    } else {
        unvisited(names.drop_last(), stack) + match names.last() {
            Some(n) => if stack.contains(n) {
                0nat
            } else {
                1nat
            },
            None => 0nat,
        }
    }
}

pub proof fn lemma_unvisited_le(names: Seq<Option<Seq<char>>>, stack: Seq<Seq<char>>, entry: Seq<char>)
    ensures
        unvisited(names, stack.push(entry)) <= unvisited(names, stack),
    decreases names.len(),
{
    if names.len() > 0 {
        lemma_unvisited_le(names.drop_last(), stack, entry);
        if let Some(n) = names.last() {
            if stack.contains(n) {
                let k = choose|k: int| 0 <= k < stack.len() && stack[k] == n;
                assert(stack.push(entry)[k] == n);
            }
        }
    }
}

pub proof fn lemma_unvisited_push(names: Seq<Option<Seq<char>>>, stack: Seq<Seq<char>>, entry: Seq<char>, i: int)
    requires
        0 <= i < names.len(),
        names[i] == Some(entry),
        !stack.contains(entry),
    ensures
        unvisited(names, stack.push(entry)) < unvisited(names, stack),
    decreases names.len(),
{
    assert(stack.push(entry)[stack.len() as int] == entry);
    if i == names.len() - 1 {
        lemma_unvisited_le(names.drop_last(), stack, entry);
    } else {
        lemma_unvisited_push(names.drop_last(), stack, entry, i);
        if let Some(n) = names.last() {
            if stack.contains(n) {
                let k = choose|k: int| 0 <= k < stack.len() && stack[k] == n;
                assert(stack.push(entry)[k] == n);
            }
        }
    }
}

/// Index of the first symbol named `name` at or after `from`.
pub open spec fn symbol_index(symbols: Seq<LibrarySymbol>, name: Seq<char>, from: int) -> Option<int>
    decreases symbols.len() - from,
{
    if from < 0 || from >= symbols.len() {
        None
    } else if symbols[from].name matches Some(n) && n@ == name {
        Some(from)
    } else {
        symbol_index(symbols, name, from + 1)
    }
}

/// The texts of `s` separated by `sep`.
pub open spec fn joined_with(s: Seq<Seq<char>>, sep: Seq<char>) -> Seq<char>
    decreases s.len(),
{
    if s.len() == 0 {
        Seq::empty()
    } else if s.len() == 1 {
        s[0]
    } else {
        joined_with(s.drop_last(), sep) + sep + s.last()
    }
}

/// How symbol `entry` (requested as `id`) resolves, reached through the derived symbols on
/// `stack`: an error code and message, or its merged definition, its bases nearest first and
/// the index of the base symbol.
pub open spec fn resolved_symbol(
    symbols: Seq<LibrarySymbol>,
    nodes: Seq<Sexp>,
    entry: Seq<char>,
    id: Seq<char>,
    stack: Seq<Seq<char>>,
) -> Result<(SexpView, Seq<Seq<char>>, int), (Seq<char>, Seq<char>)>
    decreases unvisited(symbol_names(symbols), stack),
{
    if stack.contains(entry) {
        Err(("LIB007"@, "derived symbol cycle in '"@ + id + "': "@ + joined_with(stack.push(entry), " -> "@)))
    } else {
        match symbol_index(symbols, entry, 0) {
            None => Err(("LIB001"@, "symbol '"@ + id + "' is absent from its library"@)),
            Some(i) => match named_symbol(nodes, entry) {
                None => Err(("LIB006"@, "cannot extract symbol '"@ + id + "'"@)),
                Some(node) => match symbols[i].extends {
                    Some(base) => {
                        proof {
                            lemma_symbol_index(symbols, entry, 0);
                            lemma_unvisited_push(symbol_names(symbols), stack, entry, i);
                        }
                        match resolved_symbol(symbols, nodes, base@, id, stack.push(entry)) {
                            Ok(r) => Ok((merged_symbol(r.0, node, base@, entry), seq![base@] + r.1, r.2)),
                            Err(e) => Err(e),
                        }
                    },
                    None => Ok((node, Seq::empty(), i)),
                },
            },
        }
    }
}

pub proof fn lemma_symbol_index(symbols: Seq<LibrarySymbol>, name: Seq<char>, from: int)
    ensures
        symbol_index(symbols, name, from) matches Some(i) ==> from <= i < symbols.len() && symbol_names(symbols)[i] == Some(
            name,
        ),
    decreases symbols.len() - from,
{
    if 0 <= from < symbols.len() {
        lemma_symbol_index(symbols, name, from + 1);
    }
}

/// The texts of a list joined by ` -> `, followed by `last`.
fn chain_text(stack: &Vec<String>, last: &str) -> (r: String)
    ensures
        r@ == joined_with(crate::text::views(stack@).push(last@), " -> "@),
{
    let ghost all = crate::text::views(stack@).push(last@);
    let mut r = String::new();
    let mut i: usize = 0;
    while i < stack.len()
        invariant
            i <= stack@.len(),
            all == crate::text::views(stack@).push(last@),
            r@ == joined_with(all.take(i as int), " -> "@),
        decreases stack.len() - i,
    {
        assert(all.take(i + 1).drop_last() =~= all.take(i as int));
        if i > 0 {
            r.append(" -> ");
        }
        r.append(stack[i].as_str());
        i += 1;
    }
    assert(all.take(stack@.len() as int + 1).drop_last() =~= all.take(stack@.len() as int));
    assert(all.take(stack@.len() as int + 1) =~= all);
    if stack.len() > 0 {
        r.append(" -> ");
    }
    r.append(last);
    r
}

/// Resolves symbol `entry` of a library (requested as `id`), reached through the derived
/// symbols on `stack`: a derived symbol is its base resolved first, then merged with the
/// derived definition. Fails with LIB007 on a cycle of derivations, LIB001 for a symbol the
/// library does not declare and LIB006 for one whose definition cannot be found.
pub fn resolve_symbol(
    symbols: &Vec<LibrarySymbol>,
    nodes: &Vec<Sexp>,
    entry: &str,
    id: &str,
    stack: &Vec<String>,
) -> (r: Result<ResolvedSymbol, AssetError>)
    ensures
        match (r, resolved_symbol(symbols@, nodes@, entry@, id@, crate::text::views(stack@))) {
            (Ok(a), Ok(b)) => sexp_view(a.node) == b.0 && crate::text::views(a.derived_from@) == b.1 && a.base == b.2,
            (Err(a), Err(b)) => a.code@ == b.0 && a.message@ == b.1,
            _ => false,
        },
    decreases unvisited(symbol_names(symbols@), crate::text::views(stack@)),
{
    let ghost sv = crate::text::views(stack@);
    let mut k: usize = 0;
    while k < stack.len()
        invariant
            k <= stack@.len(),
            sv == crate::text::views(stack@),
            forall|q: int| 0 <= q < k ==> sv[q] != entry@,
        decreases stack.len() - k,
    {
        if same_text(stack[k].as_str(), entry) {
            assert(sv[k as int] == entry@);
            let message = crate::text::text4("derived symbol cycle in '", id, "': ", chain_text(stack, entry).as_str());
            return Err(AssetError { code: "LIB007".to_owned(), message });
        }
        k += 1;
    }
    assert(!sv.contains(entry@));
    let mut i: usize = 0;
    while i < symbols.len()
        invariant
            i <= symbols@.len(),
            symbol_index(symbols@, entry@, 0) == symbol_index(symbols@, entry@, i as int),
        ensures
            i <= symbols@.len(),
            symbol_index(symbols@, entry@, 0) == symbol_index(symbols@, entry@, i as int),
            i < symbols@.len() ==> (symbols@[i as int].name matches Some(n) && n@ == entry@),
        decreases symbols.len() - i,
    {
        let found = match &symbols[i].name {
            Some(n) => same_text(n.as_str(), entry),
            None => false,
        };
        if found {
            break;
        }
        i += 1;
    }
    if i == symbols.len() {
        return Err(AssetError { code: "LIB001".to_owned(), message: text3("symbol '", id, "' is absent from its library") });
    }
    assert(symbol_index(symbols@, entry@, 0) == Some(i as int));
    let node = match find_named_symbol_node(nodes, entry) {
        Some(n) => n,
        None => {
            return Err(AssetError { code: "LIB006".to_owned(), message: text3("cannot extract symbol '", id, "'") });
        },
    };
    match &symbols[i].extends {
        Some(base) => {
            let mut next: Vec<String> = Vec::new();
            let mut q: usize = 0;
            while q < stack.len()
                invariant
                    q <= stack@.len(),
                    crate::text::views(next@) == sv.take(q as int),
                    sv == crate::text::views(stack@),
                decreases stack.len() - q,
            {
                let ghost before = next@;
                next.push(stack[q].clone());
                proof {
                    crate::text::lemma_views_push(before, stack@[q as int]);
                    assert(sv.take(q + 1) =~= sv.take(q as int).push(stack@[q as int]@));
                }
                q += 1;
            }
            let ghost before = next@;
            next.push(entry.to_owned());
            proof {
                crate::text::lemma_views_push(before, next@.last());
                assert(sv.take(stack@.len() as int) =~= sv);
                assert(crate::text::views(next@) == sv.push(entry@));
                lemma_symbol_index(symbols@, entry@, 0);
                lemma_unvisited_push(symbol_names(symbols@), sv, entry@, i as int);
            }
            match resolve_symbol(symbols, nodes, base.as_str(), id, &next) {
                Ok(asset) => {
                    let merged = merge_derived_symbol(&asset.node, node, base.as_str(), entry);
                    let mut derived_from: Vec<String> = Vec::new();
                    derived_from.push(base.clone());
                    let mut t: usize = 0;
                    while t < asset.derived_from.len()
                        invariant
                            t <= asset.derived_from@.len(),
                            crate::text::views(derived_from@) == seq![base@] + crate::text::views(asset.derived_from@).take(t as int),
                        decreases asset.derived_from.len() - t,
                    {
                        let ghost b2 = derived_from@;
                        derived_from.push(asset.derived_from[t].clone());
                        proof {
                            crate::text::lemma_views_push(b2, asset.derived_from@[t as int]);
                            assert(crate::text::views(asset.derived_from@).take(t + 1) =~= crate::text::views(asset.derived_from@).take(t as int).push(asset.derived_from@[t as int]@));
                        }
                        t += 1;
                    }
                    assert(crate::text::views(asset.derived_from@).take(asset.derived_from@.len() as int) =~= crate::text::views(asset.derived_from@));
                    Ok(ResolvedSymbol { node: merged, derived_from, base: asset.base })
                },
                Err(e) => Err(e),
            }
        },
        None => Ok(ResolvedSymbol { node: node.copy(), derived_from: Vec::new(), base: i }),
    }
}

} // verus!

verus! {

/// The plain value of what loading an asset gave: its pin or pad numbers, or the error's code
/// and message.
pub open spec fn loaded_view(r: Result<Vec<String>, AssetError>) -> Result<Seq<Seq<char>>, (Seq<char>, Seq<char>)> {
    match r {
        Ok(v) => Ok(crate::text::views(v@)),
        Err(e) => Err((e.code@, e.message@)),
    }
}

/// Index of the first loaded asset with id `id` at or after `from`.
pub open spec fn asset_slot(assets: Seq<(String, Result<Vec<String>, AssetError>)>, id: Seq<char>, from: int) -> Option<int>
    decreases assets.len() - from,
{
    if from < 0 || from >= assets.len() {
        None
    } else if assets[from].0@ == id {
        Some(from)
    } else {
        asset_slot(assets, id, from + 1)
    }
}

/// What loading asset `id` gave, when it was loaded.
pub open spec fn loaded(assets: Seq<(String, Result<Vec<String>, AssetError>)>, id: Seq<char>) -> Option<
    Result<Seq<Seq<char>>, (Seq<char>, Seq<char>)>,
> {
    match asset_slot(assets, id, 0) {
        Some(i) => Some(loaded_view(assets[i].1)),
        None => None,
    }
}

/// The pins, in order, that no pad carries.
pub open spec fn missing_pads(pins: Seq<Seq<char>>, pads: Seq<Seq<char>>) -> Seq<Seq<char>>
    decreases pins.len(),
{
    if pins.len() == 0 {
        Seq::empty()
    } else {
        missing_pads(pins.drop_last(), pads) + if pads.contains(pins.last()) {
            Seq::<Seq<char>>::empty()
        } else {
            seq![pins.last()]
        }
    }
}

/// Texts separated by `, `.
pub open spec fn comma_list(s: Seq<Seq<char>>) -> Seq<char>
    decreases s.len(),
{
    if s.len() == 0 {
        Seq::empty()
    } else if s.len() == 1 {
        s[0]
    } else {
        comma_list(s.drop_last()) + ", "@ + s.last()
    }
}

/// The finding about component `c` (reference, symbol id, footprint id), if any: the error of
/// loading its symbol, else that of loading its footprint, else LIB003 naming, in ascending
/// order, the symbol's pin numbers that no pad of the footprint carries.
pub open spec fn asset_issue(
    c: (String, String, String),
    symbols: Seq<(String, Result<Vec<String>, AssetError>)>,
    footprints: Seq<(String, Result<Vec<String>, AssetError>)>,
) -> Option<crate::validate::Issue> {
    let sp = "/components/"@ + c.0@ + "/symbol"@;
    let fp = "/components/"@ + c.0@ + "/footprint"@;
    match loaded(symbols, c.1@) {
        Some(Err(e)) => Some(crate::validate::error(e.0, e.1, sp)),
        Some(Ok(pins)) => match loaded(footprints, c.2@) {
            Some(Err(e)) => Some(crate::validate::error(e.0, e.1, fp)),
            Some(Ok(pads)) => {
                let missing = missing_pads(crate::connectivity::sorted_set(pins), pads);
                if missing.len() > 0 {
                    Some(
                        crate::validate::error(
                            "LIB003"@,
                            "footprint '"@ + c.2@ + "' lacks symbol pads: "@ + comma_list(missing),
                            fp,
                        ),
                    )
                } else {
                    None
                }
            },
            None => None,
        },
        None => None,
    }
}

/// The findings about the first `k` components, in order.
pub open spec fn asset_issues(
    cs: Seq<(String, String, String)>,
    symbols: Seq<(String, Result<Vec<String>, AssetError>)>,
    footprints: Seq<(String, Result<Vec<String>, AssetError>)>,
    k: nat,
) -> Seq<crate::validate::Issue>
    decreases k,
{
    if k == 0 || k > cs.len() {
        Seq::empty()
    } else {
        asset_issues(cs, symbols, footprints, (k - 1) as nat) + match asset_issue(cs[k - 1], symbols, footprints) {
            Some(i) => seq![i],
            None => Seq::empty(),
        }
    }
}

/// The indices among the first `k` components whose assets resolve, in order.
pub open spec fn resolved_upto(
    cs: Seq<(String, String, String)>,
    symbols: Seq<(String, Result<Vec<String>, AssetError>)>,
    footprints: Seq<(String, Result<Vec<String>, AssetError>)>,
    k: nat,
) -> Seq<usize>
    decreases k,
{
    if k == 0 || k > cs.len() {
        Seq::empty()
    } else {
        resolved_upto(cs, symbols, footprints, (k - 1) as nat) + if asset_issue(cs[k - 1], symbols, footprints) is None {
            seq![(k - 1) as usize]
        } else {
            Seq::empty()
        }
    }
}

} // verus!

verus! {

fn find_loaded(assets: &Vec<(String, Result<Vec<String>, AssetError>)>, id: &str) -> (r: Option<usize>)
    ensures
        match r {
            Some(i) => asset_slot(assets@, id@, 0) == Some(i as int) && i < assets@.len(),
            None => asset_slot(assets@, id@, 0) is None,
        },
{
    let mut i: usize = 0;
    while i < assets.len()
        invariant
            i <= assets@.len(),
            asset_slot(assets@, id@, 0) == asset_slot(assets@, id@, i as int),
        decreases assets.len() - i,
    {
        if same_text(assets[i].0.as_str(), id) {
            return Some(i);
        }
        i += 1;
    }
    None
}

/// The pins of `pins`, distinct and ascending, that no pad carries.
fn missing_pad_list(pins: &Vec<String>, pads: &Vec<String>) -> (r: Vec<String>)
    ensures
        crate::text::views(r@) == missing_pads(crate::connectivity::sorted_set(crate::text::views(pins@)), crate::text::views(pads@)),
{
    let ghost pv = crate::text::views(pins@);
    let mut set: Vec<String> = Vec::new();
    let mut i: usize = 0;
    assert(pv.take(0) =~= Seq::<Seq<char>>::empty());
    while i < pins.len()
        invariant
            i <= pins@.len(),
            pv == crate::text::views(pins@),
            crate::text::views(set@) == crate::connectivity::sorted_set(pv.take(i as int)),
        decreases pins.len() - i,
    {
        set = crate::connectivity::insert_unique_exec(set, pins[i].clone());
        assert(pv.take(i + 1).drop_last() =~= pv.take(i as int));
        i += 1;
    }
    assert(pv.take(pins@.len() as int) =~= pv);
    let ghost sv = crate::text::views(set@);
    let mut out: Vec<String> = Vec::new();
    let mut k: usize = 0;
    assert(sv.take(0) =~= Seq::<Seq<char>>::empty());
    while k < set.len()
        invariant
            k <= set@.len(),
            sv == crate::text::views(set@),
            crate::text::views(out@) == missing_pads(sv.take(k as int), crate::text::views(pads@)),
        decreases set.len() - k,
    {
        assert(sv.take(k + 1).drop_last() =~= sv.take(k as int));
        assert(sv.take(k + 1).last() == set@[k as int]@);
        if !crate::rules::contains_string(pads, set[k].as_str()) {
            let ghost before = out@;
            out.push(set[k].clone());
            proof {
                crate::text::lemma_views_push(before, out@.last());
            }
        } else {
            assert(missing_pads(sv.take(k + 1), crate::text::views(pads@)) =~= missing_pads(sv.take(k as int), crate::text::views(pads@)));
        }
        k += 1;
    }
    assert(sv.take(set@.len() as int) =~= sv);
    out
}

/// Texts separated by `, `.
fn comma_text(s: &Vec<String>) -> (r: String)
    ensures
        r@ == comma_list(crate::text::views(s@)),
{
    let ghost sv = crate::text::views(s@);
    let mut out = String::new();
    let mut i: usize = 0;
    while i < s.len()
        invariant
            i <= s@.len(),
            sv == crate::text::views(s@),
            out@ == comma_list(sv.take(i as int)),
        decreases s.len() - i,
    {
        if i > 0 {
            out.append(", ");
        }
        out.append(s[i].as_str());
        assert(sv.take(i + 1).drop_last() =~= sv.take(i as int));
        assert(out@ =~= comma_list(sv.take(i + 1)));
        i += 1;
    }
    assert(sv.take(s@.len() as int) =~= sv);
    out
}

} // verus!

verus! {

/// What checking the loaded assets of a design gave: the indices of the components whose
/// symbol and footprint resolve, whether the power flag symbol resolved, and the errors.
#[derive(Debug)]
pub struct AssetCheck {
    pub resolved: Vec<usize>,
    pub power_flag: bool,
    pub diagnostics: Vec<Diagnostic>,
}

/// Whether `d` is the error of a power flag symbol that failed to load with `e`.
pub open spec fn reports_power_flag(d: Diagnostic, e: (Seq<char>, Seq<char>), file: Seq<char>) -> bool {
    &&& d.severity == Severity::Error
    &&& d.code@ == e.0
    &&& d.message@ == e.1
    &&& d.file@ == file
    &&& d.path matches Some(p) && p@ == "/circuit/power_sources"@
    &&& d.span is None
    &&& d.help is None
    &&& d.related@.len() == 0
}

/// Checks the library assets of each component (reference, symbol id, footprint id) of the
/// document `source` of `file`, given what loading each distinct symbol and footprint gave
/// (pin or pad numbers, or the error) and, when the design has power sources, what loading
/// the power flag symbol gave. A component resolves unless its symbol or footprint failed to
/// load or its footprint lacks a pad for one of the symbol's pins; each failure is reported at
/// the component's symbol or footprint. A power flag that failed to load is reported last.
pub fn check_assets(
    components: &Vec<(String, String, String)>,
    symbols: &Vec<(String, Result<Vec<String>, AssetError>)>,
    footprints: &Vec<(String, Result<Vec<String>, AssetError>)>,
    power_flag: &Option<Result<Vec<String>, AssetError>>,
    file: &str,
    source: &str,
) -> (r: AssetCheck)
    requires
        source.spec_bytes().len() < usize::MAX,
        forall|k: int| 0 <= k < components@.len() ==> loaded(symbols@, (#[trigger] components@[k]).1@) is Some,
        forall|k: int| 0 <= k < components@.len() ==> loaded(footprints@, (#[trigger] components@[k]).2@) is Some,
    ensures
        ({
            let is = asset_issues(components@, symbols@, footprints@, components@.len());
            &&& r.resolved@ == resolved_upto(components@, symbols@, footprints@, components@.len())
            &&& crate::validate::reports(r.diagnostics@.take(is.len() as int), is, file@, source.spec_bytes())
            &&& r.power_flag == (power_flag matches Some(Ok(_)))
            &&& match power_flag {
                Some(Err(e)) => r.diagnostics@.len() == is.len() + 1 && reports_power_flag(
                    r.diagnostics@[is.len() as int],
                    (e.code@, e.message@),
                    file@,
                ),
                _ => r.diagnostics@.len() == is.len(),
            }
        }),
{
    let map = crate::source_map::SourceMap::new(source);
    let mut diagnostics: Vec<Diagnostic> = Vec::new();
    let mut resolved: Vec<usize> = Vec::new();
    let mut k: usize = 0;
    while k < components.len()
        invariant
            k <= components@.len(),
            map.bytes() == source.spec_bytes(),
            map.bytes().len() < usize::MAX,
            forall|k: int| 0 <= k < components@.len() ==> loaded(symbols@, (#[trigger] components@[k]).1@) is Some,
            forall|k: int| 0 <= k < components@.len() ==> loaded(footprints@, (#[trigger] components@[k]).2@) is Some,
            resolved@ == resolved_upto(components@, symbols@, footprints@, k as nat),
            crate::validate::reports(diagnostics@, asset_issues(components@, symbols@, footprints@, k as nat), file@, map.bytes()),
        decreases components.len() - k,
    {
        let c = &components[k];
        let ghost before = asset_issues(components@, symbols@, footprints@, k as nat);
        let ghost issue = asset_issue(*c, symbols@, footprints@);
        assert(loaded(symbols@, c.1@) is Some);
        assert(loaded(footprints@, c.2@) is Some);
        let si = find_loaded(symbols, c.1.as_str()).unwrap();
        match &symbols[si].1 {
            Err(e) => {
                let path = text3("/components/", c.0.as_str(), "/symbol");
                crate::validate::emit(&mut diagnostics, Ghost(before), &map, file, true, e.code.as_str(), e.message.as_str(), None, path.as_str());
                assert(issue == Some(crate::validate::error(e.code@, e.message@, path@)));
            },
            Ok(pins) => {
                let fi = find_loaded(footprints, c.2.as_str()).unwrap();
                match &footprints[fi].1 {
                    Err(e) => {
                        let path = text3("/components/", c.0.as_str(), "/footprint");
                        crate::validate::emit(&mut diagnostics, Ghost(before), &map, file, true, e.code.as_str(), e.message.as_str(), None, path.as_str());
                        assert(issue == Some(crate::validate::error(e.code@, e.message@, path@)));
                    },
                    Ok(pads) => {
                        let missing = missing_pad_list(pins, pads);
                        if missing.len() > 0 {
                            let path = text3("/components/", c.0.as_str(), "/footprint");
                            let list = comma_text(&missing);
                            let message = crate::text::text4("footprint '", c.2.as_str(), "' lacks symbol pads: ", list.as_str());
                            crate::validate::emit(&mut diagnostics, Ghost(before), &map, file, true, "LIB003", message.as_str(), None, path.as_str());
                            assert(issue == Some(crate::validate::error("LIB003"@, message@, path@)));
                        } else {
                            resolved.push(k);
                            assert(issue is None);
                        }
                    },
                }
            },
        }
        assert(components@[k as int] == *c);
        k += 1;
    }
    let ghost is = asset_issues(components@, symbols@, footprints@, components@.len());
    assert(diagnostics@.take(is.len() as int) =~= diagnostics@);
    let ghost head = diagnostics@;
    let mut power = false;
    match power_flag {
        Some(Ok(_)) => {
            power = true;
        },
        Some(Err(e)) => {
            let d = Diagnostic::error(e.code.as_str(), e.message.as_str(), file).at_path("/circuit/power_sources");
            diagnostics.push(d);
            assert(diagnostics@.take(is.len() as int) =~= head);
        },
        None => {},
    }
    AssetCheck { resolved, power_flag: power, diagnostics }
}

} // verus!
