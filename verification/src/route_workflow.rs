//! Acceptance of routing candidates: finding identities, DRC deltas, per-net open counts,
//! and the grouping of nets that can share one router run.
use vstd::multiset::Multiset;
use vstd::prelude::*;
use crate::text::{lemma_views_push, same_chars, views};

verus! {

broadcast use {vstd::seq_lib::group_to_multiset_ensures, vstd::seq_lib::to_multiset_remove, vstd::seq_lib::to_multiset_contains};

/// One located item of a KiCad finding.
#[derive(Debug, Clone, PartialEq, Eq)]
pub struct FindingItem {
    /// The item's `description` when it is a string.
    pub description: Option<String>,
    /// Compact JSON text of the item's `description` and `pos`, which identifies it.
    pub identity: String,
}

/// One KiCad ERC/DRC finding: a violation or an unconnected pair.
#[derive(Debug, Clone, PartialEq, Eq)]
pub struct Finding {
    /// Compact JSON text of the finding's `type` (`null` when absent).
    pub kind: String,
    /// Compact JSON text of the finding's `description` (`null` when absent).
    pub description: String,
    pub items: Vec<FindingItem>,
    /// The complete finding as compact JSON text, for reports.
    pub raw: String,
}

/// The plain value of a finding item.
pub struct ItemView {
    pub description: Option<Seq<char>>,
    pub identity: Seq<char>,
}

/// The plain value of a finding.
pub struct FindingView {
    pub kind: Seq<char>,
    pub description: Seq<char>,
    pub items: Seq<ItemView>,
    pub raw: Seq<char>,
}

impl View for FindingItem {
    type V = ItemView;

    open spec fn view(&self) -> ItemView {
        ItemView {
            description: match self.description {
                Some(d) => Some(d@),
                None => None,
            },
            identity: self.identity@,
        }
    }
}

impl View for Finding {
    type V = FindingView;

    open spec fn view(&self) -> FindingView {
        FindingView {
            kind: self.kind@,
            description: self.description@,
            items: iviews(self.items@),
            raw: self.raw@,
        }
    }
}

/// The plain values of a list of items.
pub open spec fn iviews(s: Seq<FindingItem>) -> Seq<ItemView> {
    s.map_values(|i: FindingItem| i@)
}

/// The plain values of a list of findings.
pub open spec fn fviews(s: Seq<Finding>) -> Seq<FindingView> {
    s.map_values(|f: Finding| f@)
}

proof fn lemma_fviews_push(s: Seq<Finding>, e: Finding)
    ensures
        fviews(s.push(e)) == fviews(s).push(e@),
{
    assert(fviews(s.push(e)) =~= fviews(s).push(e@));
}

/// The value of a compact JSON text, `null` when it does not parse.
pub open spec fn parsed_or_null(t: Seq<char>) -> crate::modules::JsonView {
    match crate::pipeline::json_parsed(vstd::utf8::encode_utf8(t)) {
        Ok(v) => v,
        Err(_) => crate::modules::JsonView::Null,
    }
}

/// The array `[kind, description, items]`, where `kind` and `description` are JSON texts
/// and `items` are strings.
pub open spec fn identity_value(kind: Seq<char>, description: Seq<char>, items: Seq<Seq<char>>) -> crate::modules::JsonView {
    crate::modules::JsonView::Array(
        seq![
            parsed_or_null(kind),
            parsed_or_null(description),
            crate::modules::JsonView::Array(items.map_values(|t: Seq<char>| crate::modules::JsonView::Text(t))),
        ],
    )
}

fn parsed_text(t: &str) -> (r: crate::modules::Json)
    ensures
        crate::modules::json_view(r) == parsed_or_null(t@),
{
    match crate::pipeline::parse_json(t.as_bytes()) {
        Ok(v) => v,
        Err(_) => crate::modules::Json::Null,
    }
}

/// The compact JSON text of `[kind, description, items]` (see `identity_value`).
fn identity_json(kind: &str, description: &str, items: &Vec<String>) -> (r: String)
    ensures
        r@ == crate::pipeline::json_text(identity_value(kind@, description@, views(items@))),
        r@.len() > 0 && r@[0] == '[',
{
    let mut texts: Vec<crate::modules::Json> = Vec::new();
    let ghost want = views(items@).map_values(|t: Seq<char>| crate::modules::JsonView::Text(t));
    let mut i: usize = 0;
    while i < items.len()
        invariant
            i <= items@.len(),
            want == views(items@).map_values(|t: Seq<char>| crate::modules::JsonView::Text(t)),
            crate::modules::json_views(texts@) == want.take(i as int),
        decreases items.len() - i,
    {
        let ghost before = texts@;
        let t = crate::modules::Json::Text(items[i].clone());
        proof {
            crate::modules::lemma_json_views_push(before, t);
        }
        texts.push(t);
        assert(want.take(i + 1) =~= want.take(i as int).push(want[i as int]));
        i += 1;
    }
    assert(want.take(i as int) =~= want);
    let k = parsed_text(kind);
    let d = parsed_text(description);
    let mut all: Vec<crate::modules::Json> = Vec::new();
    let ghost e0 = all@;
    proof {
        crate::modules::lemma_json_views_push(e0, k);
    }
    all.push(k);
    let ghost e1 = all@;
    proof {
        crate::modules::lemma_json_views_push(e1, d);
    }
    all.push(d);
    let arr = crate::modules::Json::Array(texts);
    let ghost e2 = all@;
    proof {
        crate::modules::lemma_json_views_push(e2, arr);
        assert(crate::modules::json_views(e0) =~= Seq::<crate::modules::JsonView>::empty());
    }
    all.push(arr);
    let v = crate::modules::Json::Array(all);
    assert(crate::modules::json_views(all@) =~= seq![
        parsed_or_null(kind@),
        parsed_or_null(description@),
        crate::modules::JsonView::Array(want),
    ]);
    assert(crate::modules::json_view(v) == identity_value(kind@, description@, views(items@)));
    crate::pipeline::compact_json(&v)
}

/// Whether `a` sorts no later than `b`: lexicographic order by code point.
pub open spec fn lex_le(a: Seq<char>, b: Seq<char>) -> bool
    decreases a.len(),
{
    if a.len() == 0 {
        true
    } else if b.len() == 0 {
        false
    } else if a[0] != b[0] {
        (a[0] as u32) < (b[0] as u32)
    } else {
        lex_le(a.drop_first(), b.drop_first())
    }
}

/// Any two texts are ordered one way or the other.
pub proof fn lemma_lex_total(a: Seq<char>, b: Seq<char>)
    ensures
        lex_le(a, b) || lex_le(b, a),
    decreases a.len(),
{
    if a.len() > 0 && b.len() > 0 {
        if a[0] == b[0] {
            lemma_lex_total(a.drop_first(), b.drop_first());
        } else {
            vstd::utf8::char_u32_cast(a[0], a[0] as u32);
            vstd::utf8::char_u32_cast(b[0], b[0] as u32);
        }
    }
}

/// The order is transitive.
pub proof fn lemma_lex_trans(a: Seq<char>, b: Seq<char>, c: Seq<char>)
    requires
        lex_le(a, b),
        lex_le(b, c),
    ensures
        lex_le(a, c),
    decreases a.len(),
{
    if a.len() > 0 && b.len() > 0 && c.len() > 0 && a[0] == b[0] && b[0] == c[0] {
        lemma_lex_trans(a.drop_first(), b.drop_first(), c.drop_first());
    }
}

/// Texts ordered both ways are equal.
pub proof fn lemma_lex_antisym(a: Seq<char>, b: Seq<char>)
    requires
        lex_le(a, b),
        lex_le(b, a),
    ensures
        a == b,
    decreases a.len(),
{
    if a.len() > 0 && b.len() > 0 {
        lemma_lex_antisym(a.drop_first(), b.drop_first());
        assert(a =~= seq![a[0]] + a.drop_first());
        assert(b =~= seq![b[0]] + b.drop_first());
    } else {
        assert(a =~= b);
    }
}

/// `x` inserted into the sorted `s` before the first element that sorts after it.
pub open spec fn insert_sorted(s: Seq<Seq<char>>, x: Seq<char>) -> Seq<Seq<char>>
    decreases s.len(),
{
    if s.len() == 0 {
        seq![x]
    } else if lex_le(x, s[0]) {
        seq![x] + s
    } else {
        seq![s[0]] + insert_sorted(s.drop_first(), x)
    }
}

/// `s` in ascending lexicographic order.
pub open spec fn sorted(s: Seq<Seq<char>>) -> Seq<Seq<char>>
    decreases s.len(),
{
    if s.len() == 0 {
        Seq::empty()
    } else {
        insert_sorted(sorted(s.drop_last()), s.last())
    }
}

/// The identity texts of items.
pub open spec fn identities(items: Seq<ItemView>) -> Seq<Seq<char>> {
    items.map_values(|i: ItemView| i.identity)
}

/// The identity of a finding: its type, description and the sorted item identities, so that
/// renumbered track UUIDs do not matter but locations do.
pub open spec fn finding_key(f: FindingView) -> Seq<char> {
    crate::pipeline::json_text(identity_value(f.kind, f.description, sorted(identities(f.items))))
}

pub(crate) fn lex_le_exec(a: &String, b: &String) -> (r: bool)
    ensures
        r == lex_le(a@, b@),
{
    let x = crate::text::chars_of(a.as_str());
    let y = crate::text::chars_of(b.as_str());
    let mut i: usize = 0;
    assert(x@.skip(0) =~= x@);
    assert(y@.skip(0) =~= y@);
    while i < x.len() && i < y.len() && x[i] == y[i]
        invariant
            i <= x@.len(),
            i <= y@.len(),
            x@ == a@,
            y@ == b@,
            lex_le(a@, b@) == lex_le(x@.skip(i as int), y@.skip(i as int)),
        decreases x.len() - i,
    {
        assert(x@.skip(i as int).drop_first() =~= x@.skip(i + 1));
        assert(y@.skip(i as int).drop_first() =~= y@.skip(i + 1));
        i += 1;
    }
    if i == x.len() {
        true
    } else if i == y.len() {
        false
    } else {
        (x[i] as u32) < (y[i] as u32)
    }
}

pub(crate) fn insert_sorted_exec(s: Vec<String>, x: String) -> (r: Vec<String>)
    ensures
        views(r@) == insert_sorted(views(s@), x@),
{
    let ghost sv = views(s@);
    let mut i: usize = 0;
    assert(sv.skip(0) =~= sv);
    assert(sv.take(0) + sv =~= sv);
    while i < s.len() && !lex_le_exec(&x, &s[i])
        invariant
            i <= s.len(),
            sv == views(s@),
            insert_sorted(sv, x@) == sv.take(i as int) + insert_sorted(sv.skip(i as int), x@),
        decreases s.len() - i,
    {
        proof {
            let rest = sv.skip(i as int);
            assert(rest[0] == s@[i as int]@);
            assert(rest.drop_first() =~= sv.skip(i + 1));
            assert(insert_sorted(rest, x@) == seq![rest[0]] + insert_sorted(rest.drop_first(), x@));
            assert(sv.take(i + 1) =~= sv.take(i as int) + seq![rest[0]]);
            assert(sv.take(i as int) + (seq![rest[0]] + insert_sorted(sv.skip(i + 1), x@)) =~= sv.take(i + 1) + insert_sorted(sv.skip(i + 1), x@));
        }
        i += 1;
    }
    proof {
        let rest = sv.skip(i as int);
        if i < s.len() {
            assert(rest[0] == s@[i as int]@);
            assert(insert_sorted(rest, x@) == seq![x@] + rest);
        } else {
            assert(rest =~= Seq::<Seq<char>>::empty());
            assert(insert_sorted(rest, x@) =~= seq![x@] + rest);
        }
    }
    let mut r: Vec<String> = Vec::new();
    let mut j: usize = 0;
    while j < i
        invariant
            j <= i <= s.len(),
            sv == views(s@),
            views(r@) == sv.take(j as int),
        decreases i - j,
    {
        let ghost old_r = r@;
        r.push(s[j].clone());
        proof {
            assert(r@ == old_r.push(s@[j as int]));
            lemma_views_push(old_r, s@[j as int]);
            assert(views(r@) =~= sv.take(j + 1));
        }
        j += 1;
    }
    let ghost old_r = r@;
    r.push(x);
    proof {
        lemma_views_push(old_r, x);
        assert(views(r@) =~= sv.take(i as int) + seq![x@]);
    }
    let mut k = i;
    while k < s.len()
        invariant
            i <= k <= s.len(),
            sv == views(s@),
            views(r@) == sv.take(i as int) + seq![x@] + sv.subrange(i as int, k as int),
        decreases s.len() - k,
    {
        let ghost old_r = r@;
        r.push(s[k].clone());
        proof {
            assert(r@ == old_r.push(s@[k as int]));
            lemma_views_push(old_r, s@[k as int]);
            assert(views(r@) =~= sv.take(i as int) + seq![x@] + sv.subrange(i as int, k + 1));
        }
        k += 1;
    }
    proof {
        assert(sv.skip(i as int) =~= sv.subrange(i as int, s@.len() as int));
        assert(views(r@) =~= sv.take(i as int) + insert_sorted(sv.skip(i as int), x@));
    }
    r
}

/// The item identities of a finding in ascending order.
fn sorted_identities(f: &Finding) -> (r: Vec<String>)
    ensures
        views(r@) == sorted(identities(f@.items)),
{
    let ghost ids = identities(f@.items);
    let mut r: Vec<String> = Vec::new();
    let mut i: usize = 0;
    while i < f.items.len()
        invariant
            i <= f.items@.len(),
            ids == identities(f@.items),
            views(r@) == sorted(ids.take(i as int)),
        decreases f.items.len() - i,
    {
        r = insert_sorted_exec(r, f.items[i].identity.clone());
        proof {
            assert(ids.take(i + 1).drop_last() =~= ids.take(i as int));
            assert(ids.take(i + 1).last() == f.items@[i as int].identity@);
        }
        i += 1;
    }
    assert(ids.take(f.items@.len() as int) =~= ids);
    r
}

/// The identity text of a finding.
pub fn finding_identity(f: &Finding) -> (r: String)
    ensures
        r@ == finding_key(f@),
        r@.len() > 0 && r@[0] == '[',
{
    let ids = sorted_identities(f);
    identity_json(f.kind.as_str(), f.description.as_str(), &ids)
}

impl FindingItem {
    /// An identical copy.
    pub fn copy(&self) -> (r: FindingItem)
        ensures
            r@ == self@,
    {
        FindingItem {
            description: match &self.description {
                Some(d) => Some(d.clone()),
                None => None,
            },
            identity: self.identity.clone(),
        }
    }
}

impl Finding {
    /// An identical copy.
    pub fn copy(&self) -> (r: Finding)
        ensures
            r@ == self@,
    {
        let mut items: Vec<FindingItem> = Vec::new();
        let mut i: usize = 0;
        while i < self.items.len()
            invariant
                i <= self.items@.len(),
                iviews(items@) == self@.items.take(i as int),
            decreases self.items.len() - i,
        {
            let ghost old_items = items@;
            items.push(self.items[i].copy());
            assert(iviews(items@) =~= iviews(old_items).push(self.items@[i as int]@));
            i += 1;
            assert(iviews(items@) =~= self@.items.take(i as int));
        }
        assert(iviews(items@) =~= self@.items);
        Finding {
            kind: self.kind.clone(),
            description: self.description.clone(),
            items,
            raw: self.raw.clone(),
        }
    }
}

/// An identical copy of a list of findings.
pub fn copy_findings(v: &Vec<Finding>) -> (r: Vec<Finding>)
    ensures
        fviews(r@) == fviews(v@),
{
    let mut r: Vec<Finding> = Vec::new();
    let mut i: usize = 0;
    while i < v.len()
        invariant
            i <= v@.len(),
            fviews(r@) == fviews(v@).take(i as int),
        decreases v.len() - i,
    {
        let ghost old_r = r@;
        r.push(v[i].copy());
        proof {
            lemma_fviews_push(old_r, r@.last());
            assert(fviews(r@) =~= fviews(v@).take(i + 1));
        }
        i += 1;
    }
    assert(fviews(v@).take(v@.len() as int) =~= fviews(v@));
    r
}

/// The identities of a list of findings.
pub open spec fn keys(s: Seq<FindingView>) -> Seq<Seq<char>> {
    s.map_values(|f: FindingView| finding_key(f))
}

/// The findings of `after` left over when each is cancelled against one remaining equal
/// finding of the pool: the findings that are new, counting repeats.
pub open spec fn new_findings(pool: Multiset<Seq<char>>, after: Seq<FindingView>) -> Seq<FindingView>
    decreases after.len(),
{
    if after.len() == 0 {
        Seq::empty()
    } else {
        let k = finding_key(after[0]);
        if pool.count(k) > 0 {
            new_findings(pool.remove(k), after.drop_first())
        } else {
            seq![after[0]] + new_findings(pool, after.drop_first())
        }
    }
}

/// Findings of `after` that `before` does not account for, repeats counted.
pub open spec fn finding_differences(before: Seq<FindingView>, after: Seq<FindingView>) -> Seq<FindingView> {
    new_findings(keys(before).to_multiset(), after)
}

/// Findings present after a change that were not present before it, counting repeats:
/// each finding of `before` cancels one equal finding of `after`.
pub fn differences(before: &Vec<Finding>, after: &Vec<Finding>) -> (r: Vec<Finding>)
    ensures
        fviews(r@) == finding_differences(fviews(before@), fviews(after@)),
{
    let mut pool: Vec<String> = Vec::new();
    let mut i: usize = 0;
    while i < before.len()
        invariant
            i <= before@.len(),
            views(pool@) == keys(fviews(before@)).take(i as int),
        decreases before.len() - i,
    {
        let ghost old_pool = pool@;
        pool.push(finding_identity(&before[i]));
        proof {
            lemma_views_push(old_pool, pool@.last());
            assert(views(pool@) =~= keys(fviews(before@)).take(i + 1));
        }
        i += 1;
    }
    assert(keys(fviews(before@)).take(before@.len() as int) =~= keys(fviews(before@)));
    let ghost av = fviews(after@);
    let mut out: Vec<Finding> = Vec::new();
    let mut j: usize = 0;
    assert(av.skip(0) =~= av);
    while j < after.len()
        invariant
            j <= after@.len(),
            av == fviews(after@),
            finding_differences(fviews(before@), av) == fviews(out@) + new_findings(views(pool@).to_multiset(), av.skip(j as int)),
        decreases after.len() - j,
    {
        let k = finding_identity(&after[j]);
        let ghost rest = av.skip(j as int);
        assert(rest[0] == after@[j as int]@);
        assert(rest.drop_first() =~= av.skip(j + 1));
        let mut m: usize = 0;
        while m < pool.len() && pool[m] != k
            invariant
                m <= pool@.len(),
                forall|t: int| 0 <= t < m ==> pool@[t]@ != k@,
            decreases pool.len() - m,
        {
            m += 1;
        }
        if m < pool.len() {
            let ghost old_pool = pool@;
            proof {
                assert(views(old_pool)[m as int] == k@);
                assert(views(old_pool).contains(k@));
                assert(views(old_pool).to_multiset().count(k@) > 0);
            }
            pool.remove(m);
            proof {
                assert(views(pool@) =~= views(old_pool).remove(m as int));
            }
        } else {
            proof {
                assert(!views(pool@).contains(k@)) by {
                    if views(pool@).contains(k@) {
                        let t = choose|t: int| 0 <= t < views(pool@).len() && views(pool@)[t] == k@;
                        assert(pool@[t]@ == k@);
                    }
                }
            }
            let ghost old_out = out@;
            out.push(after[j].copy());
            proof {
                lemma_fviews_push(old_out, out@.last());
                assert(fviews(out@) =~= fviews(old_out) + seq![rest[0]]);
            }
        }
        j += 1;
    }
    assert(av.skip(after@.len() as int) =~= Seq::<FindingView>::empty());
    assert(fviews(out@) + Seq::<FindingView>::empty() =~= fviews(out@));
    out
}

/// Index of the first `c` in `s` at or after `from`.
pub open spec fn find_char_from(s: Seq<char>, c: char, from: int) -> Option<int>
    decreases s.len() - from,
{
    if from < 0 || from >= s.len() {
        None
    } else if s[from] == c {
        Some(from)
    } else {
        find_char_from(s, c, from + 1)
    }
}

/// Index of the `]` that brings the bracket depth from `depth` back to zero, scanning
/// from `i`.
pub open spec fn closing_bracket(s: Seq<char>, i: int, depth: int) -> Option<int>
    decreases s.len() - i,
{
    if i < 0 || i >= s.len() {
        None
    } else {
        let d = if s[i] == '[' {
            depth + 1
        } else {
            depth
        };
        if s[i] == ']' {
            if d - 1 == 0 {
                Some(i)
            } else {
                closing_bracket(s, i + 1, d - 1)
            }
        } else {
            closing_bracket(s, i + 1, d)
        }
    }
}

/// The text inside the first balanced `[...]` group of `s`.
pub open spec fn bracketed(s: Seq<char>) -> Option<Seq<char>> {
    match find_char_from(s, '[', 0) {
        Some(start) => match closing_bracket(s, start, 0) {
            Some(end) => Some(s.subrange(start + 1, end)),
            None => None,
        },
        None => None,
    }
}

/// The net named by the first item description that carries a bracketed net.
pub open spec fn items_net(items: Seq<ItemView>) -> Option<Seq<char>>
    decreases items.len(),
{
    if items.len() == 0 {
        None
    } else {
        match items[0].description {
            Some(d) => match bracketed(d) {
                Some(n) => Some(n),
                None => items_net(items.drop_first()),
            },
            None => items_net(items.drop_first()),
        }
    }
}

/// The net of an unconnected finding; without a recognizable net the whole finding
/// identity stands for it.
pub open spec fn open_net_of(f: FindingView) -> Seq<char> {
    match items_net(f.items) {
        Some(n) => n,
        None => finding_key(f),
    }
}

fn find_char_exec(s: &Vec<char>, c: char) -> (r: Option<usize>)
    ensures
        match r {
            Some(i) => find_char_from(s@, c, 0) == Some(i as int) && i < s@.len() && s@[i as int] == c,
            None => find_char_from(s@, c, 0) is None,
        },
{
    let mut i: usize = 0;
    while i < s.len()
        invariant
            i <= s@.len(),
            find_char_from(s@, c, 0) == find_char_from(s@, c, i as int),
        decreases s.len() - i,
    {
        if s[i] == c {
            return Some(i);
        }
        i += 1;
    }
    None
}

fn bracketed_exec(text: &String) -> (r: Option<String>)
    ensures
        match r {
            Some(n) => bracketed(text@) == Some(n@),
            None => bracketed(text@) is None,
        },
{
    let s = crate::text::chars_of(text.as_str());
    let start = match find_char_exec(&s, '[') {
        Some(start) => start,
        None => {
            return None;
        },
    };
    let mut depth: usize = 0;
    let mut i: usize = start;
    while i < s.len()
        invariant
            s@ == text@,
            find_char_from(s@, '[', 0) == Some(start as int),
            start <= i <= s@.len(),
            start < s@.len(),
            s@[start as int] == '[',
            i == start ==> depth == 0,
            i > start ==> depth >= 1,
            depth <= i,
            closing_bracket(s@, start as int, 0) == closing_bracket(s@, i as int, depth as int),
        decreases s.len() - i,
    {
        let c = s[i];
        if c == '[' {
            depth += 1;
        }
        if c == ']' {
            if depth == 1 {
                let inner = crate::text::string_of_range(s.as_slice(), start + 1, i);
                return Some(inner);
            }
            if depth == 0 {
                depth = 0;
            } else {
                depth -= 1;
            }
        }
        i += 1;
    }
    None
}

/// The net of an unconnected finding, or its identity when no item names one.
pub fn open_net(f: &Finding) -> (r: String)
    ensures
        r@ == open_net_of(f@),
{
    let mut i: usize = 0;
    assert(f@.items.skip(0) =~= f@.items);
    while i < f.items.len()
        invariant
            i <= f.items@.len(),
            items_net(f@.items) == items_net(f@.items.skip(i as int)),
        decreases f.items.len() - i,
    {
        assert(f@.items.skip(i as int)[0] == f.items@[i as int]@);
        assert(f@.items.skip(i as int).drop_first() =~= f@.items.skip(i + 1));
        match &f.items[i].description {
            Some(d) => match bracketed_exec(d) {
                Some(n) => {
                    return n;
                },
                None => {},
            },
            None => {},
        }
        i += 1;
    }
    finding_identity(f)
}

/// KiCad DRC results split into errors, warnings and unconnected pairs, with the
/// schematic-parity findings also kept apart.
#[derive(Debug)]
pub struct DrcSummary {
    pub errors: Vec<Finding>,
    pub warnings: usize,
    pub warning_details: Vec<Finding>,
    pub opens: Vec<Finding>,
    pub parity_errors: Vec<Finding>,
    pub parity_warnings: usize,
    pub parity_warning_details: Vec<Finding>,
}

impl Default for DrcSummary {
    fn default() -> (r: DrcSummary)
        ensures
            r.errors@.len() == 0,
            r.warnings == 0,
            r.warning_details@.len() == 0,
            r.opens@.len() == 0,
            r.parity_errors@.len() == 0,
            r.parity_warnings == 0,
            r.parity_warning_details@.len() == 0,
    {
        DrcSummary {
            errors: Vec::new(),
            warnings: 0,
            warning_details: Vec::new(),
            opens: Vec::new(),
            parity_errors: Vec::new(),
            parity_warnings: 0,
            parity_warning_details: Vec::new(),
        }
    }
}

/// The net of each unconnected finding.
pub open spec fn open_nets(s: Seq<FindingView>) -> Seq<Seq<char>> {
    s.map_values(|f: FindingView| open_net_of(f))
}

/// How often `x` occurs in `s`.
pub open spec fn occurrences(s: Seq<Seq<char>>, x: Seq<char>) -> nat
    decreases s.len(),
{
    if s.len() == 0 {
        0
    } else {
        occurrences(s.drop_last(), x) + if s.last() == x {
            1nat
        } else {
            0nat
        }
    }
}

/// Whether some net has more unconnected pairs after than before.
pub open spec fn connectivity_regresses(before: Seq<FindingView>, after: Seq<FindingView>) -> bool {
    exists|i: int|
        0 <= i < after.len() && occurrences(open_nets(after), #[trigger] open_nets(after)[i])
            > occurrences(open_nets(before), open_nets(after)[i])
}

/// Why a candidate must be rejected, if it must: a new DRC error, or more opens on a net.
pub open spec fn regression(before: DrcSummary, after: DrcSummary) -> Option<Seq<char>> {
    if finding_differences(fviews(before.errors@), fviews(after.errors@)).len() > 0 {
        Some("candidate introduces DRC errors"@)
    } else if connectivity_regresses(fviews(before.opens@), fviews(after.opens@)) {
        Some("candidate regresses connectivity on at least one net"@)
    } else {
        None
    }
}

/// Whether a candidate is accepted: no regression and fewer opens or fewer errors.
pub open spec fn accepted(before: DrcSummary, after: DrcSummary) -> bool {
    regression(before, after) is None && (after.opens@.len() < before.opens@.len()
        || after.errors@.len() < before.errors@.len())
}

/// The reason reported with an assessment.
pub open spec fn assessment_reason(before: DrcSummary, after: DrcSummary) -> Seq<char> {
    match regression(before, after) {
        Some(reason) => reason,
        None => if accepted(before, after) {
            "connectivity or DRC improved without regressions"@
        } else {
            "no measured improvement; change placement, constraints or routing order"@
        },
    }
}

fn nets_of(opens: &Vec<Finding>) -> (r: Vec<String>)
    ensures
        views(r@) == open_nets(fviews(opens@)),
{
    let mut r: Vec<String> = Vec::new();
    let mut i: usize = 0;
    while i < opens.len()
        invariant
            i <= opens@.len(),
            views(r@) == open_nets(fviews(opens@)).take(i as int),
        decreases opens.len() - i,
    {
        let ghost old_r = r@;
        r.push(open_net(&opens[i]));
        proof {
            lemma_views_push(old_r, r@.last());
            assert(views(r@) =~= open_nets(fviews(opens@)).take(i + 1));
        }
        i += 1;
    }
    assert(open_nets(fviews(opens@)).take(opens@.len() as int) =~= open_nets(fviews(opens@)));
    r
}

fn occurrences_exec(s: &Vec<String>, x: &String) -> (r: usize)
    ensures
        r as nat == occurrences(views(s@), x@),
{
    let mut n: usize = 0;
    let mut i: usize = 0;
    while i < s.len()
        invariant
            i <= s@.len(),
            n <= i,
            n as nat == occurrences(views(s@).take(i as int), x@),
        decreases s.len() - i,
    {
        assert(views(s@).take(i + 1).drop_last() =~= views(s@).take(i as int));
        if s[i] == *x {
            n += 1;
        }
        i += 1;
    }
    assert(views(s@).take(s@.len() as int) =~= views(s@));
    n
}

/// Why a routing candidate must not replace the accepted copper: it introduces a DRC error
/// that was not there before, even when the error count falls, or it leaves some net with more
/// unconnected pairs than before.
pub fn regression_reason(before: &DrcSummary, after: &DrcSummary) -> (r: Option<&'static str>)
    ensures
        match r {
            Some(t) => regression(*before, *after) == Some(t@),
            None => regression(*before, *after) is None,
        },
{
    let new_errors = differences(&before.errors, &after.errors);
    if new_errors.len() > 0 {
        return Some("candidate introduces DRC errors");
    }
    assert(finding_differences(fviews(before.errors@), fviews(after.errors@)).len() == 0);
    let before_nets = nets_of(&before.opens);
    let after_nets = nets_of(&after.opens);
    let mut i: usize = 0;
    while i < after_nets.len()
        invariant
            i <= after_nets@.len(),
            views(after_nets@) == open_nets(fviews(after.opens@)),
            views(before_nets@) == open_nets(fviews(before.opens@)),
            finding_differences(fviews(before.errors@), fviews(after.errors@)).len() == 0,
            forall|k: int|
                0 <= k < i ==> occurrences(open_nets(fviews(after.opens@)), #[trigger] open_nets(fviews(after.opens@))[k])
                    <= occurrences(open_nets(fviews(before.opens@)), open_nets(fviews(after.opens@))[k]),
        decreases after_nets.len() - i,
    {
        let a = occurrences_exec(&after_nets, &after_nets[i]);
        let b = occurrences_exec(&before_nets, &after_nets[i]);
        assert(views(after_nets@)[i as int] == after_nets@[i as int]@);
        if a > b {
            assert(connectivity_regresses(fviews(before.opens@), fviews(after.opens@)));
            return Some("candidate regresses connectivity on at least one net");
        }
        i += 1;
    }
    assert(!connectivity_regresses(fviews(before.opens@), fviews(after.opens@)));
    None
}

/// Whether a candidate is accepted, with the reason: it must not regress and must reduce the
/// opens or the errors.
pub fn assess(before: &DrcSummary, after: &DrcSummary) -> (r: (bool, String))
    ensures
        r.0 == accepted(*before, *after),
        r.1@ == assessment_reason(*before, *after),
{
    if let Some(reason) = regression_reason(before, after) {
        return (false, reason.to_owned());
    }
    if after.opens.len() < before.opens.len() || after.errors.len() < before.errors.len() {
        (true, "connectivity or DRC improved without regressions".to_owned())
    } else {
        (false, "no measured improvement; change placement, constraints or routing order".to_owned())
    }
}

proof fn lemma_all_cancelled(s: Seq<FindingView>)
    ensures
        new_findings(keys(s).to_multiset(), s).len() == 0,
    decreases s.len(),
{
    if s.len() > 0 {
        let k = finding_key(s[0]);
        assert(keys(s)[0] == k);
        assert(keys(s).contains(k));
        assert(keys(s).remove(0) =~= keys(s.drop_first()));
        assert(keys(s).to_multiset().remove(k) == keys(s.drop_first()).to_multiset());
        lemma_all_cancelled(s.drop_first());
    }
}

/// A candidate identical to the accepted copper is never accepted: it shows no improvement.
pub proof fn law_unchanged_candidate_is_rejected(s: DrcSummary)
    ensures
        !accepted(s, s),
        finding_differences(fviews(s.errors@), fviews(s.errors@)).len() == 0,
{
    lemma_all_cancelled(fviews(s.errors@));
}

/// An accepted candidate adds no DRC error, raises no net's open count and improves
/// connectivity or errors.
pub proof fn law_acceptance_never_trades_regressions(before: DrcSummary, after: DrcSummary)
    requires
        accepted(before, after),
    ensures
        finding_differences(fviews(before.errors@), fviews(after.errors@)).len() == 0,
        forall|i: int|
            0 <= i < after.opens@.len() ==> occurrences(open_nets(fviews(after.opens@)), #[trigger] open_nets(fviews(after.opens@))[i])
                <= occurrences(open_nets(fviews(before.opens@)), open_nets(fviews(after.opens@))[i]),
        after.opens@.len() < before.opens@.len() || after.errors@.len() < before.errors@.len(),
{
}

/// Whether the selected nets still have unconnected pairs; an open whose net cannot be read
/// counts, so that an unrecognized report never turns a route into a no-op.
pub open spec fn routing_needed(opens: Seq<FindingView>, nets: Seq<Seq<char>>) -> bool {
    exists|i: int|
        0 <= i < opens.len() && {
            let n = #[trigger] open_nets(opens)[i];
            (n.len() > 0 && n[0] == '[') || exists|k: int|
                0 <= k < nets.len() && trim_slash_chars(#[trigger] nets[k]) == trim_slash_chars(n)
        }
}

/// `s` without its leading `/` characters.
pub open spec fn trim_slash_chars(s: Seq<char>) -> Seq<char>
    decreases s.len(),
{
    if s.len() > 0 && s[0] == '/' {
        trim_slash_chars(s.drop_first())
    } else {
        s
    }
}

pub(crate) fn trimmed(s: &String) -> (r: Vec<char>)
    ensures
        r@ == trim_slash_chars(s@),
{
    let c = crate::text::chars_of(s.as_str());
    let mut i: usize = 0;
    assert(c@.skip(0) =~= c@);
    while i < c.len() && c[i] == '/'
        invariant
            i <= c@.len(),
            trim_slash_chars(c@) == trim_slash_chars(c@.skip(i as int)),
        decreases c.len() - i,
    {
        assert(c@.skip(i as int).drop_first() =~= c@.skip(i + 1));
        i += 1;
    }
    let mut r: Vec<char> = Vec::new();
    let mut j = i;
    while j < c.len()
        invariant
            i <= j <= c@.len(),
            r@ == c@.subrange(i as int, j as int),
        decreases c.len() - j,
    {
        r.push(c[j]);
        j += 1;
    }
    assert(c@.skip(i as int) =~= c@.subrange(i as int, c@.len() as int));
    r
}

/// Whether any selected net still has unconnected pairs, matching names with leading `/`
/// ignored; an open without a recognizable net always counts.
pub fn needs_routing(summary: &DrcSummary, nets: &Vec<String>) -> (r: bool)
    ensures
        r == routing_needed(fviews(summary.opens@), views(nets@)),
{
    let open = nets_of(&summary.opens);
    assert(fviews(summary.opens@).len() == summary.opens@.len());
    assert(open_nets(fviews(summary.opens@)).len() == summary.opens@.len());
    assert(views(open@).len() == open@.len());
    let mut i: usize = 0;
    while i < open.len()
        invariant
            i <= open@.len(),
            open@.len() == fviews(summary.opens@).len(),
            views(open@) == open_nets(fviews(summary.opens@)),
            forall|t: int|
                0 <= t < i ==> {
                    let n = #[trigger] open_nets(fviews(summary.opens@))[t];
                    !((n.len() > 0 && n[0] == '[') || exists|k: int|
                        0 <= k < nets@.len() && trim_slash_chars(#[trigger] views(nets@)[k]) == trim_slash_chars(n))
                },
        decreases open.len() - i,
    {
        let ghost n = open_nets(fviews(summary.opens@))[i as int];
        assert(open@[i as int]@ == n);
        let c = crate::text::chars_of(open[i].as_str());
        if c.len() > 0 && c[0] == '[' {
            assert(c@ == n);
            assert(routing_needed(fviews(summary.opens@), views(nets@)));
            return true;
        }
        let t = trimmed(&open[i]);
        let mut k: usize = 0;
        while k < nets.len()
            invariant
                k <= nets@.len(),
                t@ == trim_slash_chars(n),
                i < fviews(summary.opens@).len(),
                n == open_nets(fviews(summary.opens@))[i as int],
                forall|m: int| 0 <= m < k ==> trim_slash_chars(#[trigger] views(nets@)[m]) != trim_slash_chars(n),
            decreases nets.len() - k,
        {
            let u = trimmed(&nets[k]);
            assert(views(nets@)[k as int] == nets@[k as int]@);
            if same_chars(&u, &t) {
                assert(trim_slash_chars(views(nets@)[k as int]) == trim_slash_chars(n));
                assert(routing_needed(fviews(summary.opens@), views(nets@)));
                return true;
            }
            k += 1;
        }
        assert(!(exists|m: int| 0 <= m < nets@.len() && trim_slash_chars(#[trigger] views(nets@)[m]) == trim_slash_chars(n)));
        assert(!(n.len() > 0 && n[0] == '['));
        i += 1;
    }
    false
}

/// Appends copies of `src` to `dst`.
fn append_findings(dst: &mut Vec<Finding>, src: &Vec<Finding>)
    ensures
        fviews(final(dst)@) == fviews(old(dst)@) + fviews(src@),
{
    let mut i: usize = 0;
    while i < src.len()
        invariant
            i <= src@.len(),
            fviews(dst@) == fviews(old(dst)@) + fviews(src@).take(i as int),
        decreases src.len() - i,
    {
        let ghost before = dst@;
        dst.push(src[i].copy());
        proof {
            lemma_fviews_push(before, dst@.last());
            assert(fviews(dst@) =~= fviews(old(dst)@) + fviews(src@).take(i + 1));
        }
        i += 1;
    }
    assert(fviews(src@).take(src@.len() as int) =~= fviews(src@));
}

/// One finding of a KiCad report with whether its severity is `error`.
#[derive(Debug)]
pub struct ReportEntry {
    pub finding: Finding,
    pub is_error: bool,
}

/// The findings of entries with (or without) error severity, in order.
pub open spec fn with_severity(entries: Seq<ReportEntry>, error: bool) -> Seq<FindingView>
    decreases entries.len(),
{
    if entries.len() == 0 {
        Seq::empty()
    } else {
        with_severity(entries.drop_last(), error) + if entries.last().is_error == error {
            seq![entries.last().finding@]
        } else {
            Seq::empty()
        }
    }
}

fn split_severity(entries: &Vec<ReportEntry>, errors: &mut Vec<Finding>, warnings: &mut Vec<Finding>)
    ensures
        fviews(final(errors)@) == fviews(old(errors)@) + with_severity(entries@, true),
        fviews(final(warnings)@) == fviews(old(warnings)@) + with_severity(entries@, false),
{
    let mut i: usize = 0;
    while i < entries.len()
        invariant
            i <= entries@.len(),
            fviews(errors@) == fviews(old(errors)@) + with_severity(entries@.take(i as int), true),
            fviews(warnings@) == fviews(old(warnings)@) + with_severity(entries@.take(i as int), false),
        decreases entries.len() - i,
    {
        assert(entries@.take(i + 1).drop_last() =~= entries@.take(i as int));
        assert(entries@.take(i + 1).last() == entries@[i as int]);
        if entries[i].is_error {
            let ghost before = errors@;
            errors.push(entries[i].finding.copy());
            proof {
                lemma_fviews_push(before, errors@.last());
                assert(fviews(errors@) =~= fviews(old(errors)@) + with_severity(entries@.take(i + 1), true));
                assert(with_severity(entries@.take(i + 1), false) =~= with_severity(entries@.take(i as int), false));
            }
        } else {
            let ghost before = warnings@;
            warnings.push(entries[i].finding.copy());
            proof {
                lemma_fviews_push(before, warnings@.last());
                assert(fviews(warnings@) =~= fviews(old(warnings)@) + with_severity(entries@.take(i + 1), false));
                assert(with_severity(entries@.take(i + 1), true) =~= with_severity(entries@.take(i as int), true));
            }
        }
        i += 1;
    }
    assert(entries@.take(entries@.len() as int) =~= entries@);
}

proof fn lemma_severity_split_len(entries: Seq<ReportEntry>)
    ensures
        with_severity(entries, true).len() + with_severity(entries, false).len() == entries.len(),
    decreases entries.len(),
{
    if entries.len() > 0 {
        lemma_severity_split_len(entries.drop_last());
    }
}

/// The kinds of DRC error that a placement change must resolve before routing.
pub open spec fn blocks_placement(kind: Seq<char>) -> bool {
    ||| kind == "\"shorting_items\""@
    ||| kind == "\"clearance\""@
    ||| kind == "\"tracks_crossing\""@
    ||| kind == "\"courtyards_overlap\""@
    ||| kind == "\"copper_edge_clearance\""@
    ||| kind == "\"items_not_allowed\""@
}

fn text_is(s: &String, t: &str) -> (r: bool)
    ensures
        r == (s@ == t@),
{
    let a = crate::text::chars_of(s.as_str());
    let b = crate::text::chars_of(t);
    same_chars(&a, &b)
}

impl DrcSummary {
    /// Classifies a report: error-severity findings of the violations and of the schematic
    /// parity section are errors, all others warnings; parity findings are also kept apart.
    pub fn from_report(
        violations: &Vec<ReportEntry>,
        schematic_parity: &Vec<ReportEntry>,
        unconnected: &Vec<Finding>,
    ) -> (r: DrcSummary)
        ensures
            fviews(r.errors@) == with_severity(violations@, true) + with_severity(schematic_parity@, true),
            fviews(r.warning_details@) == with_severity(violations@, false) + with_severity(schematic_parity@, false),
            r.warnings as nat == with_severity(violations@, false).len() + with_severity(schematic_parity@, false).len(),
            fviews(r.parity_errors@) == with_severity(schematic_parity@, true),
            fviews(r.parity_warning_details@) == with_severity(schematic_parity@, false),
            r.parity_warnings as nat == with_severity(schematic_parity@, false).len(),
            fviews(r.opens@) == fviews(unconnected@),
    {
        let mut errors: Vec<Finding> = Vec::new();
        let mut warning_details: Vec<Finding> = Vec::new();
        split_severity(violations, &mut errors, &mut warning_details);
        let mut parity_errors: Vec<Finding> = Vec::new();
        let mut parity_warning_details: Vec<Finding> = Vec::new();
        split_severity(schematic_parity, &mut parity_errors, &mut parity_warning_details);
        append_findings(&mut errors, &parity_errors);
        append_findings(&mut warning_details, &parity_warning_details);
        proof {
            lemma_severity_split_len(violations@);
            lemma_severity_split_len(schematic_parity@);
            assert(fviews(Seq::<Finding>::empty()) =~= Seq::<FindingView>::empty());
        }
        let warnings = warning_details.len();
        let parity_warnings = parity_warning_details.len();
        assert(fviews(warning_details@).len() == warning_details@.len());
        assert(fviews(parity_warning_details@).len() == parity_warning_details@.len());
        DrcSummary {
            errors,
            warnings,
            warning_details,
            opens: copy_findings(unconnected),
            parity_errors,
            parity_warnings,
            parity_warning_details,
        }
    }

    /// Copper normalization cannot change the schematic, net assignments or footprints, so
    /// the baseline's schematic-parity findings carry forward into this summary.
    pub fn inherit_parity(&mut self, baseline: &DrcSummary)
        requires
            old(self).warnings + baseline.parity_warnings <= usize::MAX,
        ensures
            fviews(final(self).parity_errors@) == fviews(baseline.parity_errors@),
            final(self).parity_warnings == baseline.parity_warnings,
            fviews(final(self).parity_warning_details@) == fviews(baseline.parity_warning_details@),
            fviews(final(self).warning_details@) == fviews(old(self).warning_details@) + fviews(baseline.parity_warning_details@),
            fviews(final(self).errors@) == fviews(old(self).errors@) + fviews(baseline.parity_errors@),
            final(self).warnings == old(self).warnings + baseline.parity_warnings,
            final(self).opens == old(self).opens,
    {
        self.parity_errors = copy_findings(&baseline.parity_errors);
        self.parity_warnings = baseline.parity_warnings;
        self.parity_warning_details = copy_findings(&baseline.parity_warning_details);
        append_findings(&mut self.warning_details, &baseline.parity_warning_details);
        append_findings(&mut self.errors, &baseline.parity_errors);
        self.warnings = self.warnings + baseline.parity_warnings;
    }

    /// Whether an error is of a kind that placement must fix: shorts, clearance, crossing
    /// tracks, overlapping courtyards, edge clearance or disallowed items.
    pub fn blocking_placement(&self) -> (r: bool)
        ensures
            r == exists|i: int| 0 <= i < self.errors@.len() && blocks_placement(#[trigger] self.errors@[i].kind@),
    {
        let mut i: usize = 0;
        while i < self.errors.len()
            invariant
                i <= self.errors@.len(),
                forall|k: int| 0 <= k < i ==> !blocks_placement(#[trigger] self.errors@[k].kind@),
            decreases self.errors.len() - i,
        {
            let kind = &self.errors[i].kind;
            if text_is(kind, "\"shorting_items\"") || text_is(kind, "\"clearance\"") || text_is(kind, "\"tracks_crossing\"")
                || text_is(kind, "\"courtyards_overlap\"") || text_is(kind, "\"copper_edge_clearance\"")
                || text_is(kind, "\"items_not_allowed\"") {
                return true;
            }
            i += 1;
        }
        false
    }
}

/// Escapes the characters that cannot appear literally in XML text or attributes.
pub open spec fn xml_escaped(s: Seq<char>) -> Seq<char>
    decreases s.len(),
{
    if s.len() == 0 {
        Seq::empty()
    } else {
        let c = s.last();
        xml_escaped(s.drop_last()) + if c == '&' {
            "&amp;"@
        } else if c == '<' {
            "&lt;"@
        } else if c == '>' {
            "&gt;"@
        } else if c == '"' {
            "&quot;"@
        } else {
            seq![c]
        }
    }
}

/// `s` with `&`, `<`, `>` and `"` replaced by their XML entities.
pub fn xml_escape(s: &str) -> (r: String)
    ensures
        r@ == xml_escaped(s@),
{
    let c = crate::text::chars_of(s);
    let mut r = String::new();
    let mut i: usize = 0;
    while i < c.len()
        invariant
            i <= c@.len(),
            c@ == s@,
            r@ == xml_escaped(c@.take(i as int)),
        decreases c.len() - i,
    {
        let ghost before = r@;
        let x = c[i];
        if x == '&' {
            r.append("&amp;");
        } else if x == '<' {
            r.append("&lt;");
        } else if x == '>' {
            r.append("&gt;");
        } else if x == '"' {
            r.append("&quot;");
        } else {
            crate::text::push_char(&mut r, x);
        }
        assert(c@.take(i + 1).drop_last() =~= c@.take(i as int));
        assert(c@.take(i + 1).last() == x);
        i += 1;
    }
    assert(c@.take(c@.len() as int) =~= c@);
    r
}

} // verus!
