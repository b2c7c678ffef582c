//! Elaboration of modular source documents into globally addressed objects: identities,
//! block ids and printed references.
use crate::diagnostic::{Diagnostic, Severity};
use crate::rules::contains_string;
use crate::text::{chars_of, lemma_views_push, numbered, same_text, string_of_range, text3, text5, views};
use vstd::prelude::*;

verus! {

/// `local` qualified by the block path `prefix`.
pub open spec fn qualified(prefix: Seq<char>, local: Seq<char>) -> Seq<char> {
    if prefix.len() == 0 {
        local
    } else {
        prefix + "/"@ + local
    }
}

/// The global identity of `local` inside the block `prefix`.
pub fn qualify(prefix: &str, local: &str) -> (r: String)
    ensures
        r@ == qualified(prefix@, local@),
{
    if prefix.is_empty() {
        local.to_owned()
    } else {
        text3(prefix, "/", local)
    }
}

/// Parts and private nets of different instances never share a global identity: under one
/// parent, two distinct instance ids qualify every local name into disjoint namespaces, so a
/// module can be instantiated repeatedly.
pub proof fn law_instances_are_private(parent: Seq<char>, a: Seq<char>, b: Seq<char>, x: Seq<char>, y: Seq<char>)
    requires
        block_id(a),
        block_id(b),
        a != b,
    ensures
        qualified(qualified(parent, a), x) != qualified(qualified(parent, b), y),
{
    reveal_strlit("/");
    let pre: Seq<char> = if parent.len() == 0 {
        Seq::empty()
    } else {
        parent + seq!['/']
    };
    let s1 = qualified(qualified(parent, a), x);
    let s2 = qualified(qualified(parent, b), y);
    assert(qualified(parent, a) =~= pre + a);
    assert(qualified(parent, b) =~= pre + b);
    assert(s1 =~= pre + a + seq!['/'] + x);
    assert(s2 =~= pre + b + seq!['/'] + y);
    let n: int = pre.len() as int;
    if s1 == s2 {
        if a.len() < b.len() {
            assert(s1[n + a.len() as int] == '/');
            assert(s2[n + a.len() as int] == b[a.len() as int]);
            assert(id_char(b[a.len() as int]));
        } else if b.len() < a.len() {
            assert(s2[n + b.len() as int] == '/');
            assert(s1[n + b.len() as int] == a[b.len() as int]);
            assert(id_char(a[b.len() as int]));
        } else {
            assert forall|k: int| 0 <= k < a.len() implies a[k] == b[k] by {
                assert(s1[n + k] == a[k]);
                assert(s2[n + k] == b[k]);
            }
            assert(a =~= b);
        }
    }
}

/// Whether `c` may appear in a block or part id.
pub open spec fn id_char(c: char) -> bool {
    ('a' <= c <= 'z') || ('A' <= c <= 'Z') || ('0' <= c <= '9') || c == '_' || c == '-'
}

/// Whether a block id is nonempty and made of ASCII letters, digits, '_' and '-'.
pub open spec fn block_id(id: Seq<char>) -> bool {
    id.len() > 0 && forall|k: int| 0 <= k < id.len() ==> id_char(#[trigger] id[k])
}

/// Whether `id` can name a part or an instance.
pub fn valid_block_id(id: &str) -> (r: bool)
    ensures
        r == block_id(id@),
{
    let c = chars_of(id);
    if c.len() == 0 {
        return false;
    }
    let mut i: usize = 0;
    while i < c.len()
        invariant
            i <= c@.len(),
            c@ == id@,
            forall|k: int| 0 <= k < i ==> id_char(#[trigger] c@[k]),
        decreases c.len() - i,
    {
        let x = c[i];
        if !(('a' <= x && x <= 'z') || ('A' <= x && x <= 'Z') || ('0' <= x && x <= '9') || x == '_' || x == '-') {
            return false;
        }
        i += 1;
    }
    true
}

} // verus!

verus! {

/// The printed reference `prefix` followed by the number `n`.
pub open spec fn candidate(prefix: Seq<char>, n: nat) -> Seq<char> {
    prefix + crate::text::decimal(n)
}

proof fn lemma_decimal_len(n: nat)
    ensures
        crate::text::decimal(n).len() >= 1,
        n >= 10 ==> crate::text::decimal(n).len() >= 2,
    decreases n,
{
    if n >= 10 {
        lemma_decimal_len(n / 10);
    }
}

proof fn lemma_digit_char_injective(a: nat, b: nat)
    requires
        a < 10,
        b < 10,
        crate::text::digit_char(a) == crate::text::digit_char(b),
    ensures
        a == b,
{
    assert(crate::text::digit_char(a) as u32 == 48 + a);
    assert(crate::text::digit_char(b) as u32 == 48 + b);
}

/// Different numbers have different decimal texts.
proof fn lemma_decimal_injective(a: nat, b: nat)
    requires
        crate::text::decimal(a) == crate::text::decimal(b),
    ensures
        a == b,
    decreases a,
{
    lemma_decimal_len(a);
    lemma_decimal_len(b);
    let da = crate::text::decimal(a);
    let db = crate::text::decimal(b);
    if a < 10 && b < 10 {
        assert(da == seq![crate::text::digit_char(a)]);
        assert(db == seq![crate::text::digit_char(b)]);
        assert(da[0] == crate::text::digit_char(a));
        assert(db[0] == crate::text::digit_char(b));
        assert(da[0] == db[0]);
        lemma_digit_char_injective(a, b);
    } else if a >= 10 && b >= 10 {
        assert(da == crate::text::decimal(a / 10).push(crate::text::digit_char(a % 10)));
        assert(db == crate::text::decimal(b / 10).push(crate::text::digit_char(b % 10)));
        assert(da.last() == db.last());
        assert(da.last() == crate::text::digit_char(a % 10));
        assert(db.last() == crate::text::digit_char(b % 10));
        lemma_digit_char_injective(a % 10, b % 10);
        assert(da.drop_last() =~= crate::text::decimal(a / 10));
        assert(db.drop_last() =~= crate::text::decimal(b / 10));
        lemma_decimal_injective(a / 10, b / 10);
    }
}

/// Among the numbers `1..=used.len() + 1` some candidate is not yet used.
proof fn lemma_some_number_free(used: Seq<Seq<char>>, prefix: Seq<char>)
    ensures
        exists|n: nat| 1 <= n <= used.len() + 1 && !used.contains(#[trigger] candidate(prefix, n)),
{
    if forall|n: nat| 1 <= n <= used.len() + 1 ==> used.contains(#[trigger] candidate(prefix, n)) {
        let m: int = used.len() as int + 1;
        let x = vstd::set_lib::set_int_range(1, m + 1);
        vstd::set_lib::lemma_int_range(1, m + 1);
        let f = |i: int| candidate(prefix, i as nat);
        assert(vstd::relations::injective_on(f, x)) by {
            assert forall|i: int, j: int| x.contains(i) && x.contains(j) && #[trigger] f(i) == #[trigger] f(j) implies i == j by {
                assert(candidate(prefix, i as nat).skip(prefix.len() as int) =~= crate::text::decimal(i as nat));
                assert(candidate(prefix, j as nat).skip(prefix.len() as int) =~= crate::text::decimal(j as nat));
                lemma_decimal_injective(i as nat, j as nat);
            }
        }
        let y = x.map(f);
        vstd::set_lib::lemma_map_size(x, y, f);
        assert(y.subset_of(used.to_set())) by {
            assert forall|s: Seq<char>| y.contains(s) implies used.to_set().contains(s) by {
                let i = choose|i: int| x.contains(i) && f(i) == s;
                assert(used.contains(candidate(prefix, i as nat)));
            }
        }
        used.lemma_cardinality_of_set();
        vstd::set_lib::lemma_len_subset(y, used.to_set());
        assert(false);
    }
}

} // verus!

verus! {

/// A part as the printed-reference pass sees it: its global id, its printed reference (empty
/// when the author left it to the compiler) and its reference prefix.
#[derive(Debug)]
pub struct PartRef {
    pub id: String,
    pub reference: String,
    pub prefix: String,
}

/// The plain value of a part for reference numbering.
pub struct RefV {
    pub id: Seq<char>,
    pub reference: Seq<char>,
    pub prefix: Seq<char>,
}

impl View for PartRef {
    type V = RefV;

    open spec fn view(&self) -> RefV {
        RefV { id: self.id@, reference: self.reference@, prefix: self.prefix@ }
    }
}

/// The plain values of parts.
pub open spec fn ref_views(parts: Seq<PartRef>) -> Seq<RefV> {
    parts.map_values(|p: PartRef| p@)
}

/// The references of the parts, in order.
pub open spec fn ref_list(parts: Seq<RefV>) -> Seq<Seq<char>> {
    parts.map_values(|p: RefV| p.reference)
}

/// The ids of the parts, in order.
pub open spec fn id_list(parts: Seq<RefV>) -> Seq<Seq<char>> {
    parts.map_values(|p: RefV| p.id)
}

/// The printed (nonempty) references of the first `n` parts, in order.
pub open spec fn printed_upto(parts: Seq<RefV>, n: nat) -> Seq<Seq<char>>
    decreases n,
{
    if n == 0 {
        Seq::empty()
    } else {
        let r = parts[n - 1].reference;
        printed_upto(parts, (n - 1) as nat) + if r.len() > 0 {
            seq![r]
        } else {
            Seq::empty()
        }
    }
}

/// The printed references among the first `n` parts that an earlier part already printed,
/// one entry per repeat.
pub open spec fn repeated_upto(parts: Seq<RefV>, n: nat) -> Seq<Seq<char>>
    decreases n,
{
    if n == 0 {
        Seq::empty()
    } else {
        let r = parts[n - 1].reference;
        repeated_upto(parts, (n - 1) as nat) + if r.len() > 0 && printed_upto(parts, (n - 1) as nat).contains(r) {
            seq![r]
        } else {
            Seq::empty()
        }
    }
}

/// The first number from `n` on whose candidate reference is unused, looking no further than
/// one past the number of used references.
pub open spec fn free_from(used: Seq<Seq<char>>, prefix: Seq<char>, n: nat) -> nat
    decreases used.len() + 1 - n,
{
    if n >= used.len() + 1 {
        n
    } else if !used.contains(candidate(prefix, n)) {
        n
    } else {
        free_from(used, prefix, n + 1)
    }
}

/// The number a new reference with `prefix` gets: the least positive number whose reference
/// is not yet used.
pub open spec fn first_free(used: Seq<Seq<char>>, prefix: Seq<char>) -> nat {
    free_from(used, prefix, 1)
}

/// Index of the first part with id `id` at or after `from`.
pub open spec fn index_of_id(parts: Seq<RefV>, id: Seq<char>, from: int) -> int
    decreases parts.len() - from,
{
    if from < 0 || from >= parts.len() {
        parts.len() as int
    } else if parts[from].id == id {
        from
    } else {
        index_of_id(parts, id, from + 1)
    }
}

/// The used references and the references of all parts after numbering the parts whose ids
/// are the first `k` of `order`.
pub open spec fn numbering(parts: Seq<RefV>, order: Seq<Seq<char>>, k: nat) -> (Seq<Seq<char>>, Seq<Seq<char>>)
    decreases k,
{
    if k == 0 {
        (printed_upto(parts, parts.len()), ref_list(parts))
    } else {
        let (used, refs) = numbering(parts, order, (k - 1) as nat);
        let i = index_of_id(parts, order[k - 1], 0);
        if 0 <= i < parts.len() && refs[i].len() == 0 {
            let r = candidate(parts[i].prefix, first_free(used, parts[i].prefix));
            (used.push(r), refs.update(i, r))
        } else {
            (used, refs)
        }
    }
}

/// The final references: printed ones stay, and the parts without one are numbered in
/// ascending id order, each taking its prefix with the least number not yet used.
pub open spec fn final_refs(parts: Seq<RefV>) -> Seq<Seq<char>> {
    let order = crate::route_workflow::sorted(id_list(parts));
    numbering(parts, order, order.len()).1
}

/// Whether `d` is the error reporting the repeated printed reference `r` of `file`.
pub open spec fn reports_repeat(d: Diagnostic, r: Seq<char>, file: Seq<char>) -> bool {
    &&& d.severity == Severity::Error
    &&& d.code@ == "ID002"@
    &&& d.message@ == "duplicate printed reference '"@ + r + "'"@
    &&& d.file@ == file
    &&& d.span is None
    &&& d.path is None
    &&& d.help is None
    &&& d.related@.len() == 0
}

proof fn lemma_insert_sorted_len(s: Seq<Seq<char>>, x: Seq<char>)
    ensures
        crate::route_workflow::insert_sorted(s, x).len() == s.len() + 1,
    decreases s.len(),
{
    if s.len() > 0 {
        lemma_insert_sorted_len(s.drop_first(), x);
    }
}

proof fn lemma_sorted_len(s: Seq<Seq<char>>)
    ensures
        crate::route_workflow::sorted(s).len() == s.len(),
    decreases s.len(),
{
    if s.len() > 0 {
        lemma_sorted_len(s.drop_last());
        lemma_insert_sorted_len(crate::route_workflow::sorted(s.drop_last()), s.last());
    }
}

fn part_index(parts: &Vec<PartRef>, id: &String) -> (r: usize)
    ensures
        r as int == index_of_id(ref_views(parts@), id@, 0),
{
    let mut i: usize = 0;
    while i < parts.len()
        invariant
            i <= parts@.len(),
            index_of_id(ref_views(parts@), id@, 0) == index_of_id(ref_views(parts@), id@, i as int),
        decreases parts.len() - i,
    {
        if parts[i].id == *id {
            return i;
        }
        i += 1;
    }
    i
}

/// Reports printed references used by more than one part and numbers the parts without a
/// printed reference: in ascending id order, each takes its prefix followed by the least
/// positive number whose reference is not yet used. Returns the final references, part by
/// part, and the errors.
pub fn assign_references(parts: &Vec<PartRef>, file: &str) -> (r: (Vec<String>, Vec<Diagnostic>))
    requires
        parts@.len() < usize::MAX / 2,
    ensures
        views(r.0@) == final_refs(ref_views(parts@)),
        r.1@.len() == repeated_upto(ref_views(parts@), parts@.len()).len(),
        forall|k: int|
            0 <= k < r.1@.len() ==> reports_repeat(#[trigger] r.1@[k], repeated_upto(ref_views(parts@), parts@.len())[k], file@),
{
    let mut used: Vec<String> = Vec::new();
    let mut refs: Vec<String> = Vec::new();
    let mut ids: Vec<String> = Vec::new();
    let mut diags: Vec<Diagnostic> = Vec::new();
    let mut i: usize = 0;
    while i < parts.len()
        invariant
            i <= parts@.len(),
            views(used@) == printed_upto(ref_views(parts@), i as nat),
            views(refs@) == ref_list(ref_views(parts@)).take(i as int),
            views(ids@) == id_list(ref_views(parts@)).take(i as int),
            diags@.len() == repeated_upto(ref_views(parts@), i as nat).len(),
            forall|k: int|
                0 <= k < diags@.len() ==> reports_repeat(#[trigger] diags@[k], repeated_upto(ref_views(parts@), i as nat)[k], file@),
            used@.len() <= i,
        decreases parts.len() - i,
    {
        let p = &parts[i];
        let ghost rv = p.reference@;
        let ghost before_used = used@;
        let ghost before_diags = diags@;
        if !p.reference.as_str().is_empty() {
            if contains_string(&used, p.reference.as_str()) {
                let m = text3("duplicate printed reference '", p.reference.as_str(), "'");
                diags.push(Diagnostic::error("ID002", m.as_str(), file));
            }
            used.push(p.reference.clone());
            proof {
                lemma_views_push(before_used, used@.last());
            }
        }
        let ghost before_refs = refs@;
        refs.push(p.reference.clone());
        let ghost before_ids = ids@;
        ids.push(p.id.clone());
        proof {
            lemma_views_push(before_refs, refs@.last());
            lemma_views_push(before_ids, ids@.last());
            assert(views(refs@) =~= ref_list(ref_views(parts@)).take(i + 1));
            assert(views(ids@) =~= id_list(ref_views(parts@)).take(i + 1));
            assert(views(used@) =~= printed_upto(ref_views(parts@), (i + 1) as nat));
            assert forall|k: int| 0 <= k < diags@.len() implies reports_repeat(
                #[trigger] diags@[k],
                repeated_upto(ref_views(parts@), (i + 1) as nat)[k],
                file@,
            ) by {
                if k < before_diags.len() {
                    assert(diags@[k] == before_diags[k]);
                    assert(repeated_upto(ref_views(parts@), (i + 1) as nat)[k] == repeated_upto(ref_views(parts@), i as nat)[k]);
                }
            }
        }
        i += 1;
    }
    assert(ref_list(ref_views(parts@)).take(parts@.len() as int) =~= ref_list(ref_views(parts@)));
    assert(id_list(ref_views(parts@)).take(parts@.len() as int) =~= id_list(ref_views(parts@)));
    let mut order: Vec<String> = Vec::new();
    let mut t: usize = 0;
    while t < ids.len()
        invariant
            t <= ids@.len(),
            views(order@) == crate::route_workflow::sorted(views(ids@).take(t as int)),
        decreases ids.len() - t,
    {
        order = crate::route_workflow::insert_sorted_exec(order, ids[t].clone());
        assert(views(ids@).take(t + 1).drop_last() =~= views(ids@).take(t as int));
        t += 1;
    }
    assert(views(ids@).take(ids@.len() as int) =~= views(ids@));
    let ghost ord = crate::route_workflow::sorted(id_list(ref_views(parts@)));
    assert(views(order@) == ord);
    proof {
        lemma_sorted_len(id_list(ref_views(parts@)));
    }
    let mut k: usize = 0;
    while k < order.len()
        invariant
            k <= order@.len(),
            views(order@) == ord,
            parts@.len() < usize::MAX / 2,
            refs@.len() == parts@.len(),
            used@.len() <= parts@.len() + k,
            order@.len() == ids@.len(),
            ids@.len() == parts@.len(),
            (views(used@), views(refs@)) == numbering(ref_views(parts@), ord, k as nat),
        decreases order.len() - k,
    {
        let idx = part_index(parts, &order[k]);
        assert(ord[k as int] == order@[k as int]@);
        if idx < parts.len() && refs[idx].as_str().is_empty() {
            let prefix = parts[idx].prefix.as_str();
            let ghost uv = views(used@);
            let mut n: usize = 1;
            let mut cand = numbered(prefix, n, "");
            proof {
                reveal_strlit("");
                assert(cand@ =~= candidate(prefix@, n as nat));
            }
            assert(free_from(uv, prefix@, 1) == free_from(uv, prefix@, n as nat));
            while n <= used.len() && contains_string(&used, cand.as_str())
                invariant
                    1 <= n <= used@.len() + 1,
                    used@.len() < usize::MAX,
                    uv == views(used@),
                    cand@ == candidate(prefix@, n as nat),
                    free_from(uv, prefix@, 1) == free_from(uv, prefix@, n as nat),
                decreases used@.len() + 1 - n,
            {
                n += 1;
                cand = numbered(prefix, n, "");
                proof {
                    reveal_strlit("");
                    assert(cand@ =~= candidate(prefix@, n as nat));
                }
            }
            assert(free_from(uv, prefix@, n as nat) == n as nat);
            let ghost before_used = used@;
            used.push(cand.clone());
            proof {
                lemma_views_push(before_used, used@.last());
            }
            let ghost before_refs = refs@;
            refs.set(idx, cand);
            proof {
                assert(views(refs@) =~= views(before_refs).update(idx as int, candidate(prefix@, n as nat)));
            }
        }
        k += 1;
    }
    assert(ord.len() == order@.len());
    (refs, diags)
}

} // verus!

verus! {

proof fn lemma_free_from(used: Seq<Seq<char>>, prefix: Seq<char>, n: nat)
    requires
        1 <= n <= used.len() + 1,
        forall|m: nat| 1 <= m < n ==> used.contains(#[trigger] candidate(prefix, m)),
    ensures
        free_from(used, prefix, n) >= 1,
        !used.contains(candidate(prefix, free_from(used, prefix, n))),
        forall|m: nat| 1 <= m < free_from(used, prefix, n) ==> used.contains(#[trigger] candidate(prefix, m)),
    decreases used.len() + 1 - n,
{
    if n >= used.len() + 1 {
        lemma_some_number_free(used, prefix);
        let m = choose|m: nat| 1 <= m <= used.len() + 1 && !used.contains(#[trigger] candidate(prefix, m));
        if m < n {
            assert(used.contains(candidate(prefix, m)));
        }
    } else if used.contains(candidate(prefix, n)) {
        lemma_free_from(used, prefix, n + 1);
    }
}

/// The number a new reference gets is free, and every smaller positive number is taken.
pub proof fn lemma_first_free(used: Seq<Seq<char>>, prefix: Seq<char>)
    ensures
        first_free(used, prefix) >= 1,
        !used.contains(candidate(prefix, first_free(used, prefix))),
        forall|m: nat| 1 <= m < first_free(used, prefix) ==> used.contains(#[trigger] candidate(prefix, m)),
{
    lemma_free_from(used, prefix, 1);
}

/// What numbering keeps true: every reference is recorded as used, only printed references
/// can coincide, and parts keep their printed reference.
pub open spec fn numbering_sound(parts: Seq<RefV>, used: Seq<Seq<char>>, refs: Seq<Seq<char>>) -> bool {
    &&& refs.len() == parts.len()
    &&& forall|x: int| 0 <= x < refs.len() && refs[x].len() > 0 ==> used.contains(#[trigger] refs[x])
    &&& forall|x: int| 0 <= x < refs.len() && parts[x].reference.len() > 0 ==> #[trigger] refs[x] == parts[x].reference
    &&& forall|x: int| 0 <= x < refs.len() && refs[x].len() == 0 ==> #[trigger] parts[x].reference.len() == 0
    &&& forall|x: int, y: int|
        0 <= x < refs.len() && 0 <= y < refs.len() && x != y && #[trigger] refs[x] == #[trigger] refs[y] && refs[x].len()
            > 0 ==> parts[x].reference.len() > 0 && parts[y].reference.len() > 0
}

proof fn lemma_printed_contains(parts: Seq<RefV>, n: nat, x: int)
    requires
        0 <= x < n <= parts.len(),
        parts[x].reference.len() > 0,
    ensures
        printed_upto(parts, n).contains(parts[x].reference),
    decreases n,
{
    if x < n - 1 {
        lemma_printed_contains(parts, (n - 1) as nat, x);
        let p = printed_upto(parts, (n - 1) as nat);
        let k = choose|k: int| 0 <= k < p.len() && p[k] == parts[x].reference;
        assert(printed_upto(parts, n)[k] == p[k]);
    } else {
        let p = printed_upto(parts, (n - 1) as nat);
        assert(printed_upto(parts, n)[p.len() as int] == parts[x].reference);
    }
}

proof fn lemma_numbering_sound(parts: Seq<RefV>, order: Seq<Seq<char>>, k: nat)
    requires
        k <= order.len(),
    ensures
        numbering_sound(parts, numbering(parts, order, k).0, numbering(parts, order, k).1),
    decreases k,
{
    if k == 0 {
        let refs = ref_list(parts);
        let used = printed_upto(parts, parts.len());
        assert forall|x: int| 0 <= x < refs.len() && refs[x].len() > 0 implies used.contains(#[trigger] refs[x]) by {
            lemma_printed_contains(parts, parts.len(), x);
        }
    } else {
        lemma_numbering_sound(parts, order, (k - 1) as nat);
        let (used, refs) = numbering(parts, order, (k - 1) as nat);
        let i = index_of_id(parts, order[k - 1], 0);
        if 0 <= i < parts.len() && refs[i].len() == 0 {
            let prefix = parts[i].prefix;
            let r = candidate(prefix, first_free(used, prefix));
            lemma_first_free(used, prefix);
            crate::modules::lemma_decimal_len(first_free(used, prefix));
            assert(r.len() > 0);
            let used2 = used.push(r);
            let refs2 = refs.update(i, r);
            assert forall|x: int| 0 <= x < refs2.len() && refs2[x].len() > 0 implies used2.contains(#[trigger] refs2[x]) by {
                if x == i {
                    assert(used2[used.len() as int] == r);
                } else {
                    assert(used.contains(refs[x]));
                    let t = choose|t: int| 0 <= t < used.len() && used[t] == refs[x];
                    assert(used2[t] == refs[x]);
                }
            }
            assert forall|x: int, y: int|
                0 <= x < refs2.len() && 0 <= y < refs2.len() && x != y && #[trigger] refs2[x] == #[trigger] refs2[y]
                    && refs2[x].len() > 0 implies parts[x].reference.len() > 0 && parts[y].reference.len() > 0 by {
                if x == i {
                    assert(used.contains(refs[y]));
                } else if y == i {
                    assert(used.contains(refs[x]));
                } else {
                    assert(refs2[x] == refs[x] && refs2[y] == refs[y]);
                }
            }
        }
    }
}

/// Numbering gives every part one reference.
pub proof fn lemma_final_refs_len(parts: Seq<RefV>)
    ensures
        final_refs(parts).len() == parts.len(),
{
    let order = crate::route_workflow::sorted(id_list(parts));
    lemma_numbering_sound(parts, order, order.len());
}

/// A part that prints a reference keeps it.
pub proof fn law_printed_references_are_kept(parts: Seq<RefV>, i: int)
    requires
        0 <= i < parts.len(),
        parts[i].reference.len() > 0,
    ensures
        final_refs(parts)[i] == parts[i].reference,
{
    let order = crate::route_workflow::sorted(id_list(parts));
    lemma_numbering_sound(parts, order, order.len());
}

/// Numbering never makes two parts share a reference: two parts end with the same reference
/// only when both printed it.
pub proof fn law_numbering_creates_no_collision(parts: Seq<RefV>, i: int, j: int)
    requires
        0 <= i < parts.len(),
        0 <= j < parts.len(),
        i != j,
        final_refs(parts)[i] == final_refs(parts)[j],
        final_refs(parts)[i].len() > 0,
    ensures
        parts[i].reference.len() > 0,
        parts[j].reference.len() > 0,
{
    let order = crate::route_workflow::sorted(id_list(parts));
    lemma_numbering_sound(parts, order, order.len());
    let refs = final_refs(parts);
    assert(refs[i] == refs[j]);
}

} // verus!

verus! {

/// The terminal aliases of a part: alias name to physical terminal.
#[derive(Debug)]
pub struct PartAliases {
    pub id: String,
    pub aliases: Vec<(String, String)>,
}

/// The plain value of a part's aliases: its id and its alias-to-terminal pairs.
pub open spec fn alias_views(parts: Seq<PartAliases>) -> Seq<(Seq<char>, Seq<(Seq<char>, Seq<char>)>)> {
    parts.map_values(|p: PartAliases| (p.id@, pair_views(p.aliases@)))
}

/// Index of the first part with id `id` at or after `from`.
pub open spec fn alias_part(parts: Seq<(Seq<char>, Seq<(Seq<char>, Seq<char>)>)>, id: Seq<char>, from: int) -> Option<int>
    decreases parts.len() - from,
{
    if from < 0 || from >= parts.len() {
        None
    } else if parts[from].0 == id {
        Some(from)
    } else {
        alias_part(parts, id, from + 1)
    }
}

/// The value of the first entry with key `key` at or after `from`.
pub open spec fn lookup(entries: Seq<(String, String)>, key: Seq<char>, from: int) -> Option<Seq<char>>
    decreases entries.len() - from,
{
    if from < 0 || from >= entries.len() {
        None
    } else if entries[from].0@ == key {
        Some(entries[from].1@)
    } else {
        lookup(entries, key, from + 1)
    }
}

/// An endpoint `ID.TERMINAL` with a terminal alias of its part replaced by the physical
/// terminal; the split is at the last `.`, and endpoints of unknown parts are kept.
pub open spec fn canonical(parts: Seq<(Seq<char>, Seq<(Seq<char>, Seq<char>)>)>, e: Seq<char>) -> Seq<char> {
    match crate::library::last_index(e, '.', e.len() as int) {
        Some(k) => {
            let id = e.take(k);
            let t = e.skip(k + 1);
            match alias_part(parts, id, 0) {
                Some(p) => id + "."@ + match key_index(parts[p].1, t, 0) {
                    Some(j) => parts[p].1[j].1,
                    None => t,
                },
                None => e,
            }
        },
        None => e,
    }
}

fn lookup_exec(entries: &Vec<(String, String)>, key: &str) -> (r: Option<String>)
    ensures
        match lookup(entries@, key@, 0) {
            Some(v) => r matches Some(s) && s@ == v,
            None => r is None,
        },
{
    let mut i: usize = 0;
    while i < entries.len()
        invariant
            i <= entries@.len(),
            lookup(entries@, key@, 0) == lookup(entries@, key@, i as int),
        decreases entries.len() - i,
    {
        if same_text(entries[i].0.as_str(), key) {
            return Some(entries[i].1.clone());
        }
        i += 1;
    }
    None
}

/// The endpoint with a terminal alias replaced by its physical terminal.
pub fn canonical_endpoint(parts: &Vec<PartAliases>, endpoint: &str) -> (r: String)
    ensures
        r@ == canonical(alias_views(parts@), endpoint@),
{
    let c = chars_of(endpoint);
    let mut k: usize = c.len();
    while k > 0 && c[k - 1] != '.'
        invariant
            k <= c@.len(),
            c@ == endpoint@,
            crate::library::last_index(c@, '.', c@.len() as int) == crate::library::last_index(c@, '.', k as int),
        decreases k,
    {
        k -= 1;
    }
    if k == 0 {
        return endpoint.to_owned();
    }
    let dot = k - 1;
    let id = string_of_range(c.as_slice(), 0, dot);
    let terminal = string_of_range(c.as_slice(), dot + 1, c.len());
    assert(id@ =~= endpoint@.take(dot as int));
    assert(terminal@ =~= endpoint@.skip(dot + 1));
    let mut p: usize = 0;
    while p < parts.len()
        invariant
            p <= parts@.len(),
            alias_part(alias_views(parts@), id@, 0) == alias_part(alias_views(parts@), id@, p as int),
            id@ == endpoint@.take(dot as int),
            terminal@ == endpoint@.skip(dot + 1),
            crate::library::last_index(endpoint@, '.', endpoint@.len() as int) == Some(dot as int),
        decreases parts.len() - p,
    {
        assert(alias_views(parts@)[p as int] == (parts@[p as int].id@, pair_views(parts@[p as int].aliases@)));
        if same_text(parts[p].id.as_str(), id.as_str()) {
            proof {
                lemma_lookup_views(parts@[p as int].aliases@, terminal@, 0);
            }
            let physical = match lookup_exec(&parts[p].aliases, terminal.as_str()) {
                Some(v) => v,
                None => terminal,
            };
            return text3(id.as_str(), ".", physical.as_str());
        }
        p += 1;
    }
    endpoint.to_owned()
}

/// Whether `d` is the plain error `code: message` about `file`, without location or help.
pub open spec fn plain_error(d: Diagnostic, code: Seq<char>, message: Seq<char>, file: Seq<char>) -> bool {
    &&& d.severity == Severity::Error
    &&& d.code@ == code
    &&& d.message@ == message
    &&& d.file@ == file
    &&& d.span is None
    &&& d.path is None
    &&& d.help is None
    &&& d.related@.len() == 0
}

/// Whether `ds` are the plain errors `(code, message)` of `file`, in order.
pub open spec fn plain_errors(ds: Seq<Diagnostic>, is: Seq<(Seq<char>, Seq<char>)>, file: Seq<char>) -> bool {
    &&& ds.len() == is.len()
    &&& forall|k: int| 0 <= k < is.len() ==> plain_error(#[trigger] ds[k], is[k].0, is[k].1, file)
}

fn push_error(out: &mut Vec<Diagnostic>, Ghost(before): Ghost<Seq<(Seq<char>, Seq<char>)>>, code: &str, message: &str, file: &str)
    requires
        plain_errors(old(out)@, before, file@),
    ensures
        plain_errors(final(out)@, before.push((code@, message@)), file@),
{
    let ghost prev = out@;
    out.push(Diagnostic::error(code, message, file));
    assert forall|k: int| 0 <= k < before.push((code@, message@)).len() implies plain_error(
        #[trigger] out@[k],
        before.push((code@, message@))[k].0,
        before.push((code@, message@))[k].1,
        file@,
    ) by {
        if k < before.len() {
            assert(out@[k] == prev[k]);
        }
    }
}

/// Whether a reference prefix is nonempty ASCII letters.
pub open spec fn prefix_ok(prefix: Seq<char>) -> bool {
    prefix.len() > 0 && forall|k: int| 0 <= k < prefix.len() ==> ('a' <= #[trigger] prefix[k] <= 'z' || 'A' <= prefix[k] <= 'Z')
}

/// Whether a printed reference is its prefix followed by a positive integer.
pub open spec fn reference_ok(prefix: Seq<char>, r: Seq<char>) -> bool {
    r.len() >= prefix.len() && r.take(prefix.len() as int) == prefix && match crate::text::parsed_u32(r.skip(prefix.len() as int)) {
        Some(n) => n > 0,
        None => false,
    }
}

/// Whether a terminal alias is unusable: empty, all digits, containing `.` or `/`, or naming
/// no terminal.
pub open spec fn alias_bad(alias: Seq<char>, terminal: Seq<char>) -> bool {
    alias.len() == 0 || crate::text::all_digit_chars(alias) || alias.contains('.') || alias.contains('/') || terminal.len() == 0
}

/// The alias findings for the first `n` terminal aliases.
pub open spec fn alias_issues(terminals: Seq<(String, String)>, n: nat) -> Seq<(Seq<char>, Seq<char>)>
    decreases n,
{
    if n == 0 {
        Seq::empty()
    } else {
        let (a, t) = terminals[n - 1];
        alias_issues(terminals, (n - 1) as nat) + if alias_bad(a@, t@) {
            seq![("ID005"@, "invalid terminal alias '"@ + a@ + "'"@)]
        } else {
            Seq::empty()
        }
    }
}

/// The findings about a part declaration: a bad id or prefix alone, otherwise a malformed
/// printed reference and each unusable terminal alias.
pub open spec fn part_issues(
    id: Seq<char>,
    prefix: Seq<char>,
    reference: Option<Seq<char>>,
    terminals: Seq<(String, String)>,
) -> Seq<(Seq<char>, Seq<char>)> {
    if !block_id(id) || !prefix_ok(prefix) {
        seq![("ID001"@, "invalid part id or reference prefix '"@ + id + "'"@)]
    } else {
        (match reference {
            Some(r) => if reference_ok(prefix, r) {
                Seq::empty()
            } else {
                seq![
                    ("ID004"@, "printed reference '"@ + r + "' must use its prefix followed by a positive integer"@),
                ]
            },
            None => Seq::empty(),
        }) + alias_issues(terminals, terminals.len())
    }
}

pub(crate) fn prefix_valid(prefix: &str) -> (r: bool)
    ensures
        r == prefix_ok(prefix@),
{
    let c = chars_of(prefix);
    if c.len() == 0 {
        return false;
    }
    let mut i: usize = 0;
    while i < c.len()
        invariant
            i <= c@.len(),
            c@ == prefix@,
            forall|k: int| 0 <= k < i ==> ('a' <= #[trigger] c@[k] <= 'z' || 'A' <= c@[k] <= 'Z'),
        decreases c.len() - i,
    {
        let x = c[i];
        if !(('a' <= x && x <= 'z') || ('A' <= x && x <= 'Z')) {
            return false;
        }
        i += 1;
    }
    true
}

fn reference_valid(prefix: &str, r: &str) -> (ok: bool)
    ensures
        ok == reference_ok(prefix@, r@),
{
    let p = chars_of(prefix);
    let c = chars_of(r);
    if c.len() < p.len() {
        return false;
    }
    let head = string_of_range(c.as_slice(), 0, p.len());
    if !same_text(head.as_str(), prefix) {
        assert(head@ =~= r@.take(prefix@.len() as int));
        return false;
    }
    assert(head@ =~= r@.take(prefix@.len() as int));
    let rest = string_of_range(c.as_slice(), p.len(), c.len());
    assert(rest@ =~= r@.skip(prefix@.len() as int));
    match crate::text::parse_u32_text(rest.as_str()) {
        Some(n) => n > 0,
        None => false,
    }
}

fn has_char(s: &str, x: char) -> (r: bool)
    ensures
        r == s@.contains(x),
{
    let c = chars_of(s);
    let mut i: usize = 0;
    while i < c.len()
        invariant
            i <= c@.len(),
            c@ == s@,
            forall|k: int| 0 <= k < i ==> c@[k] != x,
        decreases c.len() - i,
    {
        if c[i] == x {
            return true;
        }
        i += 1;
    }
    false
}

fn all_digits_text(s: &str) -> (r: bool)
    ensures
        r == crate::text::all_digit_chars(s@),
{
    let c = chars_of(s);
    let mut i: usize = 0;
    while i < c.len()
        invariant
            i <= c@.len(),
            c@ == s@,
            forall|k: int| 0 <= k < i ==> '0' <= #[trigger] c@[k] <= '9',
        decreases c.len() - i,
    {
        if !('0' <= c[i] && c[i] <= '9') {
            return false;
        }
        i += 1;
    }
    true
}

/// The errors about one part declaration of `file`: its id and prefix, its printed
/// reference, and its terminal aliases.
pub fn check_part(
    id: &str,
    prefix: &str,
    reference: Option<&str>,
    terminals: &Vec<(String, String)>,
    file: &str,
) -> (r: Vec<Diagnostic>)
    ensures
        plain_errors(r@, part_issues(id@, prefix@, crate::routing::text_view(reference), terminals@), file@),
{
    let mut out: Vec<Diagnostic> = Vec::new();
    if !valid_block_id(id) || !prefix_valid(prefix) {
        let m = text3("invalid part id or reference prefix '", id, "'");
        push_error(&mut out, Ghost(Seq::empty()), "ID001", m.as_str(), file);
        assert(Seq::<(Seq<char>, Seq<char>)>::empty().push(("ID001"@, m@)) =~= part_issues(
            id@,
            prefix@,
            crate::routing::text_view(reference),
            terminals@,
        ));
        return out;
    }
    let ghost head: Seq<(Seq<char>, Seq<char>)> = match crate::routing::text_view(reference) {
        Some(r) => if reference_ok(prefix@, r) {
            Seq::empty()
        } else {
            seq![("ID004"@, "printed reference '"@ + r + "' must use its prefix followed by a positive integer"@)]
        },
        None => Seq::empty(),
    };
    match reference {
        Some(r) => {
            if !reference_valid(prefix, r) {
                let m = text3("printed reference '", r, "' must use its prefix followed by a positive integer");
                push_error(&mut out, Ghost(Seq::empty()), "ID004", m.as_str(), file);
                assert(Seq::<(Seq<char>, Seq<char>)>::empty().push(("ID004"@, m@)) =~= head);
            }
        },
        None => {},
    }
    let mut i: usize = 0;
    assert(head =~= head + alias_issues(terminals@, 0));
    while i < terminals.len()
        invariant
            i <= terminals@.len(),
            plain_errors(out@, head + alias_issues(terminals@, i as nat), file@),
        decreases terminals.len() - i,
    {
        let (alias, terminal) = &terminals[i];
        let bad = alias.as_str().is_empty() || all_digits_text(alias.as_str()) || has_char(alias.as_str(), '.') || has_char(
            alias.as_str(),
            '/',
        ) || terminal.as_str().is_empty();
        let ghost acc = head + alias_issues(terminals@, i as nat);
        if bad {
            let m = text3("invalid terminal alias '", alias.as_str(), "'");
            push_error(&mut out, Ghost(acc), "ID005", m.as_str(), file);
            assert(acc.push(("ID005"@, m@)) =~= head + alias_issues(terminals@, (i + 1) as nat));
        } else {
            assert(acc =~= head + alias_issues(terminals@, (i + 1) as nat));
        }
        i += 1;
    }
    out
}

/// The findings about a local net declaration: a bad name, then each endpoint that is not
/// `PART.TERMINAL` of a part of the same circuit.
pub open spec fn net_decl_issues(name: Seq<char>, endpoints: Seq<String>, parts: Seq<Seq<char>>, n: nat) -> Seq<
    (Seq<char>, Seq<char>),
>
    decreases n,
{
    if n == 0 {
        if name.len() == 0 || name.contains('/') {
            seq![("NET008"@, "local net names must be nonempty and cannot contain '/'"@)]
        } else {
            Seq::empty()
        }
    } else {
        let e = endpoints[n - 1]@;
        let bad = match crate::validate::first_dot(e, 0) {
            Some(k) => e.skip(k + 1).len() == 0 || !parts.contains(e.take(k)),
            None => true,
        };
        net_decl_issues(name, endpoints, parts, (n - 1) as nat) + if bad {
            seq![("NET009"@, "'"@ + e + "' is not a local part terminal; connect instances through their ports"@)]
        } else {
            Seq::empty()
        }
    }
}

/// The errors about one local net declaration of `file`; `parts` are the ids of the parts of
/// the same circuit.
pub fn check_net_declaration(name: &str, endpoints: &Vec<String>, parts: &Vec<String>, file: &str) -> (r: Vec<Diagnostic>)
    ensures
        plain_errors(r@, net_decl_issues(name@, endpoints@, views(parts@), endpoints@.len()), file@),
{
    let mut out: Vec<Diagnostic> = Vec::new();
    if name.is_empty() || has_char(name, '/') {
        push_error(&mut out, Ghost(Seq::empty()), "NET008", "local net names must be nonempty and cannot contain '/'", file);
        assert(Seq::<(Seq<char>, Seq<char>)>::empty().push(
            ("NET008"@, "local net names must be nonempty and cannot contain '/'"@),
        ) =~= net_decl_issues(name@, endpoints@, views(parts@), 0));
    } else {
        assert(out@.len() == 0);
    }
    let mut i: usize = 0;
    while i < endpoints.len()
        invariant
            i <= endpoints@.len(),
            plain_errors(out@, net_decl_issues(name@, endpoints@, views(parts@), i as nat), file@),
        decreases endpoints.len() - i,
    {
        let e = endpoints[i].as_str();
        let c = chars_of(e);
        let mut k: usize = 0;
        while k < c.len() && c[k] != '.'
            invariant
                k <= c@.len(),
                c@ == e@,
                crate::validate::first_dot(c@, 0) == crate::validate::first_dot(c@, k as int),
            decreases c.len() - k,
        {
            k += 1;
        }
        let bad = if k >= c.len() {
            true
        } else {
            let part = string_of_range(c.as_slice(), 0, k);
            assert(part@ =~= e@.take(k as int));
            assert(e@.skip(k + 1).len() == c@.len() - k - 1);
            k + 1 >= c.len() || !contains_string(parts, part.as_str())
        };
        let ghost acc = net_decl_issues(name@, endpoints@, views(parts@), i as nat);
        if bad {
            let m = text3("'", e, "' is not a local part terminal; connect instances through their ports");
            push_error(&mut out, Ghost(acc), "NET009", m.as_str(), file);
            assert(acc.push(("NET009"@, m@)) =~= net_decl_issues(name@, endpoints@, views(parts@), (i + 1) as nat));
        } else {
            assert(acc =~= net_decl_issues(name@, endpoints@, views(parts@), (i + 1) as nat));
        }
        i += 1;
    }
    out
}

} // verus!

verus! {

/// The net a port connection `target` names inside block `prefix`: the parent's binding of
/// that net, or the net qualified by the block path.
pub open spec fn bound_net(parent: Seq<(Seq<char>, Seq<char>)>, prefix: Seq<char>, target: Seq<char>) -> Seq<char> {
    match key_index(parent, target, 0) {
        Some(i) => parent[i].1,
        None => qualified(prefix, target),
    }
}

proof fn lemma_lookup_views(p: Seq<(String, String)>, k: Seq<char>, from: int)
    requires
        0 <= from,
    ensures
        lookup(p, k, from) == match key_index(pair_views(p), k, from) {
            Some(i) => Some(pair_views(p)[i].1),
            None => None::<Seq<char>>,
        },
        key_index(pair_views(p), k, from) matches Some(i) ==> from <= i < p.len(),
    decreases p.len() - from,
{
    if from < p.len() {
        assert(pair_views(p)[from] == (p[from].0@, p[from].1@));
        lemma_lookup_views(p, k, from + 1);
    }
}

/// Index of the binding of `key` at or after `from`.
pub open spec fn key_index(m: Seq<(Seq<char>, Seq<char>)>, key: Seq<char>, from: int) -> Option<int>
    decreases m.len() - from,
{
    if from < 0 || from >= m.len() {
        None
    } else if m[from].0 == key {
        Some(from)
    } else {
        key_index(m, key, from + 1)
    }
}

/// An insertion-ordered map after `insert(key, value)`: an existing key keeps its place and
/// takes the new value.
pub open spec fn map_insert(m: Seq<(Seq<char>, Seq<char>)>, key: Seq<char>, value: Seq<char>) -> Seq<(Seq<char>, Seq<char>)> {
    match key_index(m, key, 0) {
        Some(i) => m.update(i, (key, value)),
        None => m.push((key, value)),
    }
}

/// A finding of port binding: code, message, and whether it concerns the module file rather
/// than the instantiating file.
pub type PortIssue = (Seq<char>, Seq<char>, bool);

/// The findings about the first `n` connections: each must name a port of the module.
pub open spec fn connection_issues(connections: Seq<(String, String)>, ports: Seq<(String, String)>, n: nat) -> Seq<PortIssue>
    decreases n,
{
    if n == 0 {
        Seq::empty()
    } else {
        let c = connections[n - 1].0@;
        connection_issues(connections, ports, (n - 1) as nat) + if lookup(ports, c, 0) is None {
            seq![("MOD011"@, "unknown port '"@ + c + "'"@, false)]
        } else {
            Seq::empty()
        }
    }
}

/// The bindings from local nets to parent nets and the findings after the first `n` ports.
pub open spec fn port_steps(
    ports: Seq<(String, String)>,
    connections: Seq<(String, String)>,
    local_nets: Seq<Seq<char>>,
    parent: Seq<(Seq<char>, Seq<char>)>,
    prefix: Seq<char>,
    n: nat,
) -> (Seq<(Seq<char>, Seq<char>)>, Seq<PortIssue>)
    decreases n,
{
    if n == 0 {
        (Seq::empty(), Seq::empty())
    } else {
        let (bindings, issues) = port_steps(ports, connections, local_nets, parent, prefix, (n - 1) as nat);
        let port = ports[n - 1].0@;
        let local = ports[n - 1].1@;
        let exposed = if local_nets.contains(local) {
            Seq::empty()
        } else {
            seq![("MOD012"@, "port '"@ + port + "' exposes unknown net '"@ + local + "'"@, true)]
        };
        match lookup(connections, port, 0) {
            Some(target) => {
                let net = bound_net(parent, prefix, target);
                let conflict = match key_index(bindings, local, 0) {
                    Some(i) => bindings[i].1 != net,
                    None => false,
                };
                (
                    map_insert(bindings, local, net),
                    issues + exposed + if conflict {
                        seq![("MOD013"@, "ports on the same net have conflicting bindings"@, false)]
                    } else {
                        Seq::empty()
                    },
                )
            },
            None => (bindings, issues + exposed + seq![("MOD014"@, "missing connection for port '"@ + port + "'"@, false)]),
        }
    }
}

/// Whether `ds` are the plain errors `is`, each about `module_file` or `file` as it says.
pub open spec fn port_errors(ds: Seq<Diagnostic>, is: Seq<PortIssue>, file: Seq<char>, module_file: Seq<char>) -> bool {
    &&& ds.len() == is.len()
    &&& forall|k: int|
        0 <= k < is.len() ==> plain_error(
            #[trigger] ds[k],
            is[k].0,
            is[k].1,
            if is[k].2 {
                module_file
            } else {
                file
            },
        )
}

fn push_port_error(
    out: &mut Vec<Diagnostic>,
    Ghost(before): Ghost<Seq<PortIssue>>,
    code: &str,
    message: &str,
    in_module: bool,
    file: &str,
    module_file: &str,
)
    requires
        port_errors(old(out)@, before, file@, module_file@),
    ensures
        port_errors(final(out)@, before.push((code@, message@, in_module)), file@, module_file@),
{
    let ghost prev = out@;
    let f = if in_module {
        module_file
    } else {
        file
    };
    out.push(Diagnostic::error(code, message, f));
    assert forall|k: int| 0 <= k < before.push((code@, message@, in_module)).len() implies plain_error(
        #[trigger] out@[k],
        before.push((code@, message@, in_module))[k].0,
        before.push((code@, message@, in_module))[k].1,
        if before.push((code@, message@, in_module))[k].2 {
            module_file@
        } else {
            file@
        },
    ) by {
        if k < before.len() {
            assert(out@[k] == prev[k]);
        }
    }
}

/// The plain values of bindings.
pub open spec fn pair_views(v: Seq<(String, String)>) -> Seq<(Seq<char>, Seq<char>)> {
    v.map_values(|p: (String, String)| (p.0@, p.1@))
}

/// Binds the ports of an instantiated module: each connection must name a port (errors about
/// `file`), each port must expose a net of the module (errors about `module_file`) and be
/// connected, and ports exposing the same net must agree on its parent net. Returns the
/// bindings from the module's local nets to parent nets, in first-binding order.
pub fn bind_ports(
    ports: &Vec<(String, String)>,
    connections: &Vec<(String, String)>,
    local_nets: &Vec<String>,
    parent: &Vec<(String, String)>,
    prefix: &str,
    file: &str,
    module_file: &str,
) -> (r: (Vec<(String, String)>, Vec<Diagnostic>))
    ensures
        ({
            let (b, is) = port_steps(ports@, connections@, views(local_nets@), pair_views(parent@), prefix@, ports@.len());
            &&& pair_views(r.0@) == b
            &&& port_errors(
                r.1@,
                connection_issues(connections@, ports@, connections@.len()) + is,
                file@,
                module_file@,
            )
        }),
{
    let mut out: Vec<Diagnostic> = Vec::new();
    let mut i: usize = 0;
    while i < connections.len()
        invariant
            i <= connections@.len(),
            port_errors(out@, connection_issues(connections@, ports@, i as nat), file@, module_file@),
        decreases connections.len() - i,
    {
        let c = connections[i].0.as_str();
        let ghost acc = connection_issues(connections@, ports@, i as nat);
        if lookup_exec(ports, c).is_none() {
            let m = text3("unknown port '", c, "'");
            push_port_error(&mut out, Ghost(acc), "MOD011", m.as_str(), false, file, module_file);
        }
        i += 1;
    }
    let ghost head = connection_issues(connections@, ports@, connections@.len());
    let mut bindings: Vec<(String, String)> = Vec::new();
    let mut k: usize = 0;
    assert(head =~= head + Seq::<PortIssue>::empty());
    assert(pair_views(bindings@) =~= Seq::<(Seq<char>, Seq<char>)>::empty());
    while k < ports.len()
        invariant
            k <= ports@.len(),
            ({
                let (b, is) = port_steps(ports@, connections@, views(local_nets@), pair_views(parent@), prefix@, k as nat);
                &&& pair_views(bindings@) == b
                &&& port_errors(out@, head + is, file@, module_file@)
            }),
        decreases ports.len() - k,
    {
        let port = ports[k].0.as_str();
        let local = ports[k].1.as_str();
        let ghost (b0, is0) = port_steps(ports@, connections@, views(local_nets@), pair_views(parent@), prefix@, k as nat);
        let ghost acc = head + is0;
        let exposed = contains_string(local_nets, local);
        if !exposed {
            let m = text5("port '", port, "' exposes unknown net '", local, "'");
            push_port_error(&mut out, Ghost(acc), "MOD012", m.as_str(), true, file, module_file);
        }
        let ghost ex: Seq<PortIssue> = if views(local_nets@).contains(local@) {
            Seq::empty()
        } else {
            seq![("MOD012"@, "port '"@ + port@ + "' exposes unknown net '"@ + local@ + "'"@, true)]
        };
        assert(port_errors(out@, acc + ex, file@, module_file@)) by {
            if exposed {
                assert(acc + ex =~= acc);
            } else {
                assert(acc.push(("MOD012"@, "port '"@ + port@ + "' exposes unknown net '"@ + local@ + "'"@, true)) =~= acc + ex);
            }
        }
        match lookup_exec(connections, port) {
            Some(target) => {
                let net = match lookup_exec(parent, target.as_str()) {
                    Some(v) => v,
                    None => qualify(prefix, target.as_str()),
                };
                proof {
                    lemma_lookup_views(parent@, target@, 0);
                }
                let mut j: usize = 0;
                while j < bindings.len()
                    invariant
                        j <= bindings@.len(),
                        key_index(pair_views(bindings@), local@, 0) == key_index(pair_views(bindings@), local@, j as int),
                    ensures
                        j <= bindings@.len(),
                        key_index(pair_views(bindings@), local@, 0) == key_index(pair_views(bindings@), local@, j as int),
                        j < bindings@.len() ==> bindings@[j as int].0@ == local@,
                    decreases bindings.len() - j,
                {
                    if same_text(bindings[j].0.as_str(), local) {
                        break;
                    }
                    j += 1;
                }
                assert(forall|t: int| 0 <= t < bindings@.len() ==> #[trigger] pair_views(bindings@)[t] == (bindings@[t].0@, bindings@[t].1@));
                if j < bindings.len() {
                    assert(key_index(pair_views(bindings@), local@, 0) == Some(j as int));
                    let differs = !same_text(bindings[j].1.as_str(), net.as_str());
                    let ghost before_b = bindings@;
                    bindings.set(j, (local.to_owned(), net));
                    assert(pair_views(bindings@) =~= map_insert(b0, local@, bindings@[j as int].1@));
                    if differs {
                        push_port_error(&mut out, Ghost(acc + ex), "MOD013", "ports on the same net have conflicting bindings", false, file, module_file);
                        assert((acc + ex).push(("MOD013"@, "ports on the same net have conflicting bindings"@, false)) =~= head + port_steps(
                            ports@,
                            connections@,
                            views(local_nets@),
                            pair_views(parent@),
                            prefix@,
                            (k + 1) as nat,
                        ).1);
                    } else {
                        assert(acc + ex =~= head + port_steps(ports@, connections@, views(local_nets@), pair_views(parent@), prefix@, (k + 1) as nat).1);
                    }
                } else {
                    let ghost nv = net@;
                    bindings.push((local.to_owned(), net));
                    assert(pair_views(bindings@) =~= map_insert(b0, local@, nv));
                    assert(acc + ex =~= head + port_steps(ports@, connections@, views(local_nets@), pair_views(parent@), prefix@, (k + 1) as nat).1);
                }
            },
            None => {
                let m = text3("missing connection for port '", port, "'");
                push_port_error(&mut out, Ghost(acc + ex), "MOD014", m.as_str(), false, file, module_file);
                assert((acc + ex).push(("MOD014"@, m@, false)) =~= head + port_steps(
                    ports@,
                    connections@,
                    views(local_nets@),
                    pair_views(parent@),
                    prefix@,
                    (k + 1) as nat,
                ).1);
            },
        }
        k += 1;
    }
    (bindings, out)
}

} // verus!

verus! {

/// The declared type of a module parameter.
#[derive(Debug, Clone, Copy, PartialEq, Eq, Structural)]
pub enum ParameterType {
    String,
    Number,
    Boolean,
}

/// The kind of a JSON value given for a parameter.
#[derive(Debug, Clone, Copy, PartialEq, Eq, Structural)]
pub enum ValueKind {
    String,
    Number,
    Boolean,
    Other,
}

/// The kind of a value.
pub open spec fn kind_of(v: JsonView) -> ValueKind {
    match v {
        JsonView::Text(_) => ValueKind::String,
        JsonView::Number(_) => ValueKind::Number,
        JsonView::Bool(_) => ValueKind::Boolean,
        _ => ValueKind::Other,
    }
}

/// Whether a value of kind `v` has type `t`.
pub open spec fn has_type(t: ParameterType, v: ValueKind) -> bool {
    match t {
        ParameterType::String => v == ValueKind::String,
        ParameterType::Number => v == ValueKind::Number,
        ParameterType::Boolean => v == ValueKind::Boolean,
    }
}

/// A parameter a module declares: its name, type and default value, if any.
#[derive(Debug)]
pub struct ParameterDecl {
    pub name: String,
    pub kind: ParameterType,
    pub default: Option<Json>,
}

/// Index of the first given value for `key` at or after `from`.
pub open spec fn given_index(given: Seq<(String, Json)>, key: Seq<char>, from: int) -> Option<int>
    decreases given.len() - from,
{
    if from < 0 || from >= given.len() {
        None
    } else if given[from].0@ == key {
        Some(from)
    } else {
        given_index(given, key, from + 1)
    }
}

/// Index of the first declaration of `key` at or after `from`.
pub open spec fn decl_index(decls: Seq<ParameterDecl>, key: Seq<char>, from: int) -> Option<int>
    decreases decls.len() - from,
{
    if from < 0 || from >= decls.len() {
        None
    } else if decls[from].name@ == key {
        Some(from)
    } else {
        decl_index(decls, key, from + 1)
    }
}

/// The first given value (from position `from` on) that no declaration names.
pub open spec fn first_unknown(decls: Seq<ParameterDecl>, given: Seq<(String, Json)>, from: int) -> Option<Seq<char>>
    decreases given.len() - from,
{
    if from < 0 || from >= given.len() {
        None
    } else if decl_index(decls, given[from].0@, 0) is None {
        Some(given[from].0@)
    } else {
        first_unknown(decls, given, from + 1)
    }
}

/// The value a declaration receives: the first given one of its name, else its default.
pub open spec fn chosen_value(d: ParameterDecl, given: Seq<(String, Json)>) -> Option<JsonView> {
    match given_index(given, d.name@, 0) {
        Some(i) => Some(json_view(given[i].1)),
        None => match d.default {
            Some(v) => Some(json_view(v)),
            None => None,
        },
    }
}

/// The outcome of checking the declarations from `from` on: the first missing or ill-typed
/// parameter, or each declaration's name with the value it receives.
pub open spec fn check_decls(decls: Seq<ParameterDecl>, given: Seq<(String, Json)>, from: int) -> Result<
    Seq<(Seq<char>, JsonView)>,
    Seq<char>,
>
    decreases decls.len() - from,
{
    if from < 0 || from >= decls.len() {
        Ok(Seq::empty())
    } else {
        let d = decls[from];
        match chosen_value(d, given) {
            None => Err("missing parameter '"@ + d.name@ + "'"@),
            Some(v) => if !has_type(d.kind, kind_of(v)) {
                Err("wrong type for parameter '"@ + d.name@ + "'"@)
            } else {
                match check_decls(decls, given, from + 1) {
                    Ok(rest) => Ok(seq![(d.name@, v)] + rest),
                    Err(e) => Err(e),
                }
            },
        }
    }
}

/// The outcome of checking an instance's parameter values against a module's declarations.
pub open spec fn parameter_check(decls: Seq<ParameterDecl>, given: Seq<(String, Json)>) -> Result<
    Seq<(Seq<char>, JsonView)>,
    Seq<char>,
> {
    match first_unknown(decls, given, 0) {
        Some(k) => Err("unknown parameter '"@ + k + "'"@),
        None => check_decls(decls, given, 0),
    }
}

impl Json {
    /// The kind of this value.
    pub fn kind(&self) -> (r: ValueKind)
        ensures
            r == kind_of(json_view(*self)),
    {
        match self {
            Json::Text(_) => ValueKind::String,
            Json::Number(_) => ValueKind::Number,
            Json::Bool(_) => ValueKind::Boolean,
            _ => ValueKind::Other,
        }
    }
}

/// Checks the values an instance gives for a module's parameters: each must be declared, and
/// each declaration needs a value of its type, given or by default. On success, returns each
/// declaration's name with the value it receives, in declaration order.
pub fn check_parameters(decls: &Vec<ParameterDecl>, given: &Vec<(String, Json)>) -> (r: Result<Vec<(String, Json)>, String>)
    ensures
        match (r, parameter_check(decls@, given@)) {
            (Ok(a), Ok(b)) => json_fields(a@) == b,
            (Err(a), Err(b)) => a@ == b,
            _ => false,
        },
{
    let mut i: usize = 0;
    while i < given.len()
        invariant
            i <= given@.len(),
            first_unknown(decls@, given@, 0) == first_unknown(decls@, given@, i as int),
        decreases given.len() - i,
    {
        let key = given[i].0.as_str();
        let mut j: usize = 0;
        let mut found = false;
        while j < decls.len() && !found
            invariant
                j <= decls@.len(),
                found ==> decl_index(decls@, key@, 0) is Some,
                !found ==> decl_index(decls@, key@, 0) == decl_index(decls@, key@, j as int),
            decreases decls.len() - j + if found { 0int } else { 1int },
        {
            if same_text(decls[j].name.as_str(), key) {
                found = true;
            } else {
                j += 1;
            }
        }
        if !found {
            return Err(text3("unknown parameter '", key, "'"));
        }
        i += 1;
    }
    let mut values: Vec<(String, Json)> = Vec::new();
    let mut k: usize = 0;
    while k < decls.len()
        invariant
            k <= decls@.len(),
            first_unknown(decls@, given@, 0) is None,
            match check_decls(decls@, given@, 0) {
                Ok(all) => match check_decls(decls@, given@, k as int) {
                    Ok(rest) => all == json_fields(values@) + rest,
                    Err(_) => false,
                },
                Err(e) => check_decls(decls@, given@, k as int) == Err::<Seq<(Seq<char>, JsonView)>, Seq<char>>(e),
            },
        decreases decls.len() - k,
    {
        let d = &decls[k];
        let mut g: usize = 0;
        while g < given.len()
            invariant
                g <= given@.len(),
                given_index(given@, d.name@, 0) == given_index(given@, d.name@, g as int),
            ensures
                g <= given@.len(),
                given_index(given@, d.name@, 0) == given_index(given@, d.name@, g as int),
                g < given@.len() ==> given@[g as int].0@ == d.name@,
            decreases given.len() - g,
        {
            if same_text(given[g].0.as_str(), d.name.as_str()) {
                break;
            }
            g += 1;
        }
        let chosen: Option<Json> = if g < given.len() {
            Some(given[g].1.copy())
        } else {
            match &d.default {
                Some(v) => Some(v.copy()),
                None => None,
            }
        };
        match chosen {
            None => {
                return Err(text3("missing parameter '", d.name.as_str(), "'"));
            },
            Some(v) => {
                let kind = v.kind();
                let ok = match d.kind {
                    ParameterType::String => kind == ValueKind::String,
                    ParameterType::Number => kind == ValueKind::Number,
                    ParameterType::Boolean => kind == ValueKind::Boolean,
                };
                if !ok {
                    return Err(text3("wrong type for parameter '", d.name.as_str(), "'"));
                }
                let m = (d.name.clone(), v);
                let ghost before = values@;
                proof {
                    lemma_json_fields_push(before, m);
                }
                values.push(m);
                proof {
                    match check_decls(decls@, given@, 0) {
                        Ok(all) => {
                            match check_decls(decls@, given@, (k + 1) as int) {
                                Ok(rest) => {
                                    assert(all =~= json_fields(values@) + rest);
                                },
                                Err(_) => {},
                            }
                        },
                        Err(e) => {},
                    }
                }
            },
        }
        k += 1;
    }
    assert(json_fields(values@) + Seq::<(Seq<char>, JsonView)>::empty() =~= json_fields(values@));
    Ok(values)
}

/// A module document prepared for an instance: its parameters checked against the values the
/// instance gives, then every placeholder replaced by its parameter's value.
pub fn instantiate(document: &Json, decls: &Vec<ParameterDecl>, given: &Vec<(String, Json)>) -> (r: Result<Json, String>)
    ensures
        match parameter_check(decls@, given@) {
            Err(e) => r matches Err(m) && m@ == e,
            Ok(values) => match (r, substituted(json_view(*document), values)) {
                (Ok(a), Ok(b)) => json_view(a) == b,
                (Err(a), Err(b)) => a@ == b,
                _ => false,
            },
        },
{
    match check_parameters(decls, given) {
        Err(e) => Err(e),
        Ok(values) => substitute(document, &values),
    }
}

} // verus!

verus! {

/// A JSON document of a module source; a number keeps its printed form.
#[derive(Debug, PartialEq, Eq)]
pub enum Json {
    Null,
    Bool(bool),
    Number(String),
    Text(String),
    Array(Vec<Json>),
    Object(Vec<(String, Json)>),
}

/// The mathematical value of a JSON document.
pub enum JsonView {
    Null,
    Bool(bool),
    Number(Seq<char>),
    Text(Seq<char>),
    Array(Seq<JsonView>),
    Object(Seq<(Seq<char>, JsonView)>),
}

/// The value a document denotes.
pub open spec fn json_view(j: Json) -> JsonView
    decreases j,
{
    match j {
        Json::Null => JsonView::Null,
        Json::Bool(b) => JsonView::Bool(b),
        Json::Number(n) => JsonView::Number(n@),
        Json::Text(s) => JsonView::Text(s@),
        Json::Array(a) => JsonView::Array(json_views(a@)),
        Json::Object(o) => JsonView::Object(json_fields(o@)),
    }
}

/// The values of a list of documents, in order.
pub open spec fn json_views(s: Seq<Json>) -> Seq<JsonView>
    decreases s,
{
    if s.len() == 0 {
        Seq::empty()
    } else {
        json_views(s.drop_last()).push(json_view(s.last()))
    }
}

/// The keys and values of a list of object members, in order.
pub open spec fn json_fields(s: Seq<(String, Json)>) -> Seq<(Seq<char>, JsonView)>
    decreases s,
{
    if s.len() == 0 {
        Seq::empty()
    } else {
        json_fields(s.drop_last()).push((s.last().0@, json_view(s.last().1)))
    }
}

pub(crate) proof fn lemma_json_views_push(s: Seq<Json>, x: Json)
    ensures
        json_views(s.push(x)) == json_views(s).push(json_view(x)),
{
    assert(s.push(x).drop_last() =~= s);
}

pub(crate) proof fn lemma_json_fields_push(s: Seq<(String, Json)>, x: (String, Json))
    ensures
        json_fields(s.push(x)) == json_fields(s).push((x.0@, json_view(x.1))),
{
    assert(s.push(x).drop_last() =~= s);
}

impl Json {
    /// A copy of this document.
    pub fn copy(&self) -> (r: Json)
        ensures
            json_view(r) == json_view(*self),
        decreases self,
    {
        match self {
            Json::Null => Json::Null,
            Json::Bool(b) => Json::Bool(*b),
            Json::Number(n) => Json::Number(n.clone()),
            Json::Text(t) => Json::Text(t.clone()),
            Json::Array(a) => {
                let mut out: Vec<Json> = Vec::new();
                let mut i: usize = 0;
                while i < a.len()
                    invariant
                        i <= a@.len(),
                        *self == Json::Array(*a),
                        json_views(out@) == json_views(a@.take(i as int)),
                    decreases a.len() - i,
                {
                    proof {
                        assert(decreases_to!(*self => (*self)->Array_0));
                        assert(decreases_to!(*a => a@));
                        assert(decreases_to!(a@ => a@[i as int]));
                        assert(decreases_to!(*self => a@[i as int]));
                    }
                    let x = a[i].copy();
                    proof {
                        lemma_json_views_push(out@, x);
                        assert(a@.take(i + 1).drop_last() =~= a@.take(i as int));
                    }
                    out.push(x);
                    i += 1;
                }
                assert(a@.take(a@.len() as int) =~= a@);
                Json::Array(out)
            },
            Json::Object(o) => {
                let mut out: Vec<(String, Json)> = Vec::new();
                let mut i: usize = 0;
                while i < o.len()
                    invariant
                        i <= o@.len(),
                        *self == Json::Object(*o),
                        json_fields(out@) == json_fields(o@.take(i as int)),
                    decreases o.len() - i,
                {
                    proof {
                        assert(decreases_to!(*self => (*self)->Object_0));
                        assert(decreases_to!(*o => o@));
                        assert(decreases_to!(o@ => o@[i as int]));
                        assert(decreases_to!(o@[i as int] => o@[i as int].1));
                    }
                    let x = (o[i].0.clone(), o[i].1.copy());
                    proof {
                        lemma_json_fields_push(out@, x);
                        assert(o@.take(i + 1).drop_last() =~= o@.take(i as int));
                    }
                    out.push(x);
                    i += 1;
                }
                assert(o@.take(o@.len() as int) =~= o@);
                Json::Object(out)
            },
        }
    }
}

/// The key of a text that is a whole placeholder `${key}`.
pub open spec fn placeholder(s: Seq<char>) -> Option<Seq<char>> {
    if s.len() >= 3 && s[0] == '$' && s[1] == '{' && s[s.len() - 1] == '}' {
        Some(s.subrange(2, s.len() - 1))
    } else {
        None
    }
}

/// The value of the first parameter named `key` at or after position `from`.
pub open spec fn parameter_from(p: Seq<(Seq<char>, JsonView)>, key: Seq<char>, from: int) -> Option<JsonView>
    decreases p.len() - from,
{
    if from < 0 || from >= p.len() {
        None
    } else if p[from].0 == key {
        Some(p[from].1)
    } else {
        parameter_from(p, key, from + 1)
    }
}

/// A module document with each placeholder text replaced by its parameter's value, members
/// named `parameters` left as they are; or the error for the first placeholder, in document
/// order, that names no parameter.
pub open spec fn substituted(v: JsonView, p: Seq<(Seq<char>, JsonView)>) -> Result<JsonView, Seq<char>>
    decreases v,
{
    match v {
        JsonView::Text(s) => match placeholder(s) {
            Some(k) => match parameter_from(p, k, 0) {
                Some(x) => Ok(x),
                None => Err("unknown parameter '"@ + k + "'"@),
            },
            None => Ok(v),
        },
        JsonView::Array(a) => match substituted_all(a, p) {
            Ok(b) => Ok(JsonView::Array(b)),
            Err(e) => Err(e),
        },
        JsonView::Object(o) => match substituted_members(o, p) {
            Ok(b) => Ok(JsonView::Object(b)),
            Err(e) => Err(e),
        },
        _ => Ok(v),
    }
}

/// The elements of an array, each substituted, or the first error.
pub open spec fn substituted_all(a: Seq<JsonView>, p: Seq<(Seq<char>, JsonView)>) -> Result<Seq<JsonView>, Seq<char>>
    decreases a,
{
    if a.len() == 0 {
        Ok(Seq::empty())
    } else {
        match substituted_all(a.drop_last(), p) {
            Err(e) => Err(e),
            Ok(b) => match substituted(a.last(), p) {
                Ok(x) => Ok(b.push(x)),
                Err(e) => Err(e),
            },
        }
    }
}

/// The members of an object with their values substituted (but for `parameters`), or the
/// first error.
pub open spec fn substituted_members(o: Seq<(Seq<char>, JsonView)>, p: Seq<(Seq<char>, JsonView)>) -> Result<
    Seq<(Seq<char>, JsonView)>,
    Seq<char>,
>
    decreases o,
{
    if o.len() == 0 {
        Ok(Seq::empty())
    } else {
        match substituted_members(o.drop_last(), p) {
            Err(e) => Err(e),
            Ok(b) => {
                let m = o.last();
                let x = if m.0 == "parameters"@ {
                    Ok(m.1)
                } else {
                    substituted(m.1, p)
                };
                match x {
                    Ok(y) => Ok(b.push((m.0, y))),
                    Err(e) => Err(e),
                }
            },
        }
    }
}

/// Whether a document has no placeholder text outside the `parameters` members.
pub open spec fn placeholder_free(v: JsonView) -> bool
    decreases v,
{
    match v {
        JsonView::Text(s) => placeholder(s) is None,
        JsonView::Array(a) => all_placeholder_free(a),
        JsonView::Object(o) => members_placeholder_free(o),
        _ => true,
    }
}

/// Whether no element of an array holds a placeholder.
pub open spec fn all_placeholder_free(a: Seq<JsonView>) -> bool
    decreases a,
{
    a.len() == 0 || (all_placeholder_free(a.drop_last()) && placeholder_free(a.last()))
}

/// Whether no member of an object, but `parameters`, holds a placeholder.
pub open spec fn members_placeholder_free(o: Seq<(Seq<char>, JsonView)>) -> bool
    decreases o,
{
    o.len() == 0 || (members_placeholder_free(o.drop_last()) && (o.last().0 == "parameters"@ || placeholder_free(
        o.last().1,
    )))
}

/// Substitution only replaces exact placeholders: a document without any comes back
/// unchanged, whatever the parameters.
pub proof fn law_documents_without_placeholders_are_unchanged(v: JsonView, p: Seq<(Seq<char>, JsonView)>)
    requires
        placeholder_free(v),
    ensures
        substituted(v, p) == Ok::<JsonView, Seq<char>>(v),
    decreases v, 0nat,
{
    match v {
        JsonView::Array(a) => {
            lemma_all_unchanged(a, p);
        },
        JsonView::Object(o) => {
            lemma_members_unchanged(o, p);
        },
        _ => {},
    }
}

proof fn lemma_all_unchanged(a: Seq<JsonView>, p: Seq<(Seq<char>, JsonView)>)
    requires
        all_placeholder_free(a),
    ensures
        substituted_all(a, p) == Ok::<Seq<JsonView>, Seq<char>>(a),
    decreases a, 1nat,
{
    if a.len() > 0 {
        lemma_all_unchanged(a.drop_last(), p);
        law_documents_without_placeholders_are_unchanged(a.last(), p);
        assert(a.drop_last().push(a.last()) =~= a);
    } else {
        assert(a =~= Seq::<JsonView>::empty());
    }
}

proof fn lemma_members_unchanged(o: Seq<(Seq<char>, JsonView)>, p: Seq<(Seq<char>, JsonView)>)
    requires
        members_placeholder_free(o),
    ensures
        substituted_members(o, p) == Ok::<Seq<(Seq<char>, JsonView)>, Seq<char>>(o),
    decreases o, 1nat,
{
    if o.len() > 0 {
        lemma_members_unchanged(o.drop_last(), p);
        if o.last().0 != "parameters"@ {
            law_documents_without_placeholders_are_unchanged(o.last().1, p);
        }
        assert(o.drop_last().push((o.last().0, o.last().1)) =~= o);
    } else {
        assert(o =~= Seq::<(Seq<char>, JsonView)>::empty());
    }
}

pub proof fn lemma_json_fields_index(s: Seq<(String, Json)>, i: int)
    requires
        0 <= i < s.len(),
    ensures
        json_fields(s).len() == s.len(),
        json_fields(s)[i] == (s[i].0@, json_view(s[i].1)),
    decreases s.len(),
{
    lemma_json_fields_len(s);
    if i < s.len() - 1 {
        lemma_json_fields_index(s.drop_last(), i);
    }
}

pub proof fn lemma_json_fields_len(s: Seq<(String, Json)>)
    ensures
        json_fields(s).len() == s.len(),
    decreases s.len(),
{
    if s.len() > 0 {
        lemma_json_fields_len(s.drop_last());
    }
}

proof fn lemma_all_error_stays(a: Seq<JsonView>, p: Seq<(Seq<char>, JsonView)>, i: int)
    requires
        0 <= i <= a.len(),
        substituted_all(a.take(i), p) is Err,
    ensures
        substituted_all(a, p) == substituted_all(a.take(i), p),
    decreases a.len() - i,
{
    if i < a.len() {
        assert(a.take(i + 1).drop_last() =~= a.take(i));
        lemma_all_error_stays(a, p, i + 1);
    } else {
        assert(a.take(i) =~= a);
    }
}

proof fn lemma_members_error_stays(o: Seq<(Seq<char>, JsonView)>, p: Seq<(Seq<char>, JsonView)>, i: int)
    requires
        0 <= i <= o.len(),
        substituted_members(o.take(i), p) is Err,
    ensures
        substituted_members(o, p) == substituted_members(o.take(i), p),
    decreases o.len() - i,
{
    if i < o.len() {
        assert(o.take(i + 1).drop_last() =~= o.take(i));
        lemma_members_error_stays(o, p, i + 1);
    } else {
        assert(o.take(i) =~= o);
    }
}

/// The value of the first parameter named `key`, copied.
fn parameter_value(parameters: &Vec<(String, Json)>, key: &str) -> (r: Option<Json>)
    ensures
        match (r, parameter_from(json_fields(parameters@), key@, 0)) {
            (Some(a), Some(b)) => json_view(a) == b,
            (None, None) => true,
            _ => false,
        },
{
    proof {
        lemma_json_fields_len(parameters@);
    }
    let mut i: usize = 0;
    while i < parameters.len()
        invariant
            i <= parameters@.len(),
            json_fields(parameters@).len() == parameters@.len(),
            parameter_from(json_fields(parameters@), key@, 0) == parameter_from(json_fields(parameters@), key@, i as int),
        decreases parameters.len() - i,
    {
        proof {
            lemma_json_fields_index(parameters@, i as int);
        }
        if same_text(parameters[i].0.as_str(), key) {
            return Some(parameters[i].1.copy());
        }
        i += 1;
    }
    None
}

/// Replaces each text of the form `${key}` in a module document by the value of parameter
/// `key`, in arrays and in object members other than `parameters`; fails on the first
/// placeholder that names no parameter.
pub fn substitute(value: &Json, parameters: &Vec<(String, Json)>) -> (r: Result<Json, String>)
    ensures
        match r {
            Ok(j) => substituted(json_view(*value), json_fields(parameters@)) == Ok::<JsonView, Seq<char>>(json_view(j)),
            Err(e) => substituted(json_view(*value), json_fields(parameters@)) == Err::<JsonView, Seq<char>>(e@),
        },
    decreases value,
{
    let ghost p = json_fields(parameters@);
    match value {
        Json::Text(t) => {
            let c = chars_of(t.as_str());
            if c.len() >= 3 && c[0] == '$' && c[1] == '{' && c[c.len() - 1] == '}' {
                let key = string_of_range(&c, 2, c.len() - 1);
                match parameter_value(parameters, key.as_str()) {
                    Some(x) => Ok(x),
                    None => Err(text3("unknown parameter '", key.as_str(), "'")),
                }
            } else {
                Ok(value.copy())
            }
        },
        Json::Array(a) => {
            let mut out: Vec<Json> = Vec::new();
            let mut i: usize = 0;
            proof {
                lemma_json_views_len(a@);
            }
            while i < a.len()
                invariant
                    i <= a@.len(),
                    *value == Json::Array(*a),
                    p == json_fields(parameters@),
                    json_views(a@).len() == a@.len(),
                    substituted_all(json_views(a@).take(i as int), p) == Ok::<Seq<JsonView>, Seq<char>>(json_views(out@)),
                decreases a.len() - i,
            {
                proof {
                    assert(decreases_to!(*value => (*value)->Array_0));
                    assert(decreases_to!(*a => a@));
                    assert(decreases_to!(a@ => a@[i as int]));
                }
                let x = substitute(&a[i], parameters);
                proof {
                    lemma_json_views_index(a@, i as int);
                    assert(json_views(a@).take(i + 1).drop_last() =~= json_views(a@).take(i as int));
                }
                match x {
                    Ok(y) => {
                        proof {
                            lemma_json_views_push(out@, y);
                        }
                        out.push(y);
                    },
                    Err(e) => {
                        proof {
                            lemma_all_error_stays(json_views(a@), p, i + 1);
                        }
                        return Err(e);
                    },
                }
                i += 1;
            }
            assert(json_views(a@).take(a@.len() as int) =~= json_views(a@));
            Ok(Json::Array(out))
        },
        Json::Object(o) => {
            let mut out: Vec<(String, Json)> = Vec::new();
            let mut i: usize = 0;
            proof {
                lemma_json_fields_len(o@);
            }
            while i < o.len()
                invariant
                    i <= o@.len(),
                    *value == Json::Object(*o),
                    p == json_fields(parameters@),
                    json_fields(o@).len() == o@.len(),
                    substituted_members(json_fields(o@).take(i as int), p) == Ok::<Seq<(Seq<char>, JsonView)>, Seq<char>>(json_fields(out@)),
                decreases o.len() - i,
            {
                proof {
                    assert(decreases_to!(*value => (*value)->Object_0));
                    assert(decreases_to!(*o => o@));
                    assert(decreases_to!(o@ => o@[i as int]));
                    assert(decreases_to!(o@[i as int] => o@[i as int].1));
                    lemma_json_fields_index(o@, i as int);
                    assert(json_fields(o@).take(i + 1).drop_last() =~= json_fields(o@).take(i as int));
                }
                let x = if same_text(o[i].0.as_str(), "parameters") {
                    Ok(o[i].1.copy())
                } else {
                    substitute(&o[i].1, parameters)
                };
                match x {
                    Ok(y) => {
                        let m = (o[i].0.clone(), y);
                        proof {
                            lemma_json_fields_push(out@, m);
                        }
                        out.push(m);
                    },
                    Err(e) => {
                        proof {
                            lemma_members_error_stays(json_fields(o@), p, i + 1);
                        }
                        return Err(e);
                    },
                }
                i += 1;
            }
            assert(json_fields(o@).take(o@.len() as int) =~= json_fields(o@));
            Ok(Json::Object(out))
        },
        _ => Ok(value.copy()),
    }
}

pub proof fn lemma_json_views_index(s: Seq<Json>, i: int)
    requires
        0 <= i < s.len(),
    ensures
        json_views(s).len() == s.len(),
        json_views(s)[i] == json_view(s[i]),
    decreases s.len(),
{
    lemma_json_views_len(s);
    if i < s.len() - 1 {
        lemma_json_views_index(s.drop_last(), i);
    }
}

pub proof fn lemma_json_views_len(s: Seq<Json>)
    ensures
        json_views(s).len() == s.len(),
    decreases s.len(),
{
    if s.len() > 0 {
        lemma_json_views_len(s.drop_last());
    }
}

} // verus!

verus! {

/// Where a resolved object was written: the source file and the JSON path within it.
#[derive(Debug, Clone)]
pub struct Origin {
    pub file: String,
    pub path: String,
}

} // verus!

verus! {

proof fn lemma_no_unknown(decls: Seq<ParameterDecl>, given: Seq<(String, Json)>, from: int)
    requires
        0 <= from,
        first_unknown(decls, given, from) is None,
    ensures
        forall|i: int| from <= i < given.len() ==> decl_index(decls, (#[trigger] given[i]).0@, 0) is Some,
    decreases given.len() - from,
{
    if from < given.len() {
        lemma_no_unknown(decls, given, from + 1);
    }
}

proof fn lemma_check_decls(decls: Seq<ParameterDecl>, given: Seq<(String, Json)>, from: int)
    requires
        0 <= from <= decls.len(),
        check_decls(decls, given, from) is Ok,
    ensures
        ({
            let vals = check_decls(decls, given, from)->Ok_0;
            &&& vals.len() == decls.len() - from
            &&& forall|j: int|
                0 <= j < vals.len() ==> {
                    &&& (#[trigger] vals[j]).0 == decls[from + j].name@
                    &&& chosen_value(decls[from + j], given) == Some(vals[j].1)
                    &&& has_type(decls[from + j].kind, kind_of(vals[j].1))
                }
        }),
    decreases decls.len() - from,
{
    if from < decls.len() {
        lemma_check_decls(decls, given, from + 1);
        let vals = check_decls(decls, given, from)->Ok_0;
        let rest = check_decls(decls, given, from + 1)->Ok_0;
        assert forall|j: int| 0 <= j < vals.len() implies {
            &&& (#[trigger] vals[j]).0 == decls[from + j].name@
            &&& chosen_value(decls[from + j], given) == Some(vals[j].1)
            &&& has_type(decls[from + j].kind, kind_of(vals[j].1))
        } by {
            if j > 0 {
                assert(vals[j] == rest[j - 1]);
                assert(from + 1 + (j - 1) == from + j);
            }
        }
    }
}

/// An instance's parameters are accepted only when every given value names a declared
/// parameter and every declared parameter receives a value of its type (the given one, else
/// its default), in declaration order.
pub proof fn law_accepted_parameters_are_declared_and_typed(decls: Seq<ParameterDecl>, given: Seq<(String, Json)>)
    requires
        parameter_check(decls, given) is Ok,
    ensures
        forall|i: int| 0 <= i < given.len() ==> decl_index(decls, (#[trigger] given[i]).0@, 0) is Some,
        ({
            let vals = parameter_check(decls, given)->Ok_0;
            &&& vals.len() == decls.len()
            &&& forall|j: int|
                0 <= j < vals.len() ==> {
                    &&& (#[trigger] vals[j]).0 == decls[j].name@
                    &&& chosen_value(decls[j], given) == Some(vals[j].1)
                    &&& has_type(decls[j].kind, kind_of(vals[j].1))
                }
        }),
{
    lemma_no_unknown(decls, given, 0);
    lemma_check_decls(decls, given, 0);
    let vals = parameter_check(decls, given)->Ok_0;
    assert forall|j: int| 0 <= j < vals.len() implies {
        &&& (#[trigger] vals[j]).0 == decls[j].name@
        &&& chosen_value(decls[j], given) == Some(vals[j].1)
        &&& has_type(decls[j].kind, kind_of(vals[j].1))
    } by {
        assert(0 + j == j);
    }
}

proof fn lemma_port_steps_grow(
    ports: Seq<(String, String)>,
    connections: Seq<(String, String)>,
    local_nets: Seq<Seq<char>>,
    parent: Seq<(Seq<char>, Seq<char>)>,
    prefix: Seq<char>,
    n: nat,
    m: nat,
)
    requires
        n <= m,
    ensures
        port_steps(ports, connections, local_nets, parent, prefix, n).1.len() <= port_steps(
            ports,
            connections,
            local_nets,
            parent,
            prefix,
            m,
        ).1.len(),
        forall|t: int|
            0 <= t < port_steps(ports, connections, local_nets, parent, prefix, n).1.len() ==> #[trigger] port_steps(
                ports,
                connections,
                local_nets,
                parent,
                prefix,
                m,
            ).1[t] == port_steps(ports, connections, local_nets, parent, prefix, n).1[t],
    decreases m - n,
{
    if n < m {
        lemma_port_steps_grow(ports, connections, local_nets, parent, prefix, n, (m - 1) as nat);
    }
}

/// Every public port must be connected: a port that the instance leaves unconnected is
/// reported (MOD014) when the ports are bound.
pub proof fn law_unconnected_ports_are_reported(
    ports: Seq<(String, String)>,
    connections: Seq<(String, String)>,
    local_nets: Seq<Seq<char>>,
    parent: Seq<(Seq<char>, Seq<char>)>,
    prefix: Seq<char>,
    k: int,
)
    requires
        0 <= k < ports.len(),
        lookup(connections, ports[k].0@, 0) is None,
    ensures
        port_steps(ports, connections, local_nets, parent, prefix, ports.len()).1.contains(
            ("MOD014"@, "missing connection for port '"@ + ports[k].0@ + "'"@, false),
        ),
{
    let before = port_steps(ports, connections, local_nets, parent, prefix, k as nat).1;
    let at = port_steps(ports, connections, local_nets, parent, prefix, (k + 1) as nat).1;
    let issue = ("MOD014"@, "missing connection for port '"@ + ports[k].0@ + "'"@, false);
    assert(at[at.len() - 1] == issue);
    lemma_port_steps_grow(ports, connections, local_nets, parent, prefix, (k + 1) as nat, ports.len());
    let all = port_steps(ports, connections, local_nets, parent, prefix, ports.len()).1;
    assert(all[at.len() - 1] == issue);
}

} // verus!
