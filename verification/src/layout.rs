//! Layout resolution: the identities of objects that layout plans place, and the order in
//! which placements are resolved, each after the placement its anchor refers to, with the
//! errors of missing references and dependency cycles. The coordinates themselves are
//! computed along that order by the caller.
use crate::diagnostic::{Diagnostic, Severity};
use crate::modules::qualified;
use crate::text::{chars_of, lemma_views_push, same_text, string_of_range, text3, views};
use vstd::prelude::*;

verus! {

/// The global identity of `local` inside the block `prefix`: `prefix/local`, or `local` at the
/// top level.
pub fn id(prefix: &str, local: &str) -> (r: String)
    ensures
        r@ == qualified(prefix@, local@),
{
    crate::modules::qualify(prefix, local)
}

/// What resolving a placement reads of its anchor: an exact point, a part it is relative to,
/// a pad (`part.terminal`) it sits on, or a board edge.
#[derive(Debug)]
pub enum Anchor {
    Point,
    Relative(String),
    Pad(String),
    Edge,
}

/// A placement of a layout plan: the plan's block prefix, the local part id, its anchor, the
/// error its anchor gives once the placement it refers to is known (an unknown part, a pad
/// without exactly one position, an invalid board edge), and the plan's file.
#[derive(Debug)]
pub struct Need {
    pub prefix: String,
    pub local: String,
    pub anchor: Anchor,
    pub late: Option<String>,
    pub file: String,
}

/// The global identity a placement is for.
pub open spec fn need_key(n: Need) -> Seq<char> {
    qualified(n.prefix@, n.local@)
}

/// The error an anchor gives before any other placement is consulted: a pad that names no
/// terminal.
pub open spec fn early_error(n: Need) -> Option<Seq<char>> {
    match n.anchor {
        Anchor::Pad(pad) => if crate::library::last_index(pad@, '.', pad@.len() as int) is None {
            Some("invalid pad '"@ + pad@ + "', expected part.terminal"@)
        } else {
            None
        },
        _ => None,
    }
}

/// The placement an anchor refers to, as a global identity.
pub open spec fn dependency(n: Need) -> Option<Seq<char>> {
    match n.anchor {
        Anchor::Relative(part) => Some(qualified(n.prefix@, part@)),
        Anchor::Pad(pad) => match crate::library::last_index(pad@, '.', pad@.len() as int) {
            Some(k) => Some(qualified(n.prefix@, pad@.take(k))),
            None => None,
        },
        _ => None,
    }
}

/// The view of an optional text.
pub open spec fn opt_text(t: Option<String>) -> Option<Seq<char>> {
    match t {
        Some(s) => Some(s@),
        None => None,
    }
}

/// Index of the pending placement `key` at or after `from`.
pub open spec fn pending_slot(p: Seq<(Seq<char>, int)>, key: Seq<char>, from: int) -> Option<int>
    decreases p.len() - from,
{
    if from < 0 || from >= p.len() {
        None
    } else if p[from].0 == key {
        Some(from)
    } else {
        pending_slot(p, key, from + 1)
    }
}

/// The pending placements after the first `k` needs: each identity once, at its first
/// position, with the index of its last need.
pub open spec fn pending_upto(needs: Seq<Need>, k: nat) -> Seq<(Seq<char>, int)>
    decreases k,
{
    if k == 0 || k > needs.len() {
        Seq::empty()
    } else {
        let p = pending_upto(needs, (k - 1) as nat);
        let key = need_key(needs[k - 1]);
        match pending_slot(p, key, 0) {
            Some(i) => p.update(i, (key, k - 1)),
            None => p.push((key, k - 1)),
        }
    }
}

/// The repeated placements among the first `k` needs: the message and file of each repeat.
pub open spec fn repeats_upto(needs: Seq<Need>, k: nat) -> Seq<(Seq<char>, Seq<char>)>
    decreases k,
{
    if k == 0 || k > needs.len() {
        Seq::empty()
    } else {
        let key = need_key(needs[k - 1]);
        repeats_upto(needs, (k - 1) as nat) + if pending_slot(pending_upto(needs, (k - 1) as nat), key, 0) is Some {
            seq![("duplicate placement '"@ + key + "'"@, needs[k - 1].file@)]
        } else {
            Seq::empty()
        }
    }
}

/// Resolving placement `key` with the placements `placed` already resolved (in order) and
/// those in `visiting` being resolved: the outcome and the resolved placements after it. A
/// placement resolved before is reused; one that no plan places is missing; one met again
/// while it is being resolved closes a cycle. Otherwise its anchor's early error, the outcome
/// of the placement it refers to, or its late error decides; on success it is resolved last.
pub open spec fn place(
    needs: Seq<Need>,
    pending: Seq<(Seq<char>, int)>,
    key: Seq<char>,
    placed: Seq<Seq<char>>,
    visiting: Seq<Seq<char>>,
) -> (Result<(), Seq<char>>, Seq<Seq<char>>)
    decreases pending.len() - visiting.len(),
{
    if placed.contains(key) {
        (Ok(()), placed)
    } else {
        match pending_slot(pending, key, 0) {
            None => (Err("missing placement '"@ + key + "'"@), placed),
            Some(i) => if visiting.contains(key) || visiting.len() >= pending.len() {
                (Err("placement dependency cycle at '"@ + key + "'"@), placed)
            } else {
                let n = needs[pending[i].1];
                let (r, placed2) = match early_error(n) {
                    Some(e) => (Err(e), placed),
                    None => match dependency(n) {
                        Some(d) => place(needs, pending, d, placed, visiting.push(key)),
                        None => (Ok(()), placed),
                    },
                };
                match r {
                    Err(e) => (Err(e), placed2),
                    Ok(_) => match opt_text(n.late) {
                        Some(e) => (Err(e), placed2),
                        None => (Ok(()), placed2.push(key)),
                    },
                }
            },
        }
    }
}

/// Resolving the first `k` pending placements in order: the outcome of each and the resolved
/// placements, in the order they were resolved.
pub open spec fn resolve_upto(needs: Seq<Need>, pending: Seq<(Seq<char>, int)>, k: nat) -> (Seq<Result<(), Seq<char>>>, Seq<Seq<char>>)
    decreases k,
{
    if k == 0 || k > pending.len() {
        (Seq::empty(), Seq::empty())
    } else {
        let (rs, placed) = resolve_upto(needs, pending, (k - 1) as nat);
        let (r, placed2) = place(needs, pending, pending[k - 1].0, placed, Seq::empty());
        (rs.push(r), placed2)
    }
}

} // verus!

verus! {

/// The plain value of the pending placements.
pub open spec fn pending_views(p: Seq<(String, usize)>) -> Seq<(Seq<char>, int)> {
    p.map_values(|e: (String, usize)| (e.0@, e.1 as int))
}

fn find_pending(pending: &Vec<(String, usize)>, key: &str) -> (r: Option<usize>)
    ensures
        match r {
            Some(i) => pending_slot(pending_views(pending@), key@, 0) == Some(i as int) && i < pending@.len(),
            None => pending_slot(pending_views(pending@), key@, 0) is None,
        },
{
    let mut i: usize = 0;
    while i < pending.len()
        invariant
            i <= pending@.len(),
            pending_slot(pending_views(pending@), key@, 0) == pending_slot(pending_views(pending@), key@, i as int),
        decreases pending.len() - i,
    {
        assert(pending_views(pending@)[i as int] == (pending@[i as int].0@, pending@[i as int].1 as int));
        if same_text(pending[i].0.as_str(), key) {
            return Some(i);
        }
        i += 1;
    }
    None
}

proof fn lemma_pending_slot(p: Seq<(Seq<char>, int)>, key: Seq<char>, from: int)
    requires
        0 <= from,
    ensures
        pending_slot(p, key, from) matches Some(i) ==> from <= i < p.len() && p[i].0 == key,
        pending_slot(p, key, from) is None ==> forall|k: int| from <= k < p.len() ==> #[trigger] p[k].0 != key,
    decreases p.len() - from,
{
    if from < p.len() && p[from].0 != key {
        lemma_pending_slot(p, key, from + 1);
    }
}

proof fn lemma_pending_bounds(needs: Seq<Need>, k: nat)
    requires
        k <= needs.len(),
    ensures
        forall|i: int| 0 <= i < pending_upto(needs, k).len() ==> 0 <= #[trigger] pending_upto(needs, k)[i].1 < k,
        pending_upto(needs, k).len() <= k,
    decreases k,
{
    if k > 0 {
        lemma_pending_bounds(needs, (k - 1) as nat);
        lemma_pending_slot(pending_upto(needs, (k - 1) as nat), need_key(needs[k - 1]), 0);
    }
}

/// The pending placements of the needs, each identity once at its first position with the
/// index of its last need, and the message and file of each repeat.
fn pending_of(needs: &Vec<Need>) -> (r: (Vec<(String, usize)>, Vec<(String, String)>))
    ensures
        pending_views(r.0@) == pending_upto(needs@, needs@.len()),
        crate::modules::pair_views(r.1@) == repeats_upto(needs@, needs@.len()),
{
    let mut pending: Vec<(String, usize)> = Vec::new();
    let mut repeats: Vec<(String, String)> = Vec::new();
    let mut k: usize = 0;
    assert(pending_views(pending@) =~= Seq::<(Seq<char>, int)>::empty());
    assert(crate::modules::pair_views(repeats@) =~= Seq::<(Seq<char>, Seq<char>)>::empty());
    while k < needs.len()
        invariant
            k <= needs@.len(),
            pending_views(pending@) == pending_upto(needs@, k as nat),
            crate::modules::pair_views(repeats@) == repeats_upto(needs@, k as nat),
        decreases needs.len() - k,
    {
        let n = &needs[k];
        let key = id(n.prefix.as_str(), n.local.as_str());
        let ghost before = pending_views(pending@);
        match find_pending(&pending, key.as_str()) {
            Some(i) => {
                let message = text3("duplicate placement '", key.as_str(), "'");
                let ghost rb = repeats@;
                repeats.push((message, n.file.clone()));
                assert(crate::modules::pair_views(repeats@) =~= crate::modules::pair_views(rb).push((message@, n.file@)));
                let ghost kv = key@;
                pending.set(i, (key, k));
                assert(pending_views(pending@) =~= before.update(i as int, (kv, k as int)));
            },
            None => {
                let ghost kv = key@;
                pending.push((key, k));
                assert(pending_views(pending@) =~= before.push((kv, k as int)));
                assert(repeats_upto(needs@, (k + 1) as nat) =~= repeats_upto(needs@, k as nat));
            },
        }
        k += 1;
    }
    (pending, repeats)
}

/// The early error of a need's anchor, or the placement it refers to.
fn anchor_target(n: &Need) -> (r: Result<Option<String>, String>)
    ensures
        match early_error(*n) {
            Some(e) => r matches Err(m) && m@ == e,
            None => r matches Ok(d) && opt_text(d) == dependency(*n),
        },
{
    match &n.anchor {
        Anchor::Relative(part) => Ok(Some(id(n.prefix.as_str(), part.as_str()))),
        Anchor::Pad(pad) => {
            let c = chars_of(pad.as_str());
            let mut k: usize = c.len();
            while k > 0 && c[k - 1] != '.'
                invariant
                    k <= c@.len(),
                    c@ == pad@,
                    crate::library::last_index(c@, '.', c@.len() as int) == crate::library::last_index(c@, '.', k as int),
                decreases k,
            {
                k -= 1;
            }
            if k == 0 {
                Err(text3("invalid pad '", pad.as_str(), "', expected part.terminal"))
            } else {
                let part = string_of_range(c.as_slice(), 0, k - 1);
                assert(part@ =~= pad@.take(k - 1));
                Ok(Some(id(n.prefix.as_str(), part.as_str())))
            }
        },
        _ => Ok(None),
    }
}

} // verus!

verus! {

/// The plain value of an outcome.
pub open spec fn outcome_view(r: Result<(), String>) -> Result<(), Seq<char>> {
    match r {
        Ok(_) => Ok(()),
        Err(m) => Err(m@),
    }
}

/// Resolves placement `key` (see `place`).
fn place_exec(
    needs: &Vec<Need>,
    pending: &Vec<(String, usize)>,
    key: &str,
    placed: &mut Vec<String>,
    visiting: &mut Vec<String>,
) -> (r: Result<(), String>)
    requires
        forall|i: int| 0 <= i < pending@.len() ==> (#[trigger] pending@[i]).1 < needs@.len(),
    ensures
        (outcome_view(r), views(final(placed)@)) == place(
            needs@,
            pending_views(pending@),
            key@,
            views(old(placed)@),
            views(old(visiting)@),
        ),
        views(final(visiting)@) == views(old(visiting)@),
    decreases pending@.len() - old(visiting)@.len(),
{
    let ghost pv = pending_views(pending@);
    if crate::rules::contains_string(placed, key) {
        return Ok(());
    }
    match find_pending(pending, key) {
        None => Err(text3("missing placement '", key, "'")),
        Some(i) => {
            if crate::rules::contains_string(visiting, key) || visiting.len() >= pending.len() {
                return Err(text3("placement dependency cycle at '", key, "'"));
            }
            assert(pv[i as int] == (pending@[i as int].0@, pending@[i as int].1 as int));
            let n = &needs[pending[i].1];
            let ghost v0 = visiting@;
            let r: Result<(), String> = match anchor_target(n) {
                Err(e) => Err(e),
                Ok(None) => Ok(()),
                Ok(Some(d)) => {
                    visiting.push(key.to_owned());
                    proof {
                        lemma_views_push(v0, visiting@.last());
                    }
                    let r = place_exec(needs, pending, d.as_str(), placed, visiting);
                    let ghost mid = visiting@;
                    let _ = visiting.pop();
                    proof {
                        assert(views(mid) == views(v0).push(key@));
                        assert(visiting@ =~= mid.drop_last());
                        assert(views(visiting@) =~= views(mid).drop_last());
                        assert(views(visiting@) =~= views(v0));
                    }
                    r
                },
            };
            match r {
                Err(e) => Err(e),
                Ok(_) => match &n.late {
                    Some(e) => Err(e.clone()),
                    None => {
                        let ghost before = placed@;
                        placed.push(key.to_owned());
                        proof {
                            lemma_views_push(before, placed@.last());
                        }
                        Ok(())
                    },
                },
            }
        },
    }
}

} // verus!

verus! {

/// What resolving the placements of the layout plans gave: the resolved placements in the
/// order they were resolved; for each pending placement, in order, its identity, the index of
/// the need that places it and its outcome; and the errors.
#[derive(Debug)]
pub struct LayoutOrder {
    pub placed: Vec<String>,
    pub outcomes: Vec<(String, usize, Result<(), String>)>,
    pub diagnostics: Vec<Diagnostic>,
}

/// The failures among the first `k` pending placements with outcomes `rs`: the message and
/// the file of the need that places each.
pub open spec fn failures_upto(needs: Seq<Need>, pending: Seq<(Seq<char>, int)>, rs: Seq<Result<(), Seq<char>>>, k: nat) -> Seq<
    (Seq<char>, Seq<char>),
>
    decreases k,
{
    if k == 0 || k > pending.len() || k > rs.len() {
        Seq::empty()
    } else {
        failures_upto(needs, pending, rs, (k - 1) as nat) + match rs[k - 1] {
            Err(e) => seq![(e, needs[pending[k - 1].1].file@)],
            Ok(_) => Seq::empty(),
        }
    }
}

/// The errors of layout resolution when reported: LAYOUT001 for each repeated placement, then
/// LAYOUT002 for each placement that failed to resolve.
pub open spec fn layout_issues(needs: Seq<Need>, strict: bool) -> Seq<crate::elaboration::ElabIssue> {
    let p = pending_upto(needs, needs.len());
    let rs = resolve_upto(needs, p, p.len()).0;
    if strict {
        repeats_upto(needs, needs.len()).map_values(|x: (Seq<char>, Seq<char>)| ("LAYOUT001"@, x.0, x.1))
            + failures_upto(needs, p, rs, p.len()).map_values(|x: (Seq<char>, Seq<char>)| ("LAYOUT002"@, x.0, x.1))
    } else {
        Seq::empty()
    }
}

proof fn lemma_resolve_len(needs: Seq<Need>, pending: Seq<(Seq<char>, int)>, k: nat)
    requires
        k <= pending.len(),
    ensures
        resolve_upto(needs, pending, k).0.len() == k,
    decreases k,
{
    if k > 0 {
        lemma_resolve_len(needs, pending, (k - 1) as nat);
    }
}

fn push_plain(out: &mut Vec<Diagnostic>, code: &str, message: &str, file: &str)
    requires
        crate::elaboration::plain(old(out)@),
    ensures
        crate::elaboration::plain(final(out)@),
        crate::elaboration::issue_views(final(out)@) == crate::elaboration::issue_views(old(out)@).push((code@, message@, file@)),
{
    let ghost before = out@;
    let d = Diagnostic::error(code, message, file);
    out.push(d);
    assert(crate::elaboration::issue_views(out@) =~= crate::elaboration::issue_views(before).push((code@, message@, file@)));
}

/// Resolves the placements of the layout plans, given in plan order (see `Need`): the pending
/// placements are taken in the order of their first appearance, a repeated one replacing the
/// earlier need; each is resolved after the placement its anchor refers to, reusing earlier
/// results, with the errors of missing placements, dependency cycles and anchors. When
/// `strict`, repeats (LAYOUT001) and failures (LAYOUT002) are reported.
pub fn resolve_placements(needs: &Vec<Need>, strict: bool) -> (r: LayoutOrder)
    ensures
        ({
            let p = pending_upto(needs@, needs@.len());
            let (rs, placed) = resolve_upto(needs@, p, p.len());
            &&& views(r.placed@) == placed
            &&& r.outcomes@.len() == p.len()
            &&& forall|k: int|
                0 <= k < p.len() ==> {
                    &&& (#[trigger] r.outcomes@[k]).0@ == p[k].0
                    &&& r.outcomes@[k].1 as int == p[k].1
                    &&& outcome_view(r.outcomes@[k].2) == rs[k]
                }
            &&& crate::elaboration::plain(r.diagnostics@)
            &&& crate::elaboration::issue_views(r.diagnostics@) == layout_issues(needs@, strict)
        }),
{
    let (pending, repeats) = pending_of(needs);
    let ghost p = pending_views(pending@);
    proof {
        lemma_pending_bounds(needs@, needs@.len());
    }
    assert forall|i: int| 0 <= i < pending@.len() implies (#[trigger] pending@[i]).1 < needs@.len() by {
        assert(p[i] == (pending@[i].0@, pending@[i].1 as int));
        assert(p.len() == pending@.len());
        assert(pending_upto(needs@, needs@.len())[i] == p[i]);
        assert(0 <= pending_upto(needs@, needs@.len())[i].1 < needs@.len());
    }
    let mut diagnostics: Vec<Diagnostic> = Vec::new();
    let ghost reps = repeats_upto(needs@, needs@.len());
    let ghost reps_issues = reps.map_values(|x: (Seq<char>, Seq<char>)| ("LAYOUT001"@, x.0, x.1));
    if strict {
        let mut j: usize = 0;
        while j < repeats.len()
            invariant
                j <= repeats@.len(),
                crate::modules::pair_views(repeats@) == reps,
                reps_issues == reps.map_values(|x: (Seq<char>, Seq<char>)| ("LAYOUT001"@, x.0, x.1)),
                crate::elaboration::plain(diagnostics@),
                crate::elaboration::issue_views(diagnostics@) == reps_issues.take(j as int),
            decreases repeats.len() - j,
        {
            assert(reps[j as int] == (repeats@[j as int].0@, repeats@[j as int].1@));
            push_plain(&mut diagnostics, "LAYOUT001", repeats[j].0.as_str(), repeats[j].1.as_str());
            assert(reps_issues.take(j + 1) =~= reps_issues.take(j as int).push(reps_issues[j as int]));
            j += 1;
        }
        assert(reps_issues.take(repeats@.len() as int) =~= reps_issues);
    } else {
        assert(crate::elaboration::issue_views(diagnostics@) =~= Seq::<crate::elaboration::ElabIssue>::empty());
    }
    let ghost head = crate::elaboration::issue_views(diagnostics@);
    let mut placed: Vec<String> = Vec::new();
    let mut visiting: Vec<String> = Vec::new();
    let mut outcomes: Vec<(String, usize, Result<(), String>)> = Vec::new();
    let mut k: usize = 0;
    assert(views(placed@) =~= Seq::<Seq<char>>::empty());
    while k < pending.len()
        invariant
            k <= pending@.len(),
            p == pending_views(pending@),
            p == pending_upto(needs@, needs@.len()),
            forall|i: int| 0 <= i < pending@.len() ==> (#[trigger] pending@[i]).1 < needs@.len(),
            views(visiting@) == Seq::<Seq<char>>::empty(),
            views(placed@) == resolve_upto(needs@, p, k as nat).1,
            resolve_upto(needs@, p, k as nat).0.len() == k,
            outcomes@.len() == k,
            forall|t: int|
                0 <= t < k ==> {
                    &&& (#[trigger] outcomes@[t]).0@ == p[t].0
                    &&& outcomes@[t].1 as int == p[t].1
                    &&& outcome_view(outcomes@[t].2) == resolve_upto(needs@, p, k as nat).0[t]
                },
            crate::elaboration::plain(diagnostics@),
            crate::elaboration::issue_views(diagnostics@) == head + if strict {
                failures_upto(needs@, p, resolve_upto(needs@, p, k as nat).0, k as nat).map_values(
                    |x: (Seq<char>, Seq<char>)| ("LAYOUT002"@, x.0, x.1),
                )
            } else {
                Seq::empty()
            },
        decreases pending.len() - k,
    {
        assert(p[k as int] == (pending@[k as int].0@, pending@[k as int].1 as int));
        let ghost prev = resolve_upto(needs@, p, k as nat);
        assert(views(visiting@) =~= Seq::<Seq<char>>::empty());
        let r = place_exec(needs, &pending, pending[k].0.as_str(), &mut placed, &mut visiting);
        let ghost rs1 = resolve_upto(needs@, p, (k + 1) as nat).0;
        assert(rs1 == prev.0.push(outcome_view(r)));
        assert(failures_upto(needs@, p, rs1, k as nat) == failures_upto(needs@, p, prev.0, k as nat)) by {
            lemma_failures_prefix(needs@, p, prev.0, rs1, k as nat);
        }
        let ghost d0 = crate::elaboration::issue_views(diagnostics@);
        if strict {
            match &r {
                Err(e) => {
                    push_plain(&mut diagnostics, "LAYOUT002", e.as_str(), needs[pending[k].1].file.as_str());
                    let ghost f = failures_upto(needs@, p, prev.0, k as nat);
                    assert(failures_upto(needs@, p, rs1, (k + 1) as nat) == f.push((e@, needs@[pending@[k as int].1 as int].file@)));
                    assert(f.push((e@, needs@[pending@[k as int].1 as int].file@)).map_values(
                        |x: (Seq<char>, Seq<char>)| ("LAYOUT002"@, x.0, x.1),
                    ) =~= f.map_values(|x: (Seq<char>, Seq<char>)| ("LAYOUT002"@, x.0, x.1)).push(
                        ("LAYOUT002"@, e@, needs@[pending@[k as int].1 as int].file@),
                    ));
                },
                Ok(_) => {
                    assert(failures_upto(needs@, p, rs1, (k + 1) as nat) =~= failures_upto(needs@, p, prev.0, k as nat));
                },
            }
        }
        let entry = (pending[k].0.clone(), pending[k].1, r);
        outcomes.push(entry);
        k += 1;
    }
    proof {
        lemma_resolve_len(needs@, p, p.len());
    }
    LayoutOrder { placed, outcomes, diagnostics }
}

proof fn lemma_failures_prefix(
    needs: Seq<Need>,
    pending: Seq<(Seq<char>, int)>,
    a: Seq<Result<(), Seq<char>>>,
    b: Seq<Result<(), Seq<char>>>,
    k: nat,
)
    requires
        k <= a.len(),
        k <= b.len(),
        forall|i: int| 0 <= i < k ==> a[i] == b[i],
    ensures
        failures_upto(needs, pending, a, k) == failures_upto(needs, pending, b, k),
    decreases k,
{
    if k > 0 {
        lemma_failures_prefix(needs, pending, a, b, (k - 1) as nat);
    }
}

} // verus!

verus! {

/// The placement that the pending placement `key` refers to, if any.
pub open spec fn dependency_of(needs: Seq<Need>, pending: Seq<(Seq<char>, int)>, key: Seq<char>) -> Option<Seq<char>> {
    match pending_slot(pending, key, 0) {
        Some(i) => dependency(needs[pending[i].1]),
        None => None,
    }
}

/// Whether every placement in `placed` comes after the placement it refers to, and none comes
/// twice.
pub open spec fn dependency_ordered(needs: Seq<Need>, pending: Seq<(Seq<char>, int)>, placed: Seq<Seq<char>>) -> bool {
    &&& forall|i: int, j: int| 0 <= i < j < placed.len() ==> #[trigger] placed[i] != #[trigger] placed[j]
    &&& forall|i: int|
        0 <= i < placed.len() ==> match dependency_of(needs, pending, #[trigger] placed[i]) {
            Some(d) => exists|t: int| 0 <= t < i && placed[t] == d,
            None => true,
        }
}

proof fn lemma_place(
    needs: Seq<Need>,
    pending: Seq<(Seq<char>, int)>,
    key: Seq<char>,
    placed: Seq<Seq<char>>,
    visiting: Seq<Seq<char>>,
)
    requires
        dependency_ordered(needs, pending, placed),
    ensures
        ({
            let (r, after) = place(needs, pending, key, placed, visiting);
            &&& after.len() >= placed.len()
            &&& after.take(placed.len() as int) == placed
            &&& forall|i: int| placed.len() <= i < after.len() ==> !visiting.contains(#[trigger] after[i])
            &&& dependency_ordered(needs, pending, after)
            &&& r is Ok ==> after.contains(key)
        }),
    decreases pending.len() - visiting.len(),
{
    let (r, after) = place(needs, pending, key, placed, visiting);
    if placed.contains(key) {
        assert(after.take(placed.len() as int) =~= placed);
    } else {
        match pending_slot(pending, key, 0) {
            None => {
                assert(after.take(placed.len() as int) =~= placed);
            },
            Some(i) => if visiting.contains(key) || visiting.len() >= pending.len() {
                assert(after.take(placed.len() as int) =~= placed);
            } else {
                let n = needs[pending[i].1];
                let (r1, placed2) = match early_error(n) {
                    Some(e) => (Err(e), placed),
                    None => match dependency(n) {
                        Some(d) => place(needs, pending, d, placed, visiting.push(key)),
                        None => (Ok(()), placed),
                    },
                };
                if early_error(n) is None && dependency(n) is Some {
                    let d = dependency(n)->0;
                    lemma_place(needs, pending, d, placed, visiting.push(key));
                    assert forall|t: int| placed.len() <= t < placed2.len() implies !visiting.contains(#[trigger] placed2[t]) by {
                        if visiting.contains(placed2[t]) {
                            let w = choose|w: int| 0 <= w < visiting.len() && visiting[w] == placed2[t];
                            assert(visiting.push(key)[w] == placed2[t]);
                        }
                    }
                    assert(!placed2.contains(key)) by {
                        if placed2.contains(key) {
                            let t = choose|t: int| 0 <= t < placed2.len() && placed2[t] == key;
                            if t < placed.len() {
                                assert(placed2.take(placed.len() as int)[t] == key);
                            } else {
                                assert(visiting.push(key)[visiting.len() as int] == key);
                            }
                        }
                    }
                } else {
                    assert(placed2.take(placed.len() as int) =~= placed);
                }
                if r1 is Ok && opt_text(n.late) is None {
                    assert(after == placed2.push(key));
                    assert(!placed2.contains(key));
                    assert(after.take(placed.len() as int) =~= placed2.take(placed.len() as int));
                    assert(after.contains(key)) by {
                        assert(after[placed2.len() as int] == key);
                    }
                    assert forall|t: int| placed.len() <= t < after.len() implies !visiting.contains(#[trigger] after[t]) by {
                        if t < placed2.len() {
                            assert(after[t] == placed2[t]);
                        }
                    }
                    assert forall|a: int, b: int| 0 <= a < b < after.len() implies #[trigger] after[a] != #[trigger] after[b] by {
                        if b == placed2.len() {
                            assert(after[a] == placed2[a]);
                        } else {
                            assert(after[a] == placed2[a] && after[b] == placed2[b]);
                        }
                    }
                    assert forall|a: int| 0 <= a < after.len() implies match dependency_of(needs, pending, #[trigger] after[a]) {
                        Some(d) => exists|t: int| 0 <= t < a && after[t] == d,
                        None => true,
                    } by {
                        if a < placed2.len() {
                            assert(after[a] == placed2[a]);
                            match dependency_of(needs, pending, placed2[a]) {
                                Some(d) => {
                                    let t = choose|t: int| 0 <= t < a && placed2[t] == d;
                                    assert(after[t] == d);
                                },
                                None => {},
                            }
                        } else {
                            assert(after[a] == key);
                            match dependency_of(needs, pending, key) {
                                Some(d) => {
                                    assert(dependency_of(needs, pending, key) == dependency(n));
                                    assert(placed2.contains(d));
                                    let t = choose|t: int| 0 <= t < placed2.len() && placed2[t] == d;
                                    assert(after[t] == d);
                                },
                                None => {},
                            }
                        }
                    }
                }
            },
        }
    }
}

proof fn lemma_resolve_ordered(needs: Seq<Need>, pending: Seq<(Seq<char>, int)>, k: nat)
    ensures
        dependency_ordered(needs, pending, resolve_upto(needs, pending, k).1),
    decreases k,
{
    if k > 0 && k <= pending.len() {
        lemma_resolve_ordered(needs, pending, (k - 1) as nat);
        lemma_place(needs, pending, pending[k - 1].0, resolve_upto(needs, pending, (k - 1) as nat).1, Seq::empty());
    }
}

/// Placements are resolved in dependency order: each resolved placement comes after the
/// placement its anchor refers to, and none is resolved twice, so coordinates can be computed
/// along the order.
pub proof fn law_placements_resolve_after_their_anchors(needs: Seq<Need>)
    ensures
        ({
            let p = pending_upto(needs, needs.len());
            dependency_ordered(needs, p, resolve_upto(needs, p, p.len()).1)
        }),
{
    let p = pending_upto(needs, needs.len());
    lemma_resolve_ordered(needs, p, p.len());
}

} // verus!

verus! {

/// A route of a layout plan as the anchor check reads it: the plan's block prefix and net
/// bindings (local net to parent net), the route's net, the pads (`part.terminal`) its path
/// is anchored to, and the plan's file.
#[derive(Debug)]
pub struct RouteAnchors {
    pub prefix: String,
    pub bindings: Vec<(String, String)>,
    pub net: String,
    pub pads: Vec<String>,
    pub file: String,
}

/// Whether the net `name` lists `endpoint` (the first net of that name).
pub open spec fn net_lists(nets: Seq<(Seq<char>, Seq<Seq<char>>)>, name: Seq<char>, endpoint: Seq<char>) -> bool {
    match crate::elaboration::net_slot(nets, name, 0) {
        Some(i) => nets[i].1.contains(endpoint),
        None => false,
    }
}

/// The finding about pad `pad` of route `r`: a pad anchor must sit on a terminal of the
/// route's net, its part qualified by the plan's block and its terminal alias resolved.
pub open spec fn pad_issue(
    r: RouteAnchors,
    pad: Seq<char>,
    aliases: Seq<(Seq<char>, Seq<(Seq<char>, Seq<char>)>)>,
    nets: Seq<(Seq<char>, Seq<Seq<char>>)>,
) -> Seq<crate::elaboration::ElabIssue> {
    let net = crate::modules::bound_net(crate::modules::pair_views(r.bindings@), r.prefix@, r.net@);
    let endpoint = crate::modules::canonical(aliases, qualified(r.prefix@, pad));
    if crate::library::last_index(pad, '.', pad.len() as int) is Some && !net_lists(nets, net, endpoint) {
        seq![("LAYOUT005"@, "route on '"@ + net + "' anchors to unrelated terminal '"@ + endpoint + "'"@, r.file@)]
    } else {
        Seq::empty()
    }
}

/// The findings about the first `k` pads of route `r`.
pub open spec fn pads_issues(
    r: RouteAnchors,
    aliases: Seq<(Seq<char>, Seq<(Seq<char>, Seq<char>)>)>,
    nets: Seq<(Seq<char>, Seq<Seq<char>>)>,
    k: nat,
) -> Seq<crate::elaboration::ElabIssue>
    decreases k,
{
    if k == 0 || k > r.pads@.len() {
        Seq::empty()
    } else {
        pads_issues(r, aliases, nets, (k - 1) as nat) + pad_issue(r, r.pads@[k - 1]@, aliases, nets)
    }
}

/// The findings about the first `k` routes.
pub open spec fn routes_issues(
    rs: Seq<RouteAnchors>,
    aliases: Seq<(Seq<char>, Seq<(Seq<char>, Seq<char>)>)>,
    nets: Seq<(Seq<char>, Seq<Seq<char>>)>,
    k: nat,
) -> Seq<crate::elaboration::ElabIssue>
    decreases k,
{
    if k == 0 || k > rs.len() {
        Seq::empty()
    } else {
        routes_issues(rs, aliases, nets, (k - 1) as nat) + pads_issues(rs[k - 1], aliases, nets, rs[k - 1].pads@.len())
    }
}

fn net_lists_exec(nets: &Vec<(String, Vec<String>)>, name: &str, endpoint: &str) -> (r: bool)
    ensures
        r == net_lists(crate::elaboration::net_views(nets@), name@, endpoint@),
{
    let ghost nv = crate::elaboration::net_views(nets@);
    let mut i: usize = 0;
    while i < nets.len()
        invariant
            i <= nets@.len(),
            nv == crate::elaboration::net_views(nets@),
            crate::elaboration::net_slot(nv, name@, 0) == crate::elaboration::net_slot(nv, name@, i as int),
        decreases nets.len() - i,
    {
        assert(nv[i as int] == (nets@[i as int].0@, views(nets@[i as int].1@)));
        if same_text(nets[i].0.as_str(), name) {
            return crate::rules::contains_string(&nets[i].1, endpoint);
        }
        i += 1;
    }
    false
}

fn bound_net_exec(bindings: &Vec<(String, String)>, prefix: &str, name: &str) -> (r: String)
    ensures
        r@ == crate::modules::bound_net(crate::modules::pair_views(bindings@), prefix@, name@),
{
    let ghost b = crate::modules::pair_views(bindings@);
    let mut i: usize = 0;
    while i < bindings.len()
        invariant
            i <= bindings@.len(),
            b == crate::modules::pair_views(bindings@),
            crate::modules::key_index(b, name@, 0) == crate::modules::key_index(b, name@, i as int),
        decreases bindings.len() - i,
    {
        assert(b[i as int] == (bindings@[i as int].0@, bindings@[i as int].1@));
        if same_text(bindings[i].0.as_str(), name) {
            return bindings[i].1.clone();
        }
        i += 1;
    }
    id(prefix, name)
}

/// Checks that every pad a route is anchored to is a terminal of the route's net, the net and
/// part taken inside the plan's block and terminal aliases resolved (LAYOUT005).
pub fn route_anchor_issues(
    routes: &Vec<RouteAnchors>,
    aliases: &Vec<crate::modules::PartAliases>,
    nets: &Vec<(String, Vec<String>)>,
) -> (r: Vec<Diagnostic>)
    ensures
        crate::elaboration::plain(r@),
        crate::elaboration::issue_views(r@) == routes_issues(
            routes@,
            crate::modules::alias_views(aliases@),
            crate::elaboration::net_views(nets@),
            routes@.len(),
        ),
{
    let ghost a = crate::modules::alias_views(aliases@);
    let ghost nv = crate::elaboration::net_views(nets@);
    let mut out: Vec<Diagnostic> = Vec::new();
    let mut k: usize = 0;
    assert(crate::elaboration::issue_views(out@) =~= Seq::<crate::elaboration::ElabIssue>::empty());
    while k < routes.len()
        invariant
            k <= routes@.len(),
            a == crate::modules::alias_views(aliases@),
            nv == crate::elaboration::net_views(nets@),
            crate::elaboration::plain(out@),
            crate::elaboration::issue_views(out@) == routes_issues(routes@, a, nv, k as nat),
        decreases routes.len() - k,
    {
        let r = &routes[k];
        let net = bound_net_exec(&r.bindings, r.prefix.as_str(), r.net.as_str());
        let ghost base = crate::elaboration::issue_views(out@);
        let mut j: usize = 0;
        while j < r.pads.len()
            invariant
                j <= r.pads@.len(),
                r == &routes@[k as int],
                net@ == crate::modules::bound_net(crate::modules::pair_views(r.bindings@), r.prefix@, r.net@),
                a == crate::modules::alias_views(aliases@),
                nv == crate::elaboration::net_views(nets@),
                crate::elaboration::plain(out@),
                crate::elaboration::issue_views(out@) == base + pads_issues(*r, a, nv, j as nat),
            decreases r.pads.len() - j,
        {
            let pad = r.pads[j].as_str();
            let q = id(r.prefix.as_str(), pad);
            let endpoint = crate::modules::canonical_endpoint(aliases, q.as_str());
            let c = chars_of(pad);
            let mut t: usize = c.len();
            while t > 0 && c[t - 1] != '.'
                invariant
                    t <= c@.len(),
                    c@ == pad@,
                    crate::library::last_index(c@, '.', c@.len() as int) == crate::library::last_index(c@, '.', t as int),
                decreases t,
            {
                t -= 1;
            }
            if t > 0 && !net_lists_exec(nets, net.as_str(), endpoint.as_str()) {
                let message = crate::text::text5("route on '", net.as_str(), "' anchors to unrelated terminal '", endpoint.as_str(), "'");
                push_plain(&mut out, "LAYOUT005", message.as_str(), r.file.as_str());
            }
            assert(base + pads_issues(*r, a, nv, (j + 1) as nat) =~= base + pads_issues(*r, a, nv, j as nat) + pad_issue(
                *r,
                r.pads@[j as int]@,
                a,
                nv,
            ));
            j += 1;
        }
        k += 1;
    }
    out
}

} // verus!

verus! {

proof fn lemma_repeats_count(needs: Seq<Need>, k: nat)
    requires
        k <= needs.len(),
    ensures
        repeats_upto(needs, k).len() + pending_upto(needs, k).len() == k,
    decreases k,
{
    if k > 0 {
        lemma_repeats_count(needs, (k - 1) as nat);
        lemma_pending_slot(pending_upto(needs, (k - 1) as nat), need_key(needs[k - 1]), 0);
    }
}

proof fn lemma_first_pass(plan: Seq<Need>, needs: Seq<Need>, k: nat)
    requires
        needs == plan + plan,
        k <= plan.len(),
        forall|i: int, j: int| 0 <= i < j < plan.len() ==> need_key(#[trigger] plan[i]) != need_key(#[trigger] plan[j]),
    ensures
        pending_upto(needs, k).len() == k,
        forall|i: int| 0 <= i < k ==> (#[trigger] pending_upto(needs, k)[i]).0 == need_key(plan[i]),
    decreases k,
{
    if k > 0 {
        lemma_first_pass(plan, needs, (k - 1) as nat);
        let p = pending_upto(needs, (k - 1) as nat);
        let key = need_key(needs[k - 1]);
        assert(needs[k - 1] == plan[k - 1]);
        lemma_pending_slot(p, key, 0);
        if pending_slot(p, key, 0) is Some {
            let i = pending_slot(p, key, 0)->0;
            assert(p[i].0 == need_key(plan[i]));
        }
    }
}

proof fn lemma_second_pass(plan: Seq<Need>, needs: Seq<Need>, k: nat)
    requires
        needs == plan + plan,
        plan.len() <= k <= needs.len(),
        forall|i: int, j: int| 0 <= i < j < plan.len() ==> need_key(#[trigger] plan[i]) != need_key(#[trigger] plan[j]),
    ensures
        pending_upto(needs, k).len() == plan.len(),
        forall|i: int| 0 <= i < plan.len() ==> (#[trigger] pending_upto(needs, k)[i]).0 == need_key(plan[i]),
    decreases k,
{
    if k == plan.len() {
        lemma_first_pass(plan, needs, k);
    } else {
        lemma_second_pass(plan, needs, (k - 1) as nat);
        let p = pending_upto(needs, (k - 1) as nat);
        let j = k - 1 - plan.len();
        let key = need_key(needs[k - 1]);
        assert(needs[k - 1] == plan[j]);
        lemma_pending_slot(p, key, 0);
        assert(p[j].0 == key);
    }
}

/// A plan given twice, whose placements are for distinct identities, is reported with
/// LAYOUT001 exactly once for each of its placements in the strict pass and not at all in the
/// other: the first entries of the strict findings are those, and no later one is.
pub proof fn law_a_plan_given_twice_is_reported_once_per_placement(plan: Seq<Need>)
    requires
        forall|i: int, j: int| 0 <= i < j < plan.len() ==> need_key(#[trigger] plan[i]) != need_key(#[trigger] plan[j]),
    ensures
        layout_issues(plan + plan, false).len() == 0,
        repeats_upto(plan + plan, 2 * plan.len()).len() == plan.len(),
        plan.len() <= layout_issues(plan + plan, true).len(),
        forall|i: int| 0 <= i < plan.len() ==> (#[trigger] layout_issues(plan + plan, true)[i]).0 == "LAYOUT001"@,
        forall|i: int|
            plan.len() <= i < layout_issues(plan + plan, true).len() ==> (#[trigger] layout_issues(plan + plan, true)[i]).0
                != "LAYOUT001"@,
{
    let needs = plan + plan;
    lemma_second_pass(plan, needs, needs.len());
    lemma_repeats_count(needs, needs.len());
    assert("LAYOUT002"@ != "LAYOUT001"@) by {
        reveal_strlit("LAYOUT002");
        reveal_strlit("LAYOUT001");
        assert("LAYOUT002"@[8] != "LAYOUT001"@[8]);
    }
}

/// Repeated placements are reported only in the strict pass, once per repeat: every need
/// either opens a pending placement or is reported with LAYOUT001, so a plan given twice is
/// reported once for each of its placements.
pub proof fn law_repeated_placements_are_reported_once_each(needs: Seq<Need>)
    ensures
        layout_issues(needs, false).len() == 0,
        repeats_upto(needs, needs.len()).len() + pending_upto(needs, needs.len()).len() == needs.len(),
        forall|i: int|
            0 <= i < repeats_upto(needs, needs.len()).len() ==> (#[trigger] layout_issues(needs, true)[i]).0 == "LAYOUT001"@,
{
    lemma_repeats_count(needs, needs.len());
}

} // verus!

verus! {

proof fn lemma_placed_on_success(
    needs: Seq<Need>,
    pending: Seq<(Seq<char>, int)>,
    key: Seq<char>,
    placed: Seq<Seq<char>>,
    visiting: Seq<Seq<char>>,
)
    requires
        place(needs, pending, key, placed, visiting).0 is Ok,
    ensures
        place(needs, pending, key, placed, visiting).1.contains(key),
{
    if !placed.contains(key) {
        let r = place(needs, pending, key, placed, visiting);
        let i = pending_slot(pending, key, 0)->0;
        let n = needs[pending[i].1];
        let inner = match early_error(n) {
            Some(e) => (Err::<(), Seq<char>>(e), placed),
            None => match dependency(n) {
                Some(d) => place(needs, pending, d, placed, visiting.push(key)),
                None => (Ok(()), placed),
            },
        };
        assert(r.1 == inner.1.push(key));
        assert(r.1[r.1.len() - 1] == key);
    }
}

/// A placement anchored relative to part `P` in the plan of block `B` is placed only after
/// the placement of `B/P` (`P` in the root plan) — the identity that part's own placement has
/// in the same plan: when it is placed, the placements resolved by then include `B/P`.
pub proof fn law_relative_anchor_waits_for_its_block_part(
    needs: Seq<Need>,
    pending: Seq<(Seq<char>, int)>,
    key: Seq<char>,
    placed: Seq<Seq<char>>,
    visiting: Seq<Seq<char>>,
    i: int,
    part: String,
)
    requires
        pending_slot(pending, key, 0) == Some(i),
        0 <= pending[i].1 < needs.len(),
        needs[pending[i].1].anchor == Anchor::Relative(part),
        !placed.contains(key),
        place(needs, pending, key, placed, visiting).0 is Ok,
    ensures
        place(needs, pending, key, placed, visiting).1.contains(qualified(needs[pending[i].1].prefix@, part@)),
        qualified(needs[pending[i].1].prefix@, part@) == need_key(
            Need { local: part, anchor: Anchor::Point, late: None, ..needs[pending[i].1] },
        ),
{
    let n = needs[pending[i].1];
    let d = qualified(n.prefix@, part@);
    assert(early_error(n) is None);
    assert(dependency(n) == Some(d));
    lemma_placed_on_success(needs, pending, d, placed, visiting.push(key));
    let inner = place(needs, pending, d, placed, visiting.push(key));
    assert(place(needs, pending, key, placed, visiting).1 == inner.1.push(key));
    let j = choose|j: int| 0 <= j < inner.1.len() && inner.1[j] == d;
    assert(inner.1.push(key)[j] == d);
}

/// Conversely, a placement anchored relative to part `P` in the plan of block `B`, with no
/// late error of its own and not inside a cycle, is placed whenever `B/P` can be placed.
pub proof fn law_relative_anchor_is_placed_with_its_block_part(
    needs: Seq<Need>,
    pending: Seq<(Seq<char>, int)>,
    key: Seq<char>,
    placed: Seq<Seq<char>>,
    visiting: Seq<Seq<char>>,
    i: int,
    part: String,
)
    requires
        pending_slot(pending, key, 0) == Some(i),
        0 <= pending[i].1 < needs.len(),
        needs[pending[i].1].anchor == Anchor::Relative(part),
        needs[pending[i].1].late is None,
        !visiting.contains(key),
        visiting.len() < pending.len(),
        place(needs, pending, qualified(needs[pending[i].1].prefix@, part@), placed, visiting.push(key)).0 is Ok,
    ensures
        place(needs, pending, key, placed, visiting).0 is Ok,
{
    let n = needs[pending[i].1];
    assert(early_error(n) is None);
    assert(dependency(n) == Some(qualified(n.prefix@, part@)));
    assert(opt_text(n.late) is None);
}

/// The last `.` before `to` is at `k` when `k` holds one and none follows it before `to`.
proof fn lemma_last_dot(s: Seq<char>, to: int, k: int)
    requires
        0 <= k < to <= s.len(),
        s[k] == '.',
        forall|t: int| k < t < s.len() ==> #[trigger] s[t] != '.',
    ensures
        crate::library::last_index(s, '.', to) == Some(k),
    decreases to,
{
    if to - 1 != k {
        assert(s[to - 1] != '.');
        lemma_last_dot(s, to - 1, k);
    }
}

/// A placement anchored to pad `P.T` in the plan of block `B` is placed only after the
/// placement of `B/P` (`P` at the root), `P` being what precedes the last `.`.
pub proof fn law_pad_anchor_waits_for_its_block_part(
    needs: Seq<Need>,
    pending: Seq<(Seq<char>, int)>,
    key: Seq<char>,
    placed: Seq<Seq<char>>,
    visiting: Seq<Seq<char>>,
    i: int,
    pad: String,
    k: int,
)
    requires
        pending_slot(pending, key, 0) == Some(i),
        0 <= pending[i].1 < needs.len(),
        needs[pending[i].1].anchor == Anchor::Pad(pad),
        0 <= k < pad@.len(),
        pad@[k] == '.',
        forall|t: int| k < t < pad@.len() ==> #[trigger] pad@[t] != '.',
        !placed.contains(key),
        place(needs, pending, key, placed, visiting).0 is Ok,
    ensures
        place(needs, pending, key, placed, visiting).1.contains(
            if needs[pending[i].1].prefix@.len() == 0 {
                pad@.take(k)
            } else {
                needs[pending[i].1].prefix@ + "/"@ + pad@.take(k)
            },
        ),
{
    let n = needs[pending[i].1];
    lemma_last_dot(pad@, pad@.len() as int, k);
    let d = qualified(n.prefix@, pad@.take(k));
    assert(early_error(n) is None);
    assert(dependency(n) == Some(d));
    lemma_placed_on_success(needs, pending, d, placed, visiting.push(key));
    let inner = place(needs, pending, d, placed, visiting.push(key));
    assert(place(needs, pending, key, placed, visiting).1 == inner.1.push(key));
    let j = choose|j: int| 0 <= j < inner.1.len() && inner.1[j] == d;
    assert(inner.1.push(key)[j] == d);
}

} // verus!
