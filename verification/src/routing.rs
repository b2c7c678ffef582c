//! Net selection for targeted routing and the ownership rules of cached copper.
use vstd::prelude::*;
use vstd::string::StringSliceAdditionalSpecFns;
use crate::text::{same_text, text3};

verus! {

/// Whether `p` matches all of `s`, where `*` matches any run of bytes and `?` one byte.
pub open spec fn glob(p: Seq<u8>, s: Seq<u8>) -> bool
    decreases p.len(), s.len(),
{
    if p.len() == 0 {
        s.len() == 0
    } else if p.last() == 42 {
        glob(p.drop_last(), s) || (s.len() > 0 && glob(p, s.drop_last()))
    } else {
        s.len() > 0 && (p.last() == 63 || p.last() == s.last()) && glob(
            p.drop_last(),
            s.drop_last(),
        )
    }
}

/// `s` without its leading `/` characters.
pub open spec fn trim_slashes(s: Seq<u8>) -> Seq<u8>
    decreases s.len(),
{
    if s.len() > 0 && s[0] == 47 {
        trim_slashes(s.drop_first())
    } else {
        s
    }
}

/// Whether a root net name is chosen by one of the selector patterns; leading `/` on
/// either side is ignored.
pub open spec fn net_selected(patterns: Seq<Seq<u8>>, net: Seq<u8>) -> bool {
    exists|i: int| 0 <= i < patterns.len() && glob(trim_slashes(patterns[i]), trim_slashes(net))
}

/// The UTF-8 bytes of each pattern.
pub open spec fn pattern_bytes(patterns: Seq<String>) -> Seq<Seq<u8>> {
    patterns.map_values(|p: String| vstd::utf8::encode_utf8(p@))
}

fn trim_start_slashes(s: &[u8]) -> (r: usize)
    ensures
        r <= s.len(),
        trim_slashes(s@) == s@.skip(r as int),
{
    let mut i: usize = 0;
    assert(s@.skip(0) =~= s@);
    while i < s.len() && s[i] == 47
        invariant
            i <= s.len(),
            trim_slashes(s@) == trim_slashes(s@.skip(i as int)),
        decreases s.len() - i,
    {
        assert(s@.skip(i as int).drop_first() =~= s@.skip(i + 1));
        i += 1;
    }
    i
}

/// Whether `p[ps..]` matches all of `s[ss..]`, by dynamic programming over pattern prefixes.
fn glob_match(p: &[u8], ps: usize, s: &[u8], ss: usize) -> (r: bool)
    requires
        ps <= p.len(),
        ss <= s.len(),
    ensures
        r == glob(p@.skip(ps as int), s@.skip(ss as int)),
{
    let ghost pv = p@.skip(ps as int);
    let ghost sv = s@.skip(ss as int);
    let n = s.len() - ss;
    let mut previous: Vec<bool> = Vec::new();
    previous.push(true);
    assert(sv.take(0) =~= Seq::<u8>::empty());
    let mut j: usize = 0;
    while j < n
        invariant
            n == sv.len(),
            j <= n,
            previous@.len() == j + 1,
            forall|k: int| 0 <= k <= j ==> previous@[k] == glob(pv.take(0), sv.take(k)),
        decreases n - j,
    {
        previous.push(false);
        j += 1;
    }
    let mut i: usize = ps;
    while i < p.len()
        invariant
            ps <= i <= p.len(),
            pv == p@.skip(ps as int),
            sv == s@.skip(ss as int),
            n == sv.len(),
            ss + n == s.len(),
            previous@.len() == n + 1,
            forall|k: int| 0 <= k <= n ==> previous@[k] == glob(pv.take(i - ps), sv.take(k)),
        decreases p.len() - i,
    {
        let c = p[i];
        let ghost pi = pv.take(i - ps + 1);
        assert(pi.drop_last() =~= pv.take(i - ps));
        assert(pi.last() == c);
        let mut next: Vec<bool> = Vec::new();
        next.push(c == 42 && previous[0]);
        assert(next@[0] == glob(pi, sv.take(0)));
        let mut j: usize = 0;
        while j < n
            invariant
                j <= n,
                n == sv.len(),
                ss + n == s.len(),
                sv == s@.skip(ss as int),
                previous@.len() == n + 1,
                pi.len() > 0,
                pi.last() == c,
                forall|k: int| 0 <= k <= n ==> previous@[k] == glob(pi.drop_last(), sv.take(k)),
                next@.len() == j + 1,
                forall|k: int| 0 <= k <= j ==> next@[k] == glob(pi, sv.take(k)),
            decreases n - j,
        {
            let value = if c == 42 {
                previous[j + 1] || next[j]
            } else {
                previous[j] && (c == 63 || c == s[ss + j])
            };
            assert(sv.take(j + 1).drop_last() =~= sv.take(j as int));
            assert(sv.take(j + 1).last() == s@[ss + j]);
            next.push(value);
            j += 1;
        }
        previous = next;
        i += 1;
    }
    assert(pv.take(p.len() - ps) =~= pv);
    assert(sv.take(n as int) =~= sv);
    previous[n]
}

/// Matches root net names with the same `*` and `?` selectors the command line accepts.
pub fn selected(patterns: &[String], net: &str) -> (r: bool)
    ensures
        r == net_selected(pattern_bytes(patterns@), net.spec_bytes()),
{
    let nb = net.as_bytes();
    let ns = trim_start_slashes(nb);
    let mut i: usize = 0;
    while i < patterns.len()
        invariant
            i <= patterns.len(),
            nb@ == net.spec_bytes(),
            trim_slashes(nb@) == nb@.skip(ns as int),
            ns <= nb@.len(),
            forall|k: int| 0 <= k < i ==> !glob(
                trim_slashes(#[trigger] pattern_bytes(patterns@)[k]),
                trim_slashes(net.spec_bytes()),
            ),
        decreases patterns.len() - i,
    {
        let pb = patterns[i].as_str().as_bytes();
        let ps = trim_start_slashes(pb);
        if glob_match(pb, ps, nb, ns) {
            assert(pattern_bytes(patterns@)[i as int] == pb@);
            return true;
        }
        assert(pattern_bytes(patterns@)[i as int] == pb@);
        i += 1;
    }
    false
}

proof fn lemma_star_matches(s: Seq<u8>)
    ensures
        glob(seq![42u8], s),
    decreases s.len(),
{
    assert(seq![42u8].drop_last() =~= Seq::<u8>::empty());
    assert(seq![42u8].last() == 42u8);
    assert(seq![42u8].len() == 1);
    if s.len() > 0 {
        lemma_star_matches(s.drop_last());
    } else {
        assert(glob(Seq::<u8>::empty(), s));
    }
}

/// The selector `*` chooses every net.
pub proof fn law_star_selects_every_net(net: Seq<u8>)
    ensures
        net_selected(seq![seq![42u8]], net),
{
    lemma_star_matches(trim_slashes(net));
    assert(trim_slashes(seq![42u8]) == seq![42u8]);
    assert(glob(trim_slashes(seq![seq![42u8]][0]), trim_slashes(net)));
}

/// A leading `/` on a net name does not change whether it is selected.
pub proof fn law_leading_slash_is_ignored(patterns: Seq<Seq<u8>>, net: Seq<u8>)
    ensures
        net_selected(patterns, seq![47u8] + net) == net_selected(patterns, net),
{
    assert((seq![47u8] + net).drop_first() =~= net);
    assert(trim_slashes(seq![47u8] + net) == trim_slashes(net));
}

/// Whether a pattern contains neither `*` nor `?`.
pub open spec fn is_literal(p: Seq<u8>) -> bool {
    forall|i: int| 0 <= i < p.len() ==> #[trigger] p[i] != 42 && p[i] != 63
}

/// A pattern without wildcards matches exactly the identical name.
pub proof fn law_literal_pattern_matches_only_itself(p: Seq<u8>, s: Seq<u8>)
    requires
        is_literal(p),
    ensures
        glob(p, s) <==> p == s,
    decreases p.len(),
{
    if p.len() > 0 {
        assert(p.last() == p[p.len() - 1]);
        assert(is_literal(p.drop_last()));
        law_literal_pattern_matches_only_itself(p.drop_last(), s.drop_last());
        if s.len() > 0 && p.last() == s.last() && p.drop_last() == s.drop_last() {
            assert(p =~= p.drop_last().push(p.last()));
            assert(s =~= s.drop_last().push(s.last()));
        }
        if p == s {
            assert(p.drop_last() =~= s.drop_last());
        }
    } else {
        if s.len() == 0 {
            assert(p =~= s);
        }
    }
}

} // verus!

verus! {

/// A net name reported by KiCad, mapped back to the project: a leading `/` is dropped when the
/// rest names a project net.
pub open spec fn normalized_net(nets: Seq<Seq<char>>, native: Seq<char>) -> Seq<char> {
    if native.len() > 0 && native[0] == '/' && nets.contains(native.drop_first()) {
        native.drop_first()
    } else {
        native
    }
}

/// Maps a net name reported by KiCad back to the project's name for it; `nets` are the
/// project's net names.
pub fn normalize_net(nets: &Vec<String>, native: &str) -> (r: String)
    ensures
        r@ == normalized_net(crate::text::views(nets@), native@),
{
    let c = crate::text::chars_of(native);
    if c.len() > 0 && c[0] == '/' {
        let rest = crate::text::string_of_range(c.as_slice(), 1, c.len());
        assert(rest@ =~= native@.drop_first());
        if crate::rules::contains_string(nets, rest.as_str()) {
            return rest;
        }
    }
    native.to_owned()
}

/// The name of the first entry of `table` with net code `code`.
pub open spec fn code_name(table: Seq<(i32, String)>, code: i32, from: int) -> Option<Seq<char>>
    decreases table.len() - from,
{
    if from < 0 || from >= table.len() {
        None
    } else if table[from].0 == code {
        Some(table[from].1@)
    } else {
        code_name(table, code, from + 1)
    }
}

/// The characters of an optional text.
pub open spec fn text_view(t: Option<&str>) -> Option<Seq<char>> {
    match t {
        Some(s) => Some(s@),
        None => None,
    }
}

/// The net of a copper item in router output, from its numeric net code or its net label:
/// a label that is not a number names the net; otherwise the code (or the numeric label) is
/// looked up in the board's net table.
pub open spec fn item_net(
    nets: Seq<Seq<char>>,
    code: Option<i32>,
    label: Option<Seq<char>>,
    table: Seq<(i32, String)>,
) -> Result<Seq<char>, Seq<char>> {
    match label {
        Some(l) if crate::text::parsed_i32(l) is None => Ok(normalized_net(nets, l)),
        _ => {
            let c = match code {
                Some(c) => Some(c),
                None => match label {
                    Some(l) => crate::text::parsed_i32(l),
                    None => None,
                },
            };
            match c {
                Some(c) => match code_name(table, c, 0) {
                    Some(n) => Ok(n),
                    None => Err(
                        "router output references unknown net code "@ + crate::text::signed_decimal(c as int),
                    ),
                },
                None => Err("router output contains copper without a net"@),
            }
        },
    }
}

/// The net of a copper item in router output; `nets` are the project's net names and
/// `table` the board's net codes with their names.
pub fn resolve_item_net(nets: &Vec<String>, code: Option<i32>, label: Option<&str>, table: &Vec<(i32, String)>) -> (r: Result<
    String,
    String,
>)
    ensures
        match (r, item_net(crate::text::views(nets@), code, text_view(label), table@)) {
            (Ok(a), Ok(b)) => a@ == b,
            (Err(a), Err(b)) => a@ == b,
            _ => false,
        },
{
    let parsed = match label {
        Some(l) => crate::text::parse_i32_text(l),
        None => None,
    };
    if let Some(l) = label {
        if parsed.is_none() {
            return Ok(normalize_net(nets, l));
        }
    }
    let c = match code {
        Some(c) => Some(c),
        None => parsed,
    };
    match c {
        Some(c) => {
            let mut i: usize = 0;
            while i < table.len()
                invariant
                    i <= table@.len(),
                    code_name(table@, c, 0) == code_name(table@, c, i as int),
                    parsed == (match label {
                        Some(l) => crate::text::parsed_i32(l@),
                        None => None,
                    }),
                    label is Some ==> parsed is Some,
                    Some(c) == (match code {
                        Some(x) => Some(x),
                        None => parsed,
                    }),
                decreases table.len() - i,
            {
                if table[i].0 == c {
                    let name = table[i].1.clone();
                    assert(code_name(table@, c, i as int) == Some(table@[i as int].1@));
                    assert(name@ == table@[i as int].1@);
                    return Ok(name);
                }
                i += 1;
            }
            let mut m = "router output references unknown net code ".to_owned();
            crate::text::push_signed(&mut m, c);
            Err(m)
        },
        None => Err("router output contains copper without a net".to_owned()),
    }
}

} // verus!

verus! {

/// A cached route of a net: its geometry key, whether it is locked, and a handle by which
/// the caller finds the route again.
#[derive(Debug)]
pub struct CopperRoute {
    pub key: String,
    pub locked: bool,
    pub handle: usize,
}

/// The cached routes of one net.
#[derive(Debug)]
pub struct NetRoutes {
    pub net: String,
    pub routes: Vec<CopperRoute>,
}

/// A cached via: its net, its geometry key, whether it is locked, and a handle.
#[derive(Debug)]
pub struct CopperVia {
    pub net: String,
    pub key: String,
    pub locked: bool,
    pub handle: usize,
}

/// The copper of a route cache: routes by net, in net order, and vias.
#[derive(Debug)]
pub struct Copper {
    pub routes: Vec<NetRoutes>,
    pub vias: Vec<CopperVia>,
}

/// The plain value of a cached route.
pub struct RouteV {
    pub key: Seq<char>,
    pub locked: bool,
    pub handle: usize,
}

/// The plain value of a net's routes.
pub struct NetV {
    pub net: Seq<char>,
    pub routes: Seq<RouteV>,
}

/// The plain value of a via.
pub struct ViaV {
    pub net: Seq<char>,
    pub key: Seq<char>,
    pub locked: bool,
    pub handle: usize,
}

/// The plain value of cached copper.
pub struct CopperV {
    pub routes: Seq<NetV>,
    pub vias: Seq<ViaV>,
}

impl View for CopperRoute {
    type V = RouteV;

    open spec fn view(&self) -> RouteV {
        RouteV { key: self.key@, locked: self.locked, handle: self.handle }
    }
}

/// The plain values of routes.
pub open spec fn route_views(s: Seq<CopperRoute>) -> Seq<RouteV> {
    s.map_values(|r: CopperRoute| r@)
}

impl View for NetRoutes {
    type V = NetV;

    open spec fn view(&self) -> NetV {
        NetV { net: self.net@, routes: route_views(self.routes@) }
    }
}

impl View for CopperVia {
    type V = ViaV;

    open spec fn view(&self) -> ViaV {
        ViaV { net: self.net@, key: self.key@, locked: self.locked, handle: self.handle }
    }
}

/// The plain values of nets' routes.
pub open spec fn net_views(s: Seq<NetRoutes>) -> Seq<NetV> {
    s.map_values(|n: NetRoutes| n@)
}

/// The plain values of vias.
pub open spec fn via_views(s: Seq<CopperVia>) -> Seq<ViaV> {
    s.map_values(|v: CopperVia| v@)
}

impl View for Copper {
    type V = CopperV;

    open spec fn view(&self) -> CopperV {
        CopperV { routes: net_views(self.routes@), vias: via_views(self.vias@) }
    }
}

/// Whether net `net` is chosen by the patterns.
pub open spec fn chosen(patterns: Seq<Seq<u8>>, net: Seq<char>) -> bool {
    net_selected(patterns, vstd::utf8::encode_utf8(net))
}

/// Index of the routes of net `net` at or after `from`.
pub open spec fn net_index(nets: Seq<NetV>, net: Seq<char>, from: int) -> Option<int>
    decreases nets.len() - from,
{
    if from < 0 || from >= nets.len() {
        None
    } else if nets[from].net == net {
        Some(from)
    } else {
        net_index(nets, net, from + 1)
    }
}

/// The nets after setting the routes of `n.net` to those of `n`, in place when the net is
/// already listed.
pub open spec fn put_net(nets: Seq<NetV>, n: NetV) -> Seq<NetV> {
    match net_index(nets, n.net, 0) {
        Some(i) => nets.update(i, n),
        None => nets.push(n),
    }
}

/// Whether every locked route of `n` is still among the routes of its net in `current`.
pub open spec fn locked_routes_kept(current: Seq<NetV>, n: NetV) -> bool {
    forall|t: int|
        0 <= t < n.routes.len() && #[trigger] n.routes[t].locked ==> match net_index(current, n.net, 0) {
            Some(i) => exists|u: int| 0 <= u < current[i].routes.len() && current[i].routes[u].key == n.routes[t].key,
            None => false,
        }
}

/// The routes after merging the first `k` nets of the previous cache: routes of nets not
/// chosen are restored; a chosen net must keep its locked routes. Stops at the first failure.
pub open spec fn route_merge(patterns: Seq<Seq<u8>>, before: Seq<NetV>, after: Seq<NetV>, k: nat) -> (Seq<NetV>, Option<Seq<char>>)
    decreases k,
{
    if k == 0 {
        (after, None)
    } else {
        let (cur, err) = route_merge(patterns, before, after, (k - 1) as nat);
        let n = before[k - 1];
        if err is Some {
            (cur, err)
        } else if !chosen(patterns, n.net) {
            (put_net(cur, n), None)
        } else if locked_routes_kept(cur, n) {
            (cur, None)
        } else {
            (cur, Some("router changed locked copper on '"@ + n.net + "'"@))
        }
    }
}

/// Whether some net of `nets` is named `net`.
pub open spec fn lists_net(nets: Seq<NetV>, net: Seq<char>) -> bool {
    net_index(nets, net, 0) is Some
}

/// The first `k` nets of `cur` that are chosen or were in the previous cache, in order.
pub open spec fn kept_nets(patterns: Seq<Seq<u8>>, before: Seq<NetV>, cur: Seq<NetV>, k: nat) -> Seq<NetV>
    decreases k,
{
    if k == 0 {
        Seq::empty()
    } else {
        kept_nets(patterns, before, cur, (k - 1) as nat) + if chosen(patterns, cur[k - 1].net) || lists_net(
            before,
            cur[k - 1].net,
        ) {
            seq![cur[k - 1]]
        } else {
            Seq::empty()
        }
    }
}

/// The first `k` vias whose net is (or is not) chosen, in order.
pub open spec fn vias_where(patterns: Seq<Seq<u8>>, vias: Seq<ViaV>, is_chosen: bool, k: nat) -> Seq<ViaV>
    decreases k,
{
    if k == 0 {
        Seq::empty()
    } else {
        vias_where(patterns, vias, is_chosen, (k - 1) as nat) + if chosen(patterns, vias[k - 1].net) == is_chosen {
            seq![vias[k - 1]]
        } else {
            Seq::empty()
        }
    }
}

/// The first locked via of a chosen net, among the first `k` of `before`, that `vias` lost.
pub open spec fn lost_via(patterns: Seq<Seq<u8>>, before: Seq<ViaV>, vias: Seq<ViaV>, k: nat) -> Option<Seq<char>>
    decreases k,
{
    if k == 0 {
        None
    } else {
        match lost_via(patterns, before, vias, (k - 1) as nat) {
            Some(n) => Some(n),
            None => {
                let v = before[k - 1];
                if v.locked && chosen(patterns, v.net) && !(exists|u: int| 0 <= u < vias.len() && vias[u].key == v.key) {
                    Some(v.net)
                } else {
                    None
                }
            },
        }
    }
}

/// Merged copper and the result of the merge: the routes and vias of nets outside the
/// selection come back from the previous cache, extra nets outside it are dropped, and
/// locked copper of selected nets must still be present.
pub open spec fn preserved(patterns: Seq<Seq<u8>>, before: CopperV, after: CopperV) -> (CopperV, Result<(), Seq<char>>) {
    let (cur, err) = route_merge(patterns, before.routes, after.routes, before.routes.len());
    match err {
        Some(e) => (CopperV { routes: cur, vias: after.vias }, Err(e)),
        None => {
            let routes = kept_nets(patterns, before.routes, cur, cur.len());
            let vias = vias_where(patterns, after.vias, true, after.vias.len()) + vias_where(
                patterns,
                before.vias,
                false,
                before.vias.len(),
            );
            (
                CopperV { routes, vias },
                match lost_via(patterns, before.vias, vias, before.vias.len()) {
                    Some(n) => Err("router changed a locked via on '"@ + n + "'"@),
                    None => Ok(()),
                },
            )
        },
    }
}

proof fn lemma_merge_stops(patterns: Seq<Seq<u8>>, before: Seq<NetV>, after: Seq<NetV>, k: nat, big: nat)
    requires
        k <= big,
        route_merge(patterns, before, after, k).1 is Some,
    ensures
        route_merge(patterns, before, after, big) == route_merge(patterns, before, after, k),
    decreases big - k,
{
    if k < big {
        lemma_merge_stops(patterns, before, after, k, (big - 1) as nat);
    }
}

proof fn lemma_lost_via_stops(patterns: Seq<Seq<u8>>, before: Seq<ViaV>, vias: Seq<ViaV>, k: nat, big: nat)
    requires
        k <= big,
        lost_via(patterns, before, vias, k) is Some,
    ensures
        lost_via(patterns, before, vias, big) == lost_via(patterns, before, vias, k),
    decreases big - k,
{
    if k < big {
        lemma_lost_via_stops(patterns, before, vias, k, (big - 1) as nat);
    }
}

fn copy_routes(v: &Vec<CopperRoute>) -> (r: Vec<CopperRoute>)
    ensures
        route_views(r@) == route_views(v@),
{
    let mut r: Vec<CopperRoute> = Vec::new();
    let mut i: usize = 0;
    while i < v.len()
        invariant
            i <= v@.len(),
            route_views(r@) == route_views(v@).take(i as int),
        decreases v.len() - i,
    {
        let ghost prev = r@;
        let c = CopperRoute { key: v[i].key.clone(), locked: v[i].locked, handle: v[i].handle };
        assert(c@ == v@[i as int]@);
        r.push(c);
        assert(route_views(r@) =~= route_views(prev).push(v@[i as int]@));
        assert(route_views(r@) =~= route_views(v@).take(i + 1));
        i += 1;
    }
    assert(route_views(v@).take(v@.len() as int) =~= route_views(v@));
    r
}

fn copy_net(n: &NetRoutes) -> (r: NetRoutes)
    ensures
        r@ == n@,
{
    NetRoutes { net: n.net.clone(), routes: copy_routes(&n.routes) }
}

fn copy_via(v: &CopperVia) -> (r: CopperVia)
    ensures
        r@ == v@,
{
    CopperVia { net: v.net.clone(), key: v.key.clone(), locked: v.locked, handle: v.handle }
}

fn find_net(nets: &Vec<NetRoutes>, net: &str) -> (r: Option<usize>)
    ensures
        match r {
            Some(i) => net_index(net_views(nets@), net@, 0) == Some(i as int) && i < nets@.len(),
            None => net_index(net_views(nets@), net@, 0) is None,
        },
{
    let mut i: usize = 0;
    while i < nets.len()
        invariant
            i <= nets@.len(),
            net_index(net_views(nets@), net@, 0) == net_index(net_views(nets@), net@, i as int),
        decreases nets.len() - i,
    {
        assert(net_views(nets@)[i as int] == nets@[i as int]@);
        if same_text(nets[i].net.as_str(), net) {
            return Some(i);
        }
        i += 1;
    }
    None
}

fn has_route_key(routes: &Vec<CopperRoute>, key: &str) -> (r: bool)
    ensures
        r == exists|u: int| 0 <= u < routes@.len() && route_views(routes@)[u].key == key@,
{
    let mut u: usize = 0;
    while u < routes.len()
        invariant
            u <= routes@.len(),
            forall|t: int| 0 <= t < u ==> route_views(routes@)[t].key != key@,
        decreases routes.len() - u,
    {
        assert(route_views(routes@)[u as int] == routes@[u as int]@);
        if same_text(routes[u].key.as_str(), key) {
            return true;
        }
        u += 1;
    }
    false
}

fn keeps_locked(current: &Vec<NetRoutes>, n: &NetRoutes) -> (r: bool)
    ensures
        r == locked_routes_kept(net_views(current@), n@),
{
    let found = find_net(current, n.net.as_str());
    let mut t: usize = 0;
    while t < n.routes.len()
        invariant
            t <= n.routes@.len(),
            match found {
                Some(i) => net_index(net_views(current@), n@.net, 0) == Some(i as int) && i < current@.len(),
                None => net_index(net_views(current@), n@.net, 0) is None,
            },
            forall|s: int|
                0 <= s < t && #[trigger] n@.routes[s].locked ==> match net_index(net_views(current@), n@.net, 0) {
                    Some(i) => exists|u: int|
                        0 <= u < net_views(current@)[i].routes.len() && net_views(current@)[i].routes[u].key
                            == n@.routes[s].key,
                    None => false,
                },
        decreases n.routes.len() - t,
    {
        assert(n@.routes[t as int] == n.routes@[t as int]@);
        if n.routes[t].locked {
            match found {
                Some(i) => {
                    assert(net_views(current@)[i as int] == current@[i as int]@);
                    if !has_route_key(&current[i].routes, n.routes[t].key.as_str()) {
                        assert(n@.routes[t as int].locked);
                        assert(net_views(current@)[i as int].routes == route_views(current@[i as int].routes@));
                        return false;
                    }
                },
                None => {
                    assert(n@.routes[t as int].locked);
                    return false;
                },
            }
        }
        t += 1;
    }
    true
}

/// Whether `net` is chosen by the patterns.
fn is_chosen(patterns: &[String], net: &str) -> (r: bool)
    ensures
        r == chosen(pattern_bytes(patterns@), net@),
{
    selected(patterns, net)
}

/// Restores, after a targeted routing run, the copper of the nets outside `patterns` from the
/// previous cache, drops nets the router added outside them, and checks that locked routes
/// and vias of the chosen nets survived. On failure the partly merged copper is left in
/// `after` and the error names the net.
pub fn preserve_copper(before: &Copper, after: &mut Copper, patterns: &[String]) -> (r: Result<(), String>)
    ensures
        ({
            let (c, res) = preserved(pattern_bytes(patterns@), before@, old(after)@);
            &&& final(after)@ == c
            &&& match (r, res) {
                (Ok(_), Ok(_)) => true,
                (Err(a), Err(b)) => a@ == b,
                _ => false,
            }
        }),
{
    let ghost pats = pattern_bytes(patterns@);
    let ghost bv = before@;
    let ghost av = after@;
    let mut k: usize = 0;
    while k < before.routes.len()
        invariant
            k <= before.routes@.len(),
            pats == pattern_bytes(patterns@),
            bv == before@,
            av == old(after)@,
            after@.vias == av.vias,
            route_merge(pats, bv.routes, av.routes, k as nat) == (after@.routes, None::<Seq<char>>),
        decreases before.routes.len() - k,
    {
        let n = &before.routes[k];
        assert(bv.routes[k as int] == n@);
        if !is_chosen(patterns, n.net.as_str()) {
            let ghost cur = after@.routes;
            match find_net(&after.routes, n.net.as_str()) {
                Some(i) => {
                    after.routes.set(i, copy_net(n));
                    assert(net_views(after.routes@) =~= cur.update(i as int, n@));
                },
                None => {
                    after.routes.push(copy_net(n));
                    assert(net_views(after.routes@) =~= cur.push(n@));
                },
            }
        } else if !keeps_locked(&after.routes, n) {
            let e = text3("router changed locked copper on '", n.net.as_str(), "'");
            proof {
                assert(route_merge(pats, bv.routes, av.routes, (k + 1) as nat) == (after@.routes, Some(e@)));
                lemma_merge_stops(pats, bv.routes, av.routes, (k + 1) as nat, bv.routes.len());
            }
            return Err(e);
        }
        k += 1;
    }
    let ghost cur = after@.routes;
    let mut kept: Vec<NetRoutes> = Vec::new();
    let mut m: usize = 0;
    while m < after.routes.len()
        invariant
            m <= after.routes@.len(),
            pats == pattern_bytes(patterns@),
            bv == before@,
            cur == after@.routes,
            net_views(kept@) == kept_nets(pats, bv.routes, cur, m as nat),
        decreases after.routes.len() - m,
    {
        let n = &after.routes[m];
        assert(cur[m as int] == n@);
        let keep = is_chosen(patterns, n.net.as_str()) || find_net(&before.routes, n.net.as_str()).is_some();
        if keep {
            let ghost prev = net_views(kept@);
            kept.push(copy_net(n));
            assert(net_views(kept@) =~= prev.push(n@));
        }
        m += 1;
    }
    let mut vias: Vec<CopperVia> = Vec::new();
    let mut v: usize = 0;
    while v < after.vias.len()
        invariant
            v <= after.vias@.len(),
            pats == pattern_bytes(patterns@),
            via_views(vias@) == vias_where(pats, av.vias, true, v as nat),
            after@.vias == av.vias,
        decreases after.vias.len() - v,
    {
        assert(av.vias[v as int] == after.vias@[v as int]@);
        if is_chosen(patterns, after.vias[v].net.as_str()) {
            let ghost prev = via_views(vias@);
            vias.push(copy_via(&after.vias[v]));
            assert(via_views(vias@) =~= prev.push(av.vias[v as int]));
        }
        v += 1;
    }
    let ghost head = via_views(vias@);
    let mut w: usize = 0;
    while w < before.vias.len()
        invariant
            w <= before.vias@.len(),
            pats == pattern_bytes(patterns@),
            bv == before@,
            via_views(vias@) == head + vias_where(pats, bv.vias, false, w as nat),
        decreases before.vias.len() - w,
    {
        assert(bv.vias[w as int] == before.vias@[w as int]@);
        if !is_chosen(patterns, before.vias[w].net.as_str()) {
            let ghost prev = via_views(vias@);
            vias.push(copy_via(&before.vias[w]));
            assert(via_views(vias@) =~= prev.push(bv.vias[w as int]));
        }
        w += 1;
    }
    after.routes = kept;
    after.vias = vias;
    assert(cur.take(cur.len() as int) =~= cur);
    let ghost fv = via_views(after.vias@);
    let ghost c = preserved(pats, bv, av).0;
    assert(after@.routes == c.routes);
    assert(after@.vias == c.vias);
    let mut x: usize = 0;
    while x < before.vias.len()
        invariant
            x <= before.vias@.len(),
            pats == pattern_bytes(patterns@),
            bv == before@,
            fv == via_views(after.vias@),
            lost_via(pats, bv.vias, fv, x as nat) is None,
            av == old(after)@,
            route_merge(pats, bv.routes, av.routes, bv.routes.len()).1 is None,
            c == preserved(pats, bv, av).0,
            c.vias == fv,
            after@ == c,
        decreases before.vias.len() - x,
    {
        let b = &before.vias[x];
        assert(bv.vias[x as int] == b@);
        if b.locked && is_chosen(patterns, b.net.as_str()) {
            let mut u: usize = 0;
            let mut found = false;
            while u < after.vias.len() && !found
                invariant
                    u <= after.vias@.len(),
                    fv == via_views(after.vias@),
                    found ==> exists|t: int| 0 <= t < fv.len() && fv[t].key == b@.key,
                    !found ==> forall|t: int| 0 <= t < u ==> fv[t].key != b@.key,
                decreases after.vias.len() - u + if found { 0int } else { 1int },
            {
                assert(fv[u as int] == after.vias@[u as int]@);
                if same_text(after.vias[u].key.as_str(), b.key.as_str()) {
                    found = true;
                } else {
                    u += 1;
                }
            }
            if !found {
                let e = text3("router changed a locked via on '", b.net.as_str(), "'");
                proof {
                    assert(!(exists|t: int| 0 <= t < fv.len() && fv[t].key == bv.vias[x as int].key));
                    assert(bv.vias[x as int].locked);
                    assert(chosen(pats, bv.vias[x as int].net));
                    assert(lost_via(pats, bv.vias, fv, x as nat) is None);
                    assert(lost_via(pats, bv.vias, fv, (x + 1) as nat) == Some(b@.net));
                    lemma_lost_via_stops(pats, bv.vias, fv, (x + 1) as nat, bv.vias.len());
                }
                return Err(e);
            }
        }
        x += 1;
    }
    Ok(())
}

} // verus!

verus! {

proof fn lemma_vias_where_concat(patterns: Seq<Seq<u8>>, a: Seq<ViaV>, b: Seq<ViaV>, is_chosen: bool, k: nat)
    requires
        k <= b.len(),
    ensures
        vias_where(patterns, a + b, is_chosen, (a.len() + k) as nat) == vias_where(patterns, a, is_chosen, a.len())
            + vias_where(patterns, b, is_chosen, k),
    decreases k,
{
    if k == 0 {
        assert((a + b).take(a.len() as int) =~= a);
        lemma_vias_where_prefix(patterns, a + b, a, is_chosen, a.len());
        assert(vias_where(patterns, a, is_chosen, a.len()) + Seq::<ViaV>::empty() =~= vias_where(patterns, a, is_chosen, a.len()));
    } else {
        lemma_vias_where_concat(patterns, a, b, is_chosen, (k - 1) as nat);
        assert((a + b)[a.len() + k - 1] == b[k - 1]);
        assert(vias_where(patterns, a, is_chosen, a.len()) + vias_where(patterns, b, is_chosen, (k - 1) as nat) + (if chosen(
            patterns,
            b[k - 1].net,
        ) == is_chosen {
            seq![b[k - 1]]
        } else {
            Seq::empty()
        }) =~= vias_where(patterns, a, is_chosen, a.len()) + vias_where(patterns, b, is_chosen, k));
    }
}

proof fn lemma_vias_where_prefix(patterns: Seq<Seq<u8>>, s: Seq<ViaV>, p: Seq<ViaV>, is_chosen: bool, k: nat)
    requires
        k <= p.len(),
        p.len() <= s.len(),
        forall|i: int| 0 <= i < p.len() ==> s[i] == p[i],
    ensures
        vias_where(patterns, s, is_chosen, k) == vias_where(patterns, p, is_chosen, k),
    decreases k,
{
    if k > 0 {
        lemma_vias_where_prefix(patterns, s, p, is_chosen, (k - 1) as nat);
    }
}

proof fn lemma_vias_where_all(patterns: Seq<Seq<u8>>, s: Seq<ViaV>, is_chosen: bool, k: nat)
    requires
        k <= s.len(),
    ensures
        forall|i: int|
            0 <= i < vias_where(patterns, s, is_chosen, k).len() ==> chosen(
                patterns,
                #[trigger] vias_where(patterns, s, is_chosen, k)[i].net,
            ) == is_chosen,
        vias_where(patterns, vias_where(patterns, s, is_chosen, k), is_chosen, vias_where(patterns, s, is_chosen, k).len())
            == vias_where(patterns, s, is_chosen, k),
        vias_where(patterns, vias_where(patterns, s, is_chosen, k), !is_chosen, vias_where(patterns, s, is_chosen, k).len())
            == Seq::<ViaV>::empty(),
    decreases k,
{
    if k > 0 {
        lemma_vias_where_all(patterns, s, is_chosen, (k - 1) as nat);
        let prev = vias_where(patterns, s, is_chosen, (k - 1) as nat);
        let cur = vias_where(patterns, s, is_chosen, k);
        if chosen(patterns, s[k - 1].net) == is_chosen {
            assert(cur == prev.push(s[k - 1]));
            lemma_vias_where_prefix(patterns, cur, prev, is_chosen, prev.len());
            lemma_vias_where_prefix(patterns, cur, prev, !is_chosen, prev.len());
        } else {
            assert(cur =~= prev);
        }
    }
}

/// After a successful targeted run, the vias of nets that were not chosen are exactly those of
/// the previous cache, in their order.
pub proof fn law_unchosen_vias_are_restored(patterns: Seq<Seq<u8>>, before: CopperV, after: CopperV)
    requires
        preserved(patterns, before, after).1 is Ok,
    ensures
        ({
            let res = preserved(patterns, before, after).0;
            vias_where(patterns, res.vias, false, res.vias.len()) == vias_where(patterns, before.vias, false, before.vias.len())
        }),
{
    let a = vias_where(patterns, after.vias, true, after.vias.len());
    let b = vias_where(patterns, before.vias, false, before.vias.len());
    lemma_vias_where_all(patterns, after.vias, true, after.vias.len());
    lemma_vias_where_all(patterns, before.vias, false, before.vias.len());
    lemma_vias_where_concat(patterns, a, b, false, b.len());
    assert(Seq::<ViaV>::empty() + b =~= b);
}

proof fn lemma_lost_via_none(patterns: Seq<Seq<u8>>, before: Seq<ViaV>, vias: Seq<ViaV>, k: nat, t: int)
    requires
        lost_via(patterns, before, vias, k) is None,
        0 <= t < k,
        before[t].locked,
        chosen(patterns, before[t].net),
    ensures
        exists|u: int| 0 <= u < vias.len() && vias[u].key == before[t].key,
    decreases k,
{
    if t < k - 1 {
        lemma_lost_via_none(patterns, before, vias, (k - 1) as nat, t);
    }
}

/// After a successful targeted run, every locked via of a chosen net is still there.
pub proof fn law_locked_vias_survive(patterns: Seq<Seq<u8>>, before: CopperV, after: CopperV, t: int)
    requires
        preserved(patterns, before, after).1 is Ok,
        0 <= t < before.vias.len(),
        before.vias[t].locked,
        chosen(patterns, before.vias[t].net),
    ensures
        exists|u: int|
            0 <= u < preserved(patterns, before, after).0.vias.len() && preserved(patterns, before, after).0.vias[u].key
                == before.vias[t].key,
{
    let res = preserved(patterns, before, after).0;
    lemma_lost_via_none(patterns, before.vias, res.vias, before.vias.len(), t);
}

} // verus!

verus! {

proof fn lemma_net_index_push(s: Seq<NetV>, m: NetV, x: Seq<char>, from: int)
    requires
        0 <= from,
        net_index(s, x, from) is Some,
    ensures
        net_index(s.push(m), x, from) == net_index(s, x, from),
    decreases s.len() - from,
{
    if from < s.len() && s[from].net != x {
        lemma_net_index_push(s, m, x, from + 1);
    }
}

proof fn lemma_net_index_other(s: Seq<NetV>, m: NetV, x: Seq<char>, from: int)
    requires
        0 <= from,
        m.net != x,
    ensures
        net_index(put_net(s, m), x, from) == net_index(s, x, from),
    decreases s.len() + 1 - from,
{
    let t = put_net(s, m);
    match net_index(s, m.net, 0) {
        Some(i) => {
            lemma_net_index_bounds(s, m.net, 0);
            lemma_net_index_update(s, i, m, x, from);
        },
        None => {
            lemma_net_index_append(s, m, x, from);
        },
    }
}

proof fn lemma_net_index_bounds(s: Seq<NetV>, x: Seq<char>, from: int)
    requires
        0 <= from,
    ensures
        match net_index(s, x, from) {
            Some(i) => from <= i < s.len() && s[i].net == x,
            None => true,
        },
    decreases s.len() - from,
{
    if from < s.len() && s[from].net != x {
        lemma_net_index_bounds(s, x, from + 1);
    }
}

proof fn lemma_net_index_update(s: Seq<NetV>, i: int, m: NetV, x: Seq<char>, from: int)
    requires
        0 <= from,
        0 <= i < s.len(),
        m.net != x,
        s[i].net != x,
    ensures
        net_index(s.update(i, m), x, from) == net_index(s, x, from),
    decreases s.len() - from,
{
    if from < s.len() {
        lemma_net_index_update(s, i, m, x, from + 1);
    }
}

proof fn lemma_net_index_append(s: Seq<NetV>, m: NetV, x: Seq<char>, from: int)
    requires
        0 <= from,
        m.net != x,
    ensures
        net_index(s.push(m), x, from) == net_index(s, x, from),
    decreases s.len() + 1 - from,
{
    if from < s.len() + 1 {
        lemma_net_index_append(s, m, x, from + 1);
    }
}

proof fn lemma_merge_clean(patterns: Seq<Seq<u8>>, before: Seq<NetV>, after: Seq<NetV>, k: nat, big: nat)
    requires
        k <= big,
        route_merge(patterns, before, after, big).1 is None,
    ensures
        route_merge(patterns, before, after, k).1 is None,
{
    if route_merge(patterns, before, after, k).1 is Some {
        lemma_merge_stops(patterns, before, after, k, big);
    }
}

proof fn lemma_merge_keeps(patterns: Seq<Seq<u8>>, before: Seq<NetV>, after: Seq<NetV>, t: int, k: nat)
    requires
        0 <= t < k <= before.len(),
        !chosen(patterns, before[t].net),
        route_merge(patterns, before, after, k).1 is None,
        forall|a: int, b: int| 0 <= a < b < before.len() ==> before[a].net != before[b].net,
    ensures
        ({
            let cur = route_merge(patterns, before, after, k).0;
            match net_index(cur, before[t].net, 0) {
                Some(i) => 0 <= i < cur.len() && cur[i] == before[t],
                None => false,
            }
        }),
    decreases k,
{
    let x = before[t].net;
    let prev = route_merge(patterns, before, after, (k - 1) as nat);
    lemma_merge_clean(patterns, before, after, (k - 1) as nat, k);
    if k - 1 == t {
        let cur = put_net(prev.0, before[t]);
        match net_index(prev.0, x, 0) {
            Some(i) => {
                lemma_net_index_bounds(prev.0, x, 0);
                lemma_net_index_update_same(prev.0, i, before[t], 0);
            },
            None => {
                lemma_net_index_missing_push(prev.0, before[t], 0);
            },
        }
    } else {
        lemma_merge_keeps(patterns, before, after, t, (k - 1) as nat);
        let m = before[k - 1];
        if !chosen(patterns, m.net) {
            assert(m.net != x);
            lemma_net_index_other(prev.0, m, x, 0);
            let cur = put_net(prev.0, m);
            let i = net_index(prev.0, x, 0)->0;
            match net_index(prev.0, m.net, 0) {
                Some(j) => {
                    lemma_net_index_bounds(prev.0, m.net, 0);
                    assert(cur[i] == prev.0[i]);
                },
                None => {
                    assert(cur[i] == prev.0[i]);
                },
            }
        }
    }
}

proof fn lemma_net_index_update_same(s: Seq<NetV>, i: int, m: NetV, from: int)
    requires
        0 <= from <= i < s.len(),
        net_index(s, m.net, from) == Some(i),
    ensures
        net_index(s.update(i, m), m.net, from) == Some(i),
    decreases i - from,
{
    if from < i {
        lemma_net_index_update_same(s, i, m, from + 1);
    }
}

proof fn lemma_net_index_missing_push(s: Seq<NetV>, m: NetV, from: int)
    requires
        0 <= from <= s.len(),
        net_index(s, m.net, from) is None,
    ensures
        net_index(s.push(m), m.net, from) == Some(s.len() as int),
    decreases s.len() - from,
{
    if from < s.len() {
        lemma_net_index_missing_push(s, m, from + 1);
    }
}

proof fn lemma_kept_from(patterns: Seq<Seq<u8>>, before: Seq<NetV>, cur: Seq<NetV>, k: nat)
    requires
        k <= cur.len(),
    ensures
        forall|j: int|
            0 <= j < kept_nets(patterns, before, cur, k).len() ==> exists|a: int|
                0 <= a < k && cur[a] == #[trigger] kept_nets(patterns, before, cur, k)[j],
    decreases k,
{
    if k > 0 {
        lemma_kept_from(patterns, before, cur, (k - 1) as nat);
        let prev = kept_nets(patterns, before, cur, (k - 1) as nat);
        let now = kept_nets(patterns, before, cur, k);
        assert forall|j: int| 0 <= j < now.len() implies exists|a: int| 0 <= a < k && cur[a] == #[trigger] now[j] by {
            if j < prev.len() {
                assert(now[j] == prev[j]);
                let a = choose|a: int| 0 <= a < k - 1 && cur[a] == prev[j];
                assert(cur[a] == now[j]);
            } else {
                assert(now[j] == cur[k - 1]);
            }
        }
    }
}

proof fn lemma_net_index_none(s: Seq<NetV>, x: Seq<char>, from: int)
    requires
        0 <= from,
        forall|j: int| from <= j < s.len() ==> #[trigger] s[j].net != x,
    ensures
        net_index(s, x, from) is None,
    decreases s.len() - from,
{
    if from < s.len() {
        lemma_net_index_none(s, x, from + 1);
    }
}

proof fn lemma_first_before(s: Seq<NetV>, x: Seq<char>, from: int, j: int)
    requires
        0 <= from <= j,
        net_index(s, x, from) is Some,
        j < net_index(s, x, from)->0,
    ensures
        s[j].net != x,
    decreases j - from,
{
    if from < j {
        lemma_first_before(s, x, from + 1, j);
    }
}

proof fn lemma_kept_keeps(patterns: Seq<Seq<u8>>, before: Seq<NetV>, cur: Seq<NetV>, x: Seq<char>, i: int, k: nat)
    requires
        0 <= i < k <= cur.len(),
        net_index(cur, x, 0) == Some(i),
        chosen(patterns, x) || lists_net(before, x),
    ensures
        ({
            let kept = kept_nets(patterns, before, cur, k);
            match net_index(kept, x, 0) {
                Some(j) => 0 <= j < kept.len() && kept[j] == cur[i],
                None => false,
            }
        }),
    decreases k,
{
    lemma_net_index_bounds(cur, x, 0);
    let prev = kept_nets(patterns, before, cur, (k - 1) as nat);
    let now = kept_nets(patterns, before, cur, k);
    if i < k - 1 {
        lemma_kept_keeps(patterns, before, cur, x, i, (k - 1) as nat);
        lemma_net_index_bounds(prev, x, 0);
        if now != prev {
            assert(now == prev.push(cur[k - 1]));
            lemma_net_index_push(prev, cur[k - 1], x, 0);
        }
    } else {
        assert(now == prev.push(cur[i]));
        lemma_kept_from(patterns, before, cur, (k - 1) as nat);
        assert forall|j: int| 0 <= j < prev.len() implies #[trigger] prev[j].net != x by {
            let a = choose|a: int| 0 <= a < k - 1 && cur[a] == prev[j];
            lemma_first_before(cur, x, 0, a);
        }
        lemma_net_index_none(prev, x, 0);
        lemma_net_index_missing_push(prev, cur[i], 0);
    }
}

/// After a successful targeted run, a net that was not chosen has exactly the routes it had in
/// the previous cache (net names of a cache are distinct).
pub proof fn law_unchosen_nets_are_restored(patterns: Seq<Seq<u8>>, before: CopperV, after: CopperV, t: int)
    requires
        preserved(patterns, before, after).1 is Ok,
        forall|a: int, b: int| 0 <= a < b < before.routes.len() ==> before.routes[a].net != before.routes[b].net,
        0 <= t < before.routes.len(),
        !chosen(patterns, before.routes[t].net),
    ensures
        ({
            let res = preserved(patterns, before, after).0;
            match net_index(res.routes, before.routes[t].net, 0) {
                Some(i) => 0 <= i < res.routes.len() && res.routes[i] == before.routes[t],
                None => false,
            }
        }),
{
    let (cur, err) = route_merge(patterns, before.routes, after.routes, before.routes.len());
    lemma_merge_keeps(patterns, before.routes, after.routes, t, before.routes.len());
    let x = before.routes[t].net;
    let i = net_index(cur, x, 0)->0;
    assert(lists_net(before.routes, x)) by {
        lemma_net_index_bounds(before.routes, x, 0);
        if net_index(before.routes, x, 0) is None {
            lemma_net_index_some(before.routes, x, 0, t);
        }
    }
    lemma_kept_keeps(patterns, before.routes, cur, x, i, cur.len());
}

proof fn lemma_net_index_some(s: Seq<NetV>, x: Seq<char>, from: int, t: int)
    requires
        0 <= from <= t < s.len(),
        s[t].net == x,
    ensures
        net_index(s, x, from) is Some,
    decreases t - from,
{
    if from < t && s[from].net != x {
        lemma_net_index_some(s, x, from + 1, t);
    }
}

} // verus!

verus! {

/// Copper with every route and via of a net that the patterns do not choose locked: the
/// router must treat that copper as fixed input.
pub open spec fn locked_outside(patterns: Seq<Seq<u8>>, c: CopperV) -> CopperV {
    CopperV {
        routes: Seq::new(
            c.routes.len(),
            |i: int|
                NetV {
                    net: c.routes[i].net,
                    routes: Seq::new(
                        c.routes[i].routes.len(),
                        |j: int|
                            RouteV {
                                key: c.routes[i].routes[j].key,
                                locked: c.routes[i].routes[j].locked || !chosen(patterns, c.routes[i].net),
                                handle: c.routes[i].routes[j].handle,
                            },
                    ),
                },
        ),
        vias: Seq::new(
            c.vias.len(),
            |i: int|
                ViaV {
                    net: c.vias[i].net,
                    key: c.vias[i].key,
                    locked: c.vias[i].locked || !chosen(patterns, c.vias[i].net),
                    handle: c.vias[i].handle,
                },
        ),
    }
}

/// Locks every route and via of the nets outside `patterns`, so that a targeted routing run
/// sees them as immutable.
pub fn lock_unselected(copper: &mut Copper, patterns: &[String])
    ensures
        final(copper)@ == locked_outside(pattern_bytes(patterns@), old(copper)@),
{
    let ghost p = pattern_bytes(patterns@);
    let ghost target = locked_outside(p, copper@);
    let mut routes: Vec<NetRoutes> = Vec::new();
    let mut i: usize = 0;
    while i < copper.routes.len()
        invariant
            i <= copper.routes@.len(),
            p == pattern_bytes(patterns@),
            target == locked_outside(p, copper@),
            routes@.len() == i,
            forall|k: int| 0 <= k < i ==> #[trigger] routes@[k]@ == target.routes[k],
        decreases copper.routes.len() - i,
    {
        let n = &copper.routes[i];
        let keep = is_chosen(patterns, n.net.as_str());
        let mut rs: Vec<CopperRoute> = Vec::new();
        let mut j: usize = 0;
        while j < n.routes.len()
            invariant
                j <= n.routes@.len(),
                n == copper.routes@[i as int],
                keep == chosen(p, n.net@),
                rs@.len() == j,
                forall|q: int|
                    0 <= q < j ==> #[trigger] rs@[q]@ == (RouteV {
                        key: n.routes@[q]@.key,
                        locked: n.routes@[q]@.locked || !keep,
                        handle: n.routes@[q]@.handle,
                    }),
            decreases n.routes.len() - j,
        {
            let r = &n.routes[j];
            rs.push(CopperRoute { key: r.key.clone(), locked: r.locked || !keep, handle: r.handle });
            j += 1;
        }
        let net = NetRoutes { net: n.net.clone(), routes: rs };
        assert(net@.routes =~= target.routes[i as int].routes);
        routes.push(net);
        i += 1;
    }
    let mut vias: Vec<CopperVia> = Vec::new();
    let mut k: usize = 0;
    while k < copper.vias.len()
        invariant
            k <= copper.vias@.len(),
            p == pattern_bytes(patterns@),
            target == locked_outside(p, copper@),
            vias@.len() == k,
            forall|q: int| 0 <= q < k ==> #[trigger] vias@[q]@ == target.vias[q],
        decreases copper.vias.len() - k,
    {
        let v = &copper.vias[k];
        let keep = is_chosen(patterns, v.net.as_str());
        vias.push(CopperVia { net: v.net.clone(), key: v.key.clone(), locked: v.locked || !keep, handle: v.handle });
        k += 1;
    }
    assert(net_views(routes@) =~= target.routes);
    assert(via_views(vias@) =~= target.vias);
    *copper = Copper { routes, vias };
}

} // verus!

verus! {

/// After locking, every route and via of a net outside the selection is locked, and nothing
/// else about the copper changes: the same nets, geometry keys and handles, in the same order.
pub proof fn law_unselected_copper_is_locked(patterns: Seq<Seq<u8>>, c: CopperV, i: int, j: int, v: int)
    ensures
        ({
            let l = locked_outside(patterns, c);
            &&& l.routes.len() == c.routes.len()
            &&& l.vias.len() == c.vias.len()
            &&& (0 <= i < c.routes.len() ==> l.routes[i].net == c.routes[i].net && l.routes[i].routes.len()
                == c.routes[i].routes.len())
            &&& (0 <= i < c.routes.len() && 0 <= j < c.routes[i].routes.len() ==> {
                &&& l.routes[i].routes[j].key == c.routes[i].routes[j].key
                &&& l.routes[i].routes[j].handle == c.routes[i].routes[j].handle
                &&& (!chosen(patterns, c.routes[i].net) ==> l.routes[i].routes[j].locked)
                &&& (c.routes[i].routes[j].locked ==> l.routes[i].routes[j].locked)
            })
            &&& (0 <= v < c.vias.len() ==> {
                &&& l.vias[v].net == c.vias[v].net
                &&& l.vias[v].key == c.vias[v].key
                &&& (!chosen(patterns, c.vias[v].net) ==> l.vias[v].locked)
                &&& (c.vias[v].locked ==> l.vias[v].locked)
            })
        }),
{
}

} // verus!

verus! {

/// The router that produced a route cache: its name and version, when known.
#[derive(Debug)]
pub struct RouterIdentity {
    pub name: String,
    pub version: Option<String>,
}

} // verus!

verus! {

/// What reading a routing cache gave: no file, a file that could not be read (the reason),
/// one that is not a routing cache (the parser's reason), or the cache's format version,
/// project name and input fingerprint.
#[derive(Debug)]
pub enum CacheRead {
    Missing,
    Unreadable(String),
    Invalid(String),
    Read { format_version: u32, project: String, input_fingerprint: String },
}

/// The error with which a routing cache read as `read` from `path` is refused for the project
/// `project` of document `input` whose routing inputs have fingerprint `fingerprint`, if it is:
/// a missing cache (ROUTE002), an unreadable one (ROUTE003), one that does not parse
/// (ROUTE004), one of another format or project (ROUTE005), or a stale one (ROUTE006).
pub open spec fn cache_refusal(
    read: CacheRead,
    input: Seq<char>,
    path: Seq<char>,
    project: Seq<char>,
    fingerprint: Seq<char>,
) -> Option<crate::diagnostic::DiagV> {
    match read {
        CacheRead::Missing => Some(
            crate::route_run::error_v(
                "ROUTE002"@,
                "routing cache is missing"@,
                input,
                Some("run 'kil route "@ + input + "' first"@),
            ),
        ),
        CacheRead::Unreadable(e) => Some(crate::route_run::error_v("ROUTE003"@, "cannot read routing cache: "@ + e@, path, None)),
        CacheRead::Invalid(e) => Some(crate::route_run::error_v("ROUTE004"@, "invalid routing cache JSON: "@ + e@, path, None)),
        CacheRead::Read { format_version, project: p, input_fingerprint } => if format_version != 2 || p@ != project {
            Some(crate::route_run::error_v("ROUTE005"@, "routing cache belongs to another format or project"@, path, None))
        } else if input_fingerprint@ != fingerprint {
            Some(
                crate::route_run::error_v(
                    "ROUTE006"@,
                    "routing cache is stale"@,
                    path,
                    Some("rerun 'kil route "@ + input + "'"@),
                ),
            )
        } else {
            None
        },
    }
}

/// Decides whether a routing cache may be applied (see `cache_refusal`).
pub fn cache_acceptance(read: &CacheRead, input: &str, path: &str, project: &str, fingerprint: &str) -> (r: Result<
    (),
    crate::diagnostic::Diagnostic,
>)
    ensures
        match cache_refusal(*read, input@, path@, project@, fingerprint@) {
            Some(d) => r matches Err(x) && x@ == d,
            None => r is Ok,
        },
{
    match read {
        CacheRead::Missing => {
            let help = crate::text::text3("run 'kil route ", input, "' first");
            Err(crate::route_run::error("ROUTE002", "routing cache is missing", input, Some(help.as_str())))
        },
        CacheRead::Unreadable(e) => {
            let m = crate::text::text2("cannot read routing cache: ", e.as_str());
            Err(crate::route_run::error("ROUTE003", m.as_str(), path, None))
        },
        CacheRead::Invalid(e) => {
            let m = crate::text::text2("invalid routing cache JSON: ", e.as_str());
            Err(crate::route_run::error("ROUTE004", m.as_str(), path, None))
        },
        CacheRead::Read { format_version, project: p, input_fingerprint } => {
            if *format_version != 2 || !crate::text::same_text(p.as_str(), project) {
                Err(crate::route_run::error("ROUTE005", "routing cache belongs to another format or project", path, None))
            } else if !crate::text::same_text(input_fingerprint.as_str(), fingerprint) {
                let help = crate::text::text3("rerun 'kil route ", input, "'");
                Err(crate::route_run::error("ROUTE006", "routing cache is stale", path, Some(help.as_str())))
            } else {
                Ok(())
            }
        },
    }
}

} // verus!

verus! {

/// Whether pattern `p` spells `s` position by position, each `?` standing for any one byte.
pub open spec fn spells_with_wildcards(p: Seq<u8>, s: Seq<u8>) -> bool {
    p.len() == s.len() && forall|i: int| 0 <= i < p.len() ==> #[trigger] p[i] == 63 || p[i] == s[i]
}

/// A `?` matches exactly one arbitrary byte: a pattern that spells a name position by
/// position, with `?` wherever the name may have any byte, matches that name.
pub proof fn law_question_mark_matches_any_one_byte(p: Seq<u8>, s: Seq<u8>)
    requires
        spells_with_wildcards(p, s),
    ensures
        glob(p, s),
    decreases p.len(),
{
    if p.len() > 0 {
        let p1 = p.drop_last();
        let s1 = s.drop_last();
        assert(spells_with_wildcards(p1, s1)) by {
            assert forall|i: int| 0 <= i < p1.len() implies #[trigger] p1[i] == 63 || p1[i] == s1[i] by {
                assert(p1[i] == p[i] && s1[i] == s[i]);
            }
        }
        law_question_mark_matches_any_one_byte(p1, s1);
        assert(p[p.len() - 1] == 63 || p[p.len() - 1] == s[s.len() - 1]);
        if p.last() == 42 {
            assert(p.last() == s.last());
            assert(glob(p, s1)) by {
                assert(glob(p1, s1));
            }
        }
    }
}

/// A selector with a `?` selects every net whose name it spells with that `?` standing for
/// the byte there (leading `/` aside).
pub proof fn law_question_mark_selects(patterns: Seq<Seq<u8>>, net: Seq<u8>, i: int)
    requires
        0 <= i < patterns.len(),
        spells_with_wildcards(trim_slashes(patterns[i]), trim_slashes(net)),
    ensures
        net_selected(patterns, net),
{
    law_question_mark_matches_any_one_byte(trim_slashes(patterns[i]), trim_slashes(net));
}

/// Without `*`, a pattern matches only names of its own length that it spells position by
/// position: a `?` stands for exactly one byte, never for none or several, and every other
/// byte only for itself.
pub proof fn law_star_free_patterns_match_exactly_their_spellings(p: Seq<u8>, s: Seq<u8>)
    requires
        forall|i: int| 0 <= i < p.len() ==> #[trigger] p[i] != 42,
    ensures
        glob(p, s) <==> spells_with_wildcards(p, s),
    decreases p.len(),
{
    if spells_with_wildcards(p, s) {
        law_question_mark_matches_any_one_byte(p, s);
    }
    if p.len() > 0 {
        let p1 = p.drop_last();
        assert forall|i: int| 0 <= i < p1.len() implies #[trigger] p1[i] != 42 by {
            assert(p1[i] == p[i]);
        }
        if s.len() > 0 {
            law_star_free_patterns_match_exactly_their_spellings(p1, s.drop_last());
        }
        assert(p[p.len() - 1] != 42);
        if glob(p, s) {
            let s1 = s.drop_last();
            assert(spells_with_wildcards(p1, s1));
            assert forall|i: int| 0 <= i < p.len() implies #[trigger] p[i] == 63 || p[i] == s[i] by {
                if i < p.len() - 1 {
                    assert(p1[i] == p[i] && s1[i] == s[i]);
                }
            }
        }
    } else {
        if glob(p, s) {
            assert(s.len() == 0);
        }
    }
}

/// Matches compose: where `p` matches `x` and `q` matches `z`, `p` followed by `q` matches `x`
/// followed by `z`.
proof fn lemma_glob_concat(p: Seq<u8>, x: Seq<u8>, q: Seq<u8>, z: Seq<u8>)
    requires
        glob(p, x),
        glob(q, z),
    ensures
        glob(p + q, x + z),
    decreases q.len(), z.len(),
{
    if q.len() == 0 {
        assert(p + q =~= p);
        assert(x + z =~= x);
    } else {
        assert((p + q).drop_last() =~= p + q.drop_last());
        assert((p + q).last() == q.last());
        if q.last() == 42 {
            if glob(q.drop_last(), z) {
                lemma_glob_concat(p, x, q.drop_last(), z);
            } else {
                lemma_glob_concat(p, x, q, z.drop_last());
                assert((x + z).drop_last() =~= x + z.drop_last());
            }
        } else {
            lemma_glob_concat(p, x, q.drop_last(), z.drop_last());
            assert((x + z).drop_last() =~= x + z.drop_last());
            assert((x + z).last() == z.last());
        }
    }
}

/// A trailing `*` matches any run of bytes after what the rest of the pattern matches.
proof fn lemma_star_tail(p: Seq<u8>, x: Seq<u8>, y: Seq<u8>)
    requires
        glob(p, x),
    ensures
        glob(p.push(42u8), x + y),
    decreases y.len(),
{
    let ps = p.push(42u8);
    assert(ps.drop_last() =~= p);
    assert(ps.last() == 42);
    if y.len() == 0 {
        assert(x + y =~= x);
    } else {
        lemma_star_tail(p, x, y.drop_last());
        assert((x + y).drop_last() =~= x + y.drop_last());
    }
}

/// A `*` matches any run of bytes, none included: where `p` matches `x` and `q` matches
/// `z`, the pattern `p*q` matches `x`, then any bytes `y`, then `z`.
pub proof fn law_star_matches_any_run(p: Seq<u8>, q: Seq<u8>, x: Seq<u8>, y: Seq<u8>, z: Seq<u8>)
    requires
        glob(p, x),
        glob(q, z),
    ensures
        glob(p + seq![42u8] + q, x + y + z),
{
    lemma_star_tail(p, x, y);
    assert(p.push(42u8) =~= p + seq![42u8]);
    lemma_glob_concat(p + seq![42u8], x + y, q, z);
}

} // verus!
