//! Electrical routing rules: board-wide floors and named net classes, with lengths held
//! as whole nanometres.
use crate::text::{lemma_views_push, views};
use vstd::prelude::*;

verus! {

/// A named net class: explicit member nets, clearance, widths and layer policy.
#[derive(Debug)]
pub struct NetClass {
    pub name: String,
    pub nets: Vec<String>,
    pub clearance: u64,
    pub minimum_track_width: u64,
    pub preferred_track_width: u64,
    /// Copper layers for tracks (and, by default, zones); empty allows every layer.
    pub allowed_layers: Vec<String>,
    /// Copper layers for zones, overriding `allowed_layers`; empty allows every layer.
    pub zone_layers: Option<Vec<String>>,
    /// Whether through vias are allowed, overriding the outer-layer default.
    pub allow_through_vias: Option<bool>,
}

/// Board-wide routing floors and the net classes.
#[derive(Debug)]
pub struct NetRules {
    pub clearance: u64,
    pub minimum_track_width: u64,
    pub preferred_track_width: u64,
    pub net_classes: Vec<NetClass>,
}

/// The plain value of a net class.
pub struct ClassView {
    pub name: Seq<char>,
    pub nets: Seq<Seq<char>>,
    pub clearance: nat,
    pub minimum_track_width: nat,
    pub preferred_track_width: nat,
    pub allowed_layers: Seq<Seq<char>>,
    pub zone_layers: Option<Seq<Seq<char>>>,
    pub allow_through_vias: Option<bool>,
}

/// The plain value of the rules.
pub struct RulesView {
    pub clearance: nat,
    pub minimum_track_width: nat,
    pub preferred_track_width: nat,
    pub net_classes: Seq<ClassView>,
}

impl View for NetClass {
    type V = ClassView;

    open spec fn view(&self) -> ClassView {
        ClassView {
            name: self.name@,
            nets: views(self.nets@),
            clearance: self.clearance as nat,
            minimum_track_width: self.minimum_track_width as nat,
            preferred_track_width: self.preferred_track_width as nat,
            allowed_layers: views(self.allowed_layers@),
            zone_layers: match self.zone_layers {
                Some(z) => Some(views(z@)),
                None => None,
            },
            allow_through_vias: self.allow_through_vias,
        }
    }
}

/// The plain values of a list of classes.
pub open spec fn class_views(s: Seq<NetClass>) -> Seq<ClassView> {
    s.map_values(|c: NetClass| c@)
}

impl View for NetRules {
    type V = RulesView;

    open spec fn view(&self) -> RulesView {
        RulesView {
            clearance: self.clearance as nat,
            minimum_track_width: self.minimum_track_width as nat,
            preferred_track_width: self.preferred_track_width as nat,
            net_classes: class_views(self.net_classes@),
        }
    }
}

/// Whether a class puts tracks on `layer`.
pub open spec fn class_allows(c: ClassView, layer: Seq<char>) -> bool {
    c.allowed_layers.len() == 0 || c.allowed_layers.contains(layer)
}

/// Whether a class puts zones on `layer`.
pub open spec fn class_allows_zone(c: ClassView, layer: Seq<char>) -> bool {
    match c.zone_layers {
        Some(z) => z.len() == 0 || z.contains(layer),
        None => class_allows(c, layer),
    }
}

/// Whether a class allows through vias; by default only when both outer layers carry tracks.
pub open spec fn class_allows_vias(c: ClassView) -> bool {
    match c.allow_through_vias {
        Some(v) => v,
        None => class_allows(c, "F.Cu"@) && class_allows(c, "B.Cu"@),
    }
}

/// Index of the first class whose members include `net`.
pub open spec fn class_index(classes: Seq<ClassView>, net: Seq<char>, from: int) -> Option<int>
    decreases classes.len() - from,
{
    if from < 0 || from >= classes.len() {
        None
    } else if classes[from].nets.contains(net) {
        Some(from)
    } else {
        class_index(classes, net, from + 1)
    }
}

/// The class governing `net`, if any.
pub open spec fn class_of(r: RulesView, net: Seq<char>) -> Option<ClassView> {
    match class_index(r.net_classes, net, 0) {
        Some(i) => Some(r.net_classes[i]),
        None => None,
    }
}

/// What determines whether two nets can share a router run.
pub struct Profile {
    pub layers: Seq<Seq<char>>,
    pub clearance: nat,
    pub vias: bool,
    pub min_width: nat,
    pub width: nat,
}

/// The layers of `board` that a net's tracks may use.
pub open spec fn net_layers(r: RulesView, board: Seq<Seq<char>>, net: Seq<char>) -> Seq<Seq<char>> {
    match class_of(r, net) {
        Some(c) => track_layers(c, board),
        None => board,
    }
}

/// The layers of `board` that a class allows for tracks, in board order.
pub open spec fn track_layers(c: ClassView, board: Seq<Seq<char>>) -> Seq<Seq<char>>
    decreases board.len(),
{
    if board.len() == 0 {
        Seq::empty()
    } else {
        track_layers(c, board.drop_last()) + if class_allows(c, board.last()) {
            seq![board.last()]
        } else {
            Seq::empty()
        }
    }
}

/// The routing profile of a net: its class's values or the board-wide ones.
pub open spec fn profile(r: RulesView, board: Seq<Seq<char>>, net: Seq<char>) -> Profile {
    match class_of(r, net) {
        Some(c) => Profile {
            layers: net_layers(r, board, net),
            clearance: c.clearance,
            vias: class_allows_vias(c),
            min_width: c.minimum_track_width,
            width: c.preferred_track_width,
        },
        None => Profile {
            layers: board,
            clearance: r.clearance,
            vias: true,
            min_width: r.minimum_track_width,
            width: r.preferred_track_width,
        },
    }
}

/// Whether `x` is among the strings of `v`.
pub fn contains_string(v: &Vec<String>, x: &str) -> (r: bool)
    ensures
        r == views(v@).contains(x@),
{
    let mut i: usize = 0;
    while i < v.len()
        invariant
            i <= v@.len(),
            forall|k: int| 0 <= k < i ==> views(v@)[k] != x@,
        decreases v.len() - i,
    {
        let same = {
            let a = crate::text::chars_of(v[i].as_str());
            let b = crate::text::chars_of(x);
            crate::text::same_chars(&a, &b)
        };
        assert(views(v@)[i as int] == v@[i as int]@);
        if same {
            return true;
        }
        i += 1;
    }
    false
}

impl NetClass {
    /// Whether tracks of this class may use `layer`: an empty list allows every layer.
    pub fn allows(&self, layer: &str) -> (r: bool)
        ensures
            r == class_allows(self@, layer@),
    {
        self.allowed_layers.len() == 0 || contains_string(&self.allowed_layers, layer)
    }

    /// Whether zones of this class may use `layer`.
    pub fn allows_zone(&self, layer: &str) -> (r: bool)
        ensures
            r == class_allows_zone(self@, layer@),
    {
        match &self.zone_layers {
            Some(z) => z.len() == 0 || contains_string(z, layer),
            None => self.allows(layer),
        }
    }

    /// Whether nets of this class may use through vias.
    pub fn allows_vias(&self) -> (r: bool)
        ensures
            r == class_allows_vias(self@),
    {
        match self.allow_through_vias {
            Some(v) => v,
            None => self.allows("F.Cu") && self.allows("B.Cu"),
        }
    }
}

impl NetRules {
    /// Index of the class governing `net`.
    pub fn class(&self, net: &str) -> (r: Option<usize>)
        ensures
            match r {
                Some(i) => class_index(self@.net_classes, net@, 0) == Some(i as int) && i < self.net_classes@.len(),
                None => class_index(self@.net_classes, net@, 0) is None,
            },
    {
        let mut i: usize = 0;
        while i < self.net_classes.len()
            invariant
                i <= self.net_classes@.len(),
                class_index(self@.net_classes, net@, 0) == class_index(self@.net_classes, net@, i as int),
            decreases self.net_classes.len() - i,
        {
            assert(self@.net_classes[i as int] == self.net_classes@[i as int]@);
            if contains_string(&self.net_classes[i].nets, net) {
                return Some(i);
            }
            i += 1;
        }
        None
    }

    /// The preferred track width of `net`: its class's, or the board default.
    pub fn width(&self, net: &str) -> (r: u64)
        ensures
            r as nat == profile(self@, Seq::empty(), net@).width,
    {
        match self.class(net) {
            Some(i) => {
                assert(self@.net_classes[i as int] == self.net_classes@[i as int]@);
                self.net_classes[i].preferred_track_width
            },
            None => self.preferred_track_width,
        }
    }
}

/// A copy of the layers of `board` that `class` allows for tracks.
fn track_layers_exec(class: &NetClass, board: &Vec<String>) -> (r: Vec<String>)
    ensures
        views(r@) == track_layers(class@, views(board@)),
{
    let mut r: Vec<String> = Vec::new();
    let mut i: usize = 0;
    while i < board.len()
        invariant
            i <= board@.len(),
            views(r@) == track_layers(class@, views(board@).take(i as int)),
        decreases board.len() - i,
    {
        let ghost b = views(board@).take(i + 1);
        assert(b.drop_last() =~= views(board@).take(i as int));
        assert(b.last() == board@[i as int]@);
        if class.allows(board[i].as_str()) {
            let ghost before = r@;
            r.push(board[i].clone());
            proof {
                lemma_views_push(before, board@[i as int]);
                assert(views(r@) =~= track_layers(class@, b));
            }
        } else {
            assert(track_layers(class@, b) =~= track_layers(class@, views(board@).take(i as int)));
        }
        i += 1;
    }
    assert(views(board@).take(board@.len() as int) =~= views(board@));
    r
}

/// The executable routing profile of one net.
pub struct NetProfile {
    pub layers: Vec<String>,
    pub clearance: u64,
    pub vias: bool,
    pub min_width: u64,
    pub width: u64,
}

impl View for NetProfile {
    type V = Profile;

    open spec fn view(&self) -> Profile {
        Profile {
            layers: views(self.layers@),
            clearance: self.clearance as nat,
            vias: self.vias,
            min_width: self.min_width as nat,
            width: self.width as nat,
        }
    }
}

pub(crate) fn copy_strings(v: &Vec<String>) -> (r: Vec<String>)
    ensures
        views(r@) == views(v@),
{
    let mut r: Vec<String> = Vec::new();
    let mut i: usize = 0;
    while i < v.len()
        invariant
            i <= v@.len(),
            views(r@) == views(v@).take(i as int),
        decreases v.len() - i,
    {
        let ghost before = r@;
        r.push(v[i].clone());
        proof {
            lemma_views_push(before, v@[i as int]);
            assert(views(r@) =~= views(v@).take(i + 1));
        }
        i += 1;
    }
    assert(views(v@).take(v@.len() as int) =~= views(v@));
    r
}

/// The routing profile of `net` on a board with the given copper layers.
pub fn net_profile(rules: &NetRules, board: &Vec<String>, net: &str) -> (p: NetProfile)
    ensures
        p@ == profile(rules@, views(board@), net@),
{
    match rules.class(net) {
        Some(i) => {
            let c = &rules.net_classes[i];
            assert(rules@.net_classes[i as int] == c@);
            NetProfile {
                layers: track_layers_exec(c, board),
                clearance: c.clearance,
                vias: c.allows_vias(),
                min_width: c.minimum_track_width,
                width: c.preferred_track_width,
            }
        },
        None => NetProfile {
            layers: copy_strings(board),
            clearance: rules.clearance,
            vias: true,
            min_width: rules.minimum_track_width,
            width: rules.preferred_track_width,
        },
    }
}

/// The strictest minimum width of a group joined by a net with profile `p`.
pub open spec fn group_floor(ps: Seq<Profile>, group: Seq<usize>, p: Profile) -> nat
    decreases group.len(),
{
    if group.len() == 0 {
        p.min_width
    } else {
        let f = group_floor(ps, group.drop_last(), p);
        let m = ps[group.last() as int].min_width;
        if f >= m {
            f
        } else {
            m
        }
    }
}

/// Whether a net with profile `p` may join `group`: same layers, clearance and via policy as
/// its first member, and the group's strictest minimum width fits every preferred width.
pub open spec fn joins(ps: Seq<Profile>, group: Seq<usize>, p: Profile) -> bool {
    let floor = group_floor(ps, group, p);
    &&& group.len() > 0
    &&& ps[group[0] as int].layers == p.layers
    &&& ps[group[0] as int].clearance == p.clearance
    &&& ps[group[0] as int].vias == p.vias
    &&& floor <= p.width
    &&& forall|k: int| 0 <= k < group.len() ==> floor <= ps[#[trigger] group[k] as int].width
}

/// Index of the first group at or after `from` that a net with profile `p` may join.
pub open spec fn first_joinable(ps: Seq<Profile>, groups: Seq<Seq<usize>>, p: Profile, from: int) -> Option<int>
    decreases groups.len() - from,
{
    if from < 0 || from >= groups.len() {
        None
    } else if joins(ps, groups[from], p) {
        Some(from)
    } else {
        first_joinable(ps, groups, p, from + 1)
    }
}

/// The groups (as net indices) formed by the first `n` nets, each joining the first
/// compatible group or starting a new one.
pub open spec fn grouping(ps: Seq<Profile>, n: nat) -> Seq<Seq<usize>>
    decreases n,
{
    if n == 0 {
        Seq::empty()
    } else {
        let g = grouping(ps, (n - 1) as nat);
        let i = (n - 1) as usize;
        match first_joinable(ps, g, ps[i as int], 0) {
            Some(j) => g.update(j, g[j].push(i)),
            None => g.push(seq![i]),
        }
    }
}

/// The number of layers of a group's first net, by which groups are ordered.
pub open spec fn layer_key(ps: Seq<Profile>, group: Seq<usize>) -> nat {
    ps[group[0] as int].layers.len()
}

/// `g` placed after every group of `sorted` whose key does not exceed its own.
pub open spec fn insert_by_layers(ps: Seq<Profile>, sorted: Seq<Seq<usize>>, g: Seq<usize>) -> Seq<Seq<usize>>
    decreases sorted.len(),
{
    if sorted.len() == 0 {
        seq![g]
    } else if layer_key(ps, sorted.last()) <= layer_key(ps, g) {
        sorted.push(g)
    } else {
        insert_by_layers(ps, sorted.drop_last(), g).push(sorted.last())
    }
}

/// Groups stably ordered by the layer count of their first net.
pub open spec fn sort_groups(ps: Seq<Profile>, gs: Seq<Seq<usize>>) -> Seq<Seq<usize>>
    decreases gs.len(),
{
    if gs.len() == 0 {
        Seq::empty()
    } else {
        insert_by_layers(ps, sort_groups(ps, gs.drop_last()), gs.last())
    }
}

/// The profiles of the nets.
pub open spec fn profiles(r: RulesView, board: Seq<Seq<char>>, nets: Seq<Seq<char>>) -> Seq<Profile> {
    nets.map_values(|n: Seq<char>| profile(r, board, n))
}

/// The names of a group's nets.
pub open spec fn group_names(nets: Seq<Seq<char>>, g: Seq<usize>) -> Seq<Seq<char>> {
    g.map_values(|k: usize| nets[k as int])
}

/// The net groups, as names, in routing order.
pub open spec fn partition(r: RulesView, board: Seq<Seq<char>>, nets: Seq<Seq<char>>) -> Seq<Seq<Seq<char>>> {
    let ps = profiles(r, board, nets);
    named(nets, sort_groups(ps, grouping(ps, nets.len())))
}

/// The plain values of index groups.
pub open spec fn index_groups(v: Seq<Vec<usize>>) -> Seq<Seq<usize>> {
    v.map_values(|g: Vec<usize>| g@)
}

fn same_strings(a: &Vec<String>, b: &Vec<String>) -> (r: bool)
    ensures
        r == (views(a@) == views(b@)),
{
    if a.len() != b.len() {
        return false;
    }
    let mut i: usize = 0;
    while i < a.len()
        invariant
            i <= a@.len(),
            a@.len() == b@.len(),
            forall|k: int| 0 <= k < i ==> views(a@)[k] == views(b@)[k],
        decreases a.len() - i,
    {
        assert(views(a@)[i as int] == a@[i as int]@);
        assert(views(b@)[i as int] == b@[i as int]@);
        if a[i] != b[i] {
            return false;
        }
        i += 1;
    }
    assert(views(a@) =~= views(b@));
    true
}

/// The plain values of net profiles.
pub open spec fn pviews(s: Seq<NetProfile>) -> Seq<Profile> {
    s.map_values(|q: NetProfile| q@)
}

/// A group's nets, by name.
pub open spec fn named(nets: Seq<Seq<char>>, gs: Seq<Seq<usize>>) -> Seq<Seq<Seq<char>>> {
    gs.map_values(|g: Seq<usize>| group_names(nets, g))
}

/// The plain values of groups of names.
pub open spec fn group_views(v: Seq<Vec<String>>) -> Seq<Seq<Seq<char>>> {
    v.map_values(|g: Vec<String>| views(g@))
}

fn joins_exec(ps: &Vec<NetProfile>, group: &Vec<usize>, p: &NetProfile) -> (r: bool)
    requires
        forall|k: int| 0 <= k < group@.len() ==> group@[k] < ps@.len(),
    ensures
        r == joins(pviews(ps@), group@, p@),
{
    let ghost pv = pviews(ps@);
    if group.len() == 0 {
        return false;
    }
    let first = &ps[group[0]];
    assert(pv[group@[0] as int] == first@);
    if !same_strings(&first.layers, &p.layers) || first.clearance != p.clearance || first.vias != p.vias {
        return false;
    }
    let mut floor: u64 = p.min_width;
    let mut i: usize = 0;
    assert(group@.take(0) =~= Seq::<usize>::empty());
    while i < group.len()
        invariant
            i <= group@.len(),
            pv == pviews(ps@),
            forall|k: int| 0 <= k < group@.len() ==> group@[k] < ps@.len(),
            floor as nat == group_floor(pv, group@.take(i as int), p@),
        decreases group.len() - i,
    {
        let m = ps[group[i]].min_width;
        assert(group@.take(i + 1).drop_last() =~= group@.take(i as int));
        assert(pv[group@[i as int] as int] == ps@[group@[i as int] as int]@);
        if m > floor {
            floor = m;
        }
        i += 1;
    }
    assert(group@.take(group@.len() as int) =~= group@);
    if floor > p.width {
        return false;
    }
    let mut k: usize = 0;
    while k < group.len()
        invariant
            k <= group@.len(),
            pv == pviews(ps@),
            forall|t: int| 0 <= t < group@.len() ==> group@[t] < ps@.len(),
            floor as nat == group_floor(pv, group@, p@),
            forall|t: int| 0 <= t < k ==> floor <= pv[#[trigger] group@[t] as int].width,
        decreases group.len() - k,
    {
        assert(pv[group@[k as int] as int] == ps@[group@[k as int] as int]@);
        if floor > ps[group[k]].width {
            return false;
        }
        k += 1;
    }
    true
}

/// The first group that net `n` may join.
fn find_group(ps: &Vec<NetProfile>, groups: &Vec<Vec<usize>>, n: usize) -> (r: Option<usize>)
    requires
        n < ps@.len(),
        forall|a: int, b: int|
            0 <= a < groups@.len() && 0 <= b < groups@[a]@.len() ==> #[trigger] groups@[a]@[b] < ps@.len(),
    ensures
        match r {
            Some(j) => j < groups@.len() && first_joinable(pviews(ps@), index_groups(groups@), pviews(ps@)[n as int], 0)
                == Some(j as int),
            None => first_joinable(pviews(ps@), index_groups(groups@), pviews(ps@)[n as int], 0) is None,
        },
{
    let ghost g = index_groups(groups@);
    let ghost p = pviews(ps@)[n as int];
    let mut j: usize = 0;
    while j < groups.len()
        invariant
            j <= groups@.len(),
            n < ps@.len(),
            g == index_groups(groups@),
            p == pviews(ps@)[n as int],
            forall|a: int, b: int|
                0 <= a < groups@.len() && 0 <= b < groups@[a]@.len() ==> #[trigger] groups@[a]@[b] < ps@.len(),
            first_joinable(pviews(ps@), g, p, 0) == first_joinable(pviews(ps@), g, p, j as int),
        decreases groups.len() - j,
    {
        assert(g[j as int] == groups@[j as int]@);
        assert(forall|k: int| 0 <= k < groups@[j as int]@.len() ==> groups@[j as int]@[k] < ps@.len());
        if joins_exec(ps, &groups[j], &ps[n]) {
            return Some(j);
        }
        j += 1;
    }
    None
}

fn copy_indices(v: &Vec<usize>) -> (r: Vec<usize>)
    ensures
        r@ == v@,
{
    let mut r: Vec<usize> = Vec::new();
    let mut t: usize = 0;
    while t < v.len()
        invariant
            t <= v@.len(),
            r@ == v@.take(t as int),
        decreases v@.len() - t,
    {
        r.push(v[t]);
        t += 1;
        assert(r@ =~= v@.take(t as int));
    }
    assert(r@ =~= v@);
    r
}

/// Inserting after the last group whose key does not exceed the new group's is placing it at
/// the position before the run of larger keys at the end.
proof fn lemma_insert_at(ps: Seq<Profile>, s: Seq<Seq<usize>>, g: Seq<usize>, p: int)
    requires
        0 <= p <= s.len(),
        forall|k: int| p <= k < s.len() ==> layer_key(ps, #[trigger] s[k]) > layer_key(ps, g),
        p == 0 || layer_key(ps, s[p - 1]) <= layer_key(ps, g),
    ensures
        insert_by_layers(ps, s, g) == s.insert(p, g),
    decreases s.len(),
{
    if s.len() == 0 {
        assert(s.insert(p, g) =~= seq![g]);
    } else if layer_key(ps, s.last()) <= layer_key(ps, g) {
        assert(s.insert(p, g) =~= s.push(g));
    } else {
        let d = s.drop_last();
        assert forall|k: int| p <= k < d.len() implies layer_key(ps, #[trigger] d[k]) > layer_key(ps, g) by {
            assert(d[k] == s[k]);
        }
        if p > 0 {
            assert(d[p - 1] == s[p - 1]);
        }
        lemma_insert_at(ps, d, g, p);
        assert(d.insert(p, g).push(s.last()) =~= s.insert(p, g));
    }
}

/// The names of the nets at the indices of `g`.
fn names_of(nets: &Vec<String>, g: &Vec<usize>) -> (r: Vec<String>)
    requires
        forall|k: int| 0 <= k < g@.len() ==> g@[k] < nets@.len(),
    ensures
        views(r@) == group_names(views(nets@), g@),
{
    let mut r: Vec<String> = Vec::new();
    let mut t: usize = 0;
    while t < g.len()
        invariant
            t <= g@.len(),
            forall|k: int| 0 <= k < g@.len() ==> g@[k] < nets@.len(),
            views(r@) == group_names(views(nets@), g@.take(t as int)),
        decreases g@.len() - t,
    {
        let ghost before = r@;
        r.push(nets[g[t]].clone());
        proof {
            lemma_views_push(before, nets@[g@[t as int] as int]);
            assert(views(r@) =~= group_names(views(nets@), g@.take(t + 1)));
        }
        t += 1;
    }
    assert(g@.take(g@.len() as int) =~= g@);
    r
}

/// Groups nets that can share one router run: same allowed layers, clearance and via policy,
/// and a strictest minimum width that fits every member's preferred width, so a wide power
/// trunk never forces a signal to its width. Groups come in order of their first net's layer
/// count, ties keeping their order.
pub fn partition_nets(rules: &NetRules, layers: u8, nets: &Vec<String>) -> (r: Vec<Vec<String>>)
    ensures
        group_views(r@) == partition(rules@, crate::stackup::copper_layer_names(layers as nat), views(nets@)),
{
    let board = crate::stackup::copper_layers(layers);
    let ghost bv = views(board@);
    let ghost nv = views(nets@);
    let ghost pspec = profiles(rules@, bv, nv);
    let mut ps: Vec<NetProfile> = Vec::new();
    let mut i: usize = 0;
    while i < nets.len()
        invariant
            i <= nets@.len(),
            bv == views(board@),
            nv == views(nets@),
            pspec == profiles(rules@, bv, nv),
            pviews(ps@) == pspec.take(i as int),
            ps@.len() == i,
            pspec.len() == nets@.len(),
        decreases nets.len() - i,
    {
        let np = net_profile(rules, &board, nets[i].as_str());
        let ghost before = ps@;
        ps.push(np);
        proof {
            assert(nv[i as int] == nets@[i as int]@);
            assert(pspec[i as int] == profile(rules@, bv, nv[i as int]));
            assert(pviews(ps@)[i as int] == np@);
            assert forall|k: int| 0 <= k < i implies pviews(ps@)[k] == pviews(before)[k] by {
                assert(ps@[k] == before[k]);
            }
            assert(pviews(ps@) =~= pspec.take(i + 1));
        }
        i += 1;
    }
    assert(pspec.take(nets@.len() as int) =~= pspec);
    let mut groups: Vec<Vec<usize>> = Vec::new();
    let mut n: usize = 0;
    while n < nets.len()
        invariant
            n <= nets@.len(),
            ps@.len() == nets@.len(),
            pviews(ps@) == pspec,
            index_groups(groups@) == grouping(pspec, n as nat),
            forall|a: int, b: int|
                0 <= a < groups@.len() && 0 <= b < groups@[a]@.len() ==> #[trigger] groups@[a]@[b] < n,
            forall|a: int| 0 <= a < groups@.len() ==> #[trigger] groups@[a]@.len() > 0,
        decreases nets.len() - n,
    {
        let ghost g = grouping(pspec, n as nat);
        let ghost before = groups@;
        match find_group(&ps, &groups, n) {
            Some(j) => {
                let mut extended = copy_indices(&groups[j]);
                extended.push(n);
                groups.set(j, extended);
                assert(index_groups(groups@) =~= g.update(j as int, g[j as int].push(n)));
                assert forall|a: int, b: int|
                    0 <= a < groups@.len() && 0 <= b < groups@[a]@.len() implies #[trigger] groups@[a]@[b] < n + 1 by {
                    if a != j {
                        assert(groups@[a] == before[a]);
                    } else if b < before[a]@.len() {
                        assert(groups@[a]@[b] == before[a]@[b]);
                    }
                }
            },
            None => {
                let mut single: Vec<usize> = Vec::new();
                single.push(n);
                groups.push(single);
                assert(index_groups(groups@) =~= g.push(seq![n]));
                assert forall|a: int, b: int|
                    0 <= a < groups@.len() && 0 <= b < groups@[a]@.len() implies #[trigger] groups@[a]@[b] < n + 1 by {
                    if a < before.len() {
                        assert(groups@[a] == before[a]);
                    }
                }
            },
        }
        n += 1;
    }
    let ghost all = grouping(pspec, nets@.len());
    let mut sorted: Vec<Vec<usize>> = Vec::new();
    let mut m: usize = 0;
    assert(all.take(0) =~= Seq::<Seq<usize>>::empty());
    assert(index_groups(sorted@) =~= Seq::<Seq<usize>>::empty());
    while m < groups.len()
        invariant
            m <= groups@.len(),
            ps@.len() == nets@.len(),
            index_groups(groups@) == all,
            pviews(ps@) == pspec,
            forall|a: int, b: int|
                0 <= a < groups@.len() && 0 <= b < groups@[a]@.len() ==> #[trigger] groups@[a]@[b] < ps@.len(),
            forall|a: int| 0 <= a < groups@.len() ==> #[trigger] groups@[a]@.len() > 0,
            forall|a: int, b: int|
                0 <= a < sorted@.len() && 0 <= b < sorted@[a]@.len() ==> #[trigger] sorted@[a]@[b] < ps@.len(),
            forall|a: int| 0 <= a < sorted@.len() ==> #[trigger] sorted@[a]@.len() > 0,
            index_groups(sorted@) == sort_groups(pspec, all.take(m as int)),
        decreases groups.len() - m,
    {
        let g = copy_indices(&groups[m]);
        assert(g@.len() > 0);
        assert(g@[0] < ps@.len());
        let key = ps[g[0]].layers.len();
        assert(pspec[g@[0] as int] == ps@[g@[0] as int]@);
        assert(key == layer_key(pspec, g@));
        let ghost s = index_groups(sorted@);
        let mut p: usize = sorted.len();
        while p > 0 && ps[sorted[p - 1][0]].layers.len() > key
            invariant
                p <= sorted@.len(),
                s == index_groups(sorted@),
                pviews(ps@) == pspec,
                key == layer_key(pspec, g@),
                forall|a: int, b: int|
                    0 <= a < sorted@.len() && 0 <= b < sorted@[a]@.len() ==> #[trigger] sorted@[a]@[b] < ps@.len(),
                forall|a: int| 0 <= a < sorted@.len() ==> #[trigger] sorted@[a]@.len() > 0,
                forall|k: int| p <= k < s.len() ==> layer_key(pspec, #[trigger] s[k]) > layer_key(pspec, g@),
            decreases p,
        {
            assert(s[p - 1] == sorted@[p - 1]@);
            assert(pspec[s[p - 1][0] as int] == ps@[s[p - 1][0] as int]@);
            p -= 1;
        }
        if p > 0 {
            assert(s[p - 1] == sorted@[p - 1]@);
            assert(pspec[s[p - 1][0] as int] == ps@[s[p - 1][0] as int]@);
        }
        proof {
            lemma_insert_at(pspec, s, g@, p as int);
            assert(all.take(m + 1).drop_last() =~= all.take(m as int));
            assert(all[m as int] == groups@[m as int]@);
        }
        let ghost before = sorted@;
        sorted.insert(p, g);
        proof {
            assert(index_groups(sorted@) =~= s.insert(p as int, g@));
            assert(index_groups(sorted@) == sort_groups(pspec, all.take(m + 1)));
            before.insert_ensures(p as int, sorted@[p as int]);
            assert forall|a: int| 0 <= a < sorted@.len() implies #[trigger] sorted@[a]@.len() > 0 by {
                if a < p {
                    assert(sorted@[a] == before[a]);
                } else if a > p {
                    assert(sorted@[a] == before[a - 1]);
                }
            }
            assert forall|a: int, b: int|
                0 <= a < sorted@.len() && 0 <= b < sorted@[a]@.len() implies #[trigger] sorted@[a]@[b] < ps@.len() by {
                if a < p {
                    assert(sorted@[a] == before[a]);
                } else if a > p {
                    assert(sorted@[a] == before[a - 1]);
                }
            }
        }
        m += 1;
    }
    assert(all.take(groups@.len() as int) =~= all);
    let ghost ordered = sort_groups(pspec, all);
    let mut r: Vec<Vec<String>> = Vec::new();
    let mut q: usize = 0;
    while q < sorted.len()
        invariant
            q <= sorted@.len(),
            index_groups(sorted@) == ordered,
            forall|a: int, b: int|
                0 <= a < sorted@.len() && 0 <= b < sorted@[a]@.len() ==> #[trigger] sorted@[a]@[b] < nets@.len(),
            group_views(r@) == named(nv, ordered.take(q as int)),
            r@.len() == q,
            ordered.len() == sorted@.len(),
            nv == views(nets@),
        decreases sorted@.len() - q,
    {
        let names = names_of(nets, &sorted[q]);
        let ghost before = r@;
        r.push(names);
        proof {
            assert(ordered[q as int] == sorted@[q as int]@);
            assert(group_views(r@)[q as int] == views(names@));
            assert(named(nv, ordered.take(q + 1))[q as int] == group_names(nv, ordered[q as int]));
            assert forall|k: int| 0 <= k < q implies group_views(r@)[k] == named(nv, ordered.take(q + 1))[k] by {
                assert(r@[k] == before[k]);
                assert(group_views(before)[k] == named(nv, ordered.take(q as int))[k]);
                assert(ordered.take(q + 1)[k] == ordered.take(q as int)[k]);
            }
            assert(group_views(r@) =~= named(nv, ordered.take(q + 1)));
        }
        q += 1;
    }
    assert(ordered.take(sorted@.len() as int) =~= ordered);
    r
}

} // verus!

verus! {

/// Whether the nets of a group (indices into `ps`) can share one router run.
pub open spec fn compatible(ps: Seq<Profile>, g: Seq<usize>) -> bool {
    forall|b: int, c: int|
        #![trigger g[b], g[c]]
        0 <= b < g.len() && 0 <= c < g.len() ==> {
            &&& ps[g[b] as int].layers == ps[g[c] as int].layers
            &&& ps[g[b] as int].clearance == ps[g[c] as int].clearance
            &&& ps[g[b] as int].vias == ps[g[c] as int].vias
            &&& b != c ==> ps[g[b] as int].min_width <= ps[g[c] as int].width
        }
}

/// Whether net `k` is a member of one of the groups.
pub open spec fn placed(gs: Seq<Seq<usize>>, k: int) -> bool {
    exists|a: int, b: int| 0 <= a < gs.len() && 0 <= b < gs[a].len() && #[trigger] gs[a][b] == k
}

/// Nonempty compatible groups that between them hold each of the nets `0..n`.
pub open spec fn well_grouped(ps: Seq<Profile>, gs: Seq<Seq<usize>>, n: nat) -> bool {
    &&& forall|a: int| 0 <= a < gs.len() ==> #[trigger] gs[a].len() > 0 && compatible(ps, gs[a])
    &&& forall|a: int, b: int| 0 <= a < gs.len() && 0 <= b < gs[a].len() ==> #[trigger] gs[a][b] < n
    &&& forall|k: int| 0 <= k < n ==> #[trigger] placed(gs, k)
}

proof fn lemma_floor_bounds(ps: Seq<Profile>, g: Seq<usize>, p: Profile)
    ensures
        group_floor(ps, g, p) >= p.min_width,
        forall|k: int| 0 <= k < g.len() ==> group_floor(ps, g, p) >= ps[#[trigger] g[k] as int].min_width,
    decreases g.len(),
{
    if g.len() > 0 {
        lemma_floor_bounds(ps, g.drop_last(), p);
        assert forall|k: int| 0 <= k < g.len() implies group_floor(ps, g, p) >= ps[#[trigger] g[k] as int].min_width by {
            if k < g.len() - 1 {
                assert(g.drop_last()[k] == g[k]);
            }
        }
    }
}

proof fn lemma_first_joinable(ps: Seq<Profile>, gs: Seq<Seq<usize>>, p: Profile, from: int)
    requires
        from >= 0,
    ensures
        match first_joinable(ps, gs, p, from) {
            Some(j) => from <= j < gs.len() && joins(ps, gs[j], p),
            None => true,
        },
    decreases gs.len() - from,
{
    if from < gs.len() && !joins(ps, gs[from], p) {
        lemma_first_joinable(ps, gs, p, from + 1);
    }
}

proof fn lemma_grouping(ps: Seq<Profile>, n: nat)
    requires
        n <= ps.len(),
        n <= usize::MAX,
    ensures
        well_grouped(ps, grouping(ps, n), n),
    decreases n,
{
    if n > 0 {
        let g = grouping(ps, (n - 1) as nat);
        lemma_grouping(ps, (n - 1) as nat);
        let i = (n - 1) as usize;
        let p = ps[i as int];
        let next = grouping(ps, n);
        lemma_first_joinable(ps, g, p, 0);
        match first_joinable(ps, g, p, 0) {
            Some(j) => {
                let old = g[j];
                let grown = old.push(i);
                assert(next == g.update(j, grown));
                lemma_floor_bounds(ps, old, p);
                assert(compatible(ps, old));
                assert forall|b: int, c: int|
                    #![trigger grown[b], grown[c]]
                    0 <= b < grown.len() && 0 <= c < grown.len() implies {
                        &&& ps[grown[b] as int].layers == ps[grown[c] as int].layers
                        &&& ps[grown[b] as int].clearance == ps[grown[c] as int].clearance
                        &&& ps[grown[b] as int].vias == ps[grown[c] as int].vias
                        &&& b != c ==> ps[grown[b] as int].min_width <= ps[grown[c] as int].width
                    } by {
                    let z = old[0];
                    assert(old[0] == old[0]);
                    if b < old.len() {
                        assert(grown[b] == old[b]);
                        let _ = old[b];
                        let _ = ps[old[b] as int].width;
                    }
                    if c < old.len() {
                        assert(grown[c] == old[c]);
                        let _ = ps[old[c] as int].width;
                    }
                    if b < old.len() && c < old.len() {
                        assert(ps[old[b] as int].layers == ps[old[c] as int].layers);
                    } else if b < old.len() {
                        assert(ps[old[b] as int].layers == ps[old[0] as int].layers);
                        assert(ps[old[b] as int].clearance == ps[old[0] as int].clearance);
                        assert(ps[old[b] as int].vias == ps[old[0] as int].vias);
                    } else if c < old.len() {
                        assert(ps[old[c] as int].layers == ps[old[0] as int].layers);
                        assert(ps[old[c] as int].clearance == ps[old[0] as int].clearance);
                        assert(ps[old[c] as int].vias == ps[old[0] as int].vias);
                    }
                }
                assert(compatible(ps, grown));
                assert forall|a: int| 0 <= a < next.len() implies #[trigger] next[a].len() > 0 && compatible(ps, next[a]) by {
                    if a != j {
                        assert(next[a] == g[a]);
                    }
                }
                assert forall|a: int, b: int| 0 <= a < next.len() && 0 <= b < next[a].len() implies #[trigger] next[a][b] < n by {
                    if a != j {
                        assert(next[a] == g[a]);
                    } else if b < old.len() {
                        assert(next[a][b] == old[b]);
                    }
                }
                assert forall|k: int| 0 <= k < n implies #[trigger] placed(next, k) by {
                    if k == i {
                        assert(next[j][old.len() as int] == k);
                    } else {
                        assert(placed(g, k));
                        let (a, b) = choose|a: int, b: int|
                            0 <= a < g.len() && 0 <= b < g[a].len() && #[trigger] g[a][b] == k;
                        if a == j {
                            assert(next[a][b] == k);
                        } else {
                            assert(next[a] == g[a]);
                            assert(next[a][b] == k);
                        }
                    }
                }
            },
            None => {
                let single = seq![i];
                assert(next == g.push(single));
                assert(compatible(ps, single));
                assert forall|a: int| 0 <= a < next.len() implies #[trigger] next[a].len() > 0 && compatible(ps, next[a]) by {
                    if a < g.len() {
                        assert(next[a] == g[a]);
                    }
                }
                assert forall|a: int, b: int| 0 <= a < next.len() && 0 <= b < next[a].len() implies #[trigger] next[a][b] < n by {
                    if a < g.len() {
                        assert(next[a] == g[a]);
                    }
                }
                assert forall|k: int| 0 <= k < n implies #[trigger] placed(next, k) by {
                    if k == i {
                        assert(next[g.len() as int][0] == k);
                    } else {
                        assert(placed(g, k));
                        let (a, b) = choose|a: int, b: int|
                            0 <= a < g.len() && 0 <= b < g[a].len() && #[trigger] g[a][b] == k;
                        assert(next[a] == g[a]);
                        assert(next[a][b] == k);
                    }
                }
            },
        }
    }
}

proof fn lemma_insert_multiset(ps: Seq<Profile>, s: Seq<Seq<usize>>, g: Seq<usize>)
    ensures
        insert_by_layers(ps, s, g).to_multiset() =~= s.to_multiset().insert(g),
    decreases s.len(),
{
    broadcast use vstd::seq_lib::group_to_multiset_ensures;
    broadcast use vstd::multiset::group_multiset_axioms;

    if s.len() == 0 {
        assert(seq![g] =~= s.push(g));
    } else if layer_key(ps, s.last()) <= layer_key(ps, g) {
    } else {
        let d = s.drop_last();
        lemma_insert_multiset(ps, d, g);
        assert(s =~= d.push(s.last()));
    }
}

proof fn lemma_sort_multiset(ps: Seq<Profile>, gs: Seq<Seq<usize>>)
    ensures
        sort_groups(ps, gs).to_multiset() =~= gs.to_multiset(),
    decreases gs.len(),
{
    broadcast use vstd::seq_lib::group_to_multiset_ensures;

    if gs.len() > 0 {
        let d = gs.drop_last();
        lemma_sort_multiset(ps, d);
        lemma_insert_multiset(ps, sort_groups(ps, d), gs.last());
        assert(gs =~= d.push(gs.last()));
    }
}

/// Each group of the partition can share one router run: any two of its nets have the same
/// allowed layers, clearance and via policy, and no member's minimum width exceeds another
/// member's preferred width.
pub proof fn law_partition_groups_are_compatible(
    r: RulesView,
    board: Seq<Seq<char>>,
    nets: Seq<Seq<char>>,
    a: int,
    x: int,
    y: int,
)
    requires
        nets.len() <= usize::MAX,
        0 <= a < partition(r, board, nets).len(),
        0 <= x < partition(r, board, nets)[a].len(),
        0 <= y < partition(r, board, nets)[a].len(),
    ensures
        ({
            let px = profile(r, board, partition(r, board, nets)[a][x]);
            let py = profile(r, board, partition(r, board, nets)[a][y]);
            &&& px.layers == py.layers
            &&& px.clearance == py.clearance
            &&& px.vias == py.vias
            &&& x != y ==> px.min_width <= py.width
        }),
{
    broadcast use vstd::seq_lib::group_to_multiset_ensures;

    let ps = profiles(r, board, nets);
    let gs = grouping(ps, nets.len());
    let sorted = sort_groups(ps, gs);
    lemma_grouping(ps, nets.len());
    lemma_sort_multiset(ps, gs);
    let g = sorted[a];
    assert(sorted.to_multiset().count(g) > 0);
    assert(gs.contains(g));
    let a2 = choose|a2: int| 0 <= a2 < gs.len() && gs[a2] == g;
    assert(gs[a2].len() > 0 && compatible(ps, gs[a2]));
    let _ = g[x];
    let _ = g[y];
    assert(g[x] < nets.len());
    assert(g[y] < nets.len());
    assert(partition(r, board, nets)[a] == group_names(nets, g));
    assert(partition(r, board, nets)[a][x] == nets[g[x] as int]);
    assert(partition(r, board, nets)[a][y] == nets[g[y] as int]);
}

/// Whether the groups are ordered by the layer count of their first net.
pub open spec fn layers_ordered(ps: Seq<Profile>, s: Seq<Seq<usize>>) -> bool {
    forall|i: int, j: int| 0 <= i <= j < s.len() ==> layer_key(ps, #[trigger] s[i]) <= layer_key(ps, #[trigger] s[j])
}

proof fn lemma_insert_bound(ps: Seq<Profile>, s: Seq<Seq<usize>>, g: Seq<usize>, b: int)
    requires
        forall|k: int| 0 <= k < s.len() ==> layer_key(ps, #[trigger] s[k]) <= b,
        layer_key(ps, g) <= b,
    ensures
        insert_by_layers(ps, s, g).len() == s.len() + 1,
        forall|i: int| 0 <= i < insert_by_layers(ps, s, g).len() ==> layer_key(ps, #[trigger] insert_by_layers(ps, s, g)[i]) <= b,
    decreases s.len(),
{
    if s.len() > 0 && layer_key(ps, s.last()) > layer_key(ps, g) {
        let d = s.drop_last();
        lemma_insert_bound(ps, d, g, b);
        assert(layer_key(ps, s[s.len() - 1]) <= b);
    }
}

proof fn lemma_insert_sorted(ps: Seq<Profile>, s: Seq<Seq<usize>>, g: Seq<usize>)
    requires
        layers_ordered(ps, s),
    ensures
        layers_ordered(ps, insert_by_layers(ps, s, g)),
    decreases s.len(),
{
    if s.len() == 0 {
    } else if layer_key(ps, s.last()) <= layer_key(ps, g) {
        let r = s.push(g);
        assert forall|i: int, j: int| 0 <= i <= j < r.len() implies layer_key(ps, #[trigger] r[i]) <= layer_key(ps, #[trigger] r[j]) by {
            if j == s.len() {
                if i < s.len() {
                    assert(layer_key(ps, s[i]) <= layer_key(ps, s[s.len() - 1]));
                }
            }
        }
    } else {
        let d = s.drop_last();
        let last = s.last();
        assert(layers_ordered(ps, d)) by {
            assert forall|i: int, j: int| 0 <= i <= j < d.len() implies layer_key(ps, #[trigger] d[i]) <= layer_key(ps, #[trigger] d[j]) by {
                assert(d[i] == s[i] && d[j] == s[j]);
            }
        }
        lemma_insert_sorted(ps, d, g);
        assert forall|k: int| 0 <= k < d.len() implies layer_key(ps, #[trigger] d[k]) <= layer_key(ps, last) by {
            assert(d[k] == s[k]);
            assert(s[s.len() - 1] == last);
        }
        lemma_insert_bound(ps, d, g, layer_key(ps, last) as int);
        let m = insert_by_layers(ps, d, g);
        let r = m.push(last);
        assert forall|i: int, j: int| 0 <= i <= j < r.len() implies layer_key(ps, #[trigger] r[i]) <= layer_key(ps, #[trigger] r[j]) by {
            if j == m.len() {
                if i < m.len() {
                    assert(layer_key(ps, m[i]) <= layer_key(ps, last));
                }
            } else {
                assert(r[i] == m[i] && r[j] == m[j]);
            }
        }
    }
}

proof fn lemma_sort_sorted(ps: Seq<Profile>, gs: Seq<Seq<usize>>)
    ensures
        layers_ordered(ps, sort_groups(ps, gs)),
    decreases gs.len(),
{
    if gs.len() > 0 {
        lemma_sort_sorted(ps, gs.drop_last());
        lemma_insert_sorted(ps, sort_groups(ps, gs.drop_last()), gs.last());
    }
}

/// The partition has no empty group, and its groups come in order of the number of layers
/// that their first net may use, fewest first.
pub proof fn law_partition_groups_are_nonempty_and_ordered(r: RulesView, board: Seq<Seq<char>>, nets: Seq<Seq<char>>)
    requires
        nets.len() <= usize::MAX,
    ensures
        forall|a: int| 0 <= a < partition(r, board, nets).len() ==> #[trigger] partition(r, board, nets)[a].len() > 0,
        forall|a: int, c: int|
            0 <= a <= c < partition(r, board, nets).len() ==> profile(r, board, #[trigger] partition(r, board, nets)[a][0]).layers.len()
                <= profile(r, board, #[trigger] partition(r, board, nets)[c][0]).layers.len(),
{
    broadcast use vstd::seq_lib::group_to_multiset_ensures;

    let ps = profiles(r, board, nets);
    let gs = grouping(ps, nets.len());
    let sorted = sort_groups(ps, gs);
    let part = partition(r, board, nets);
    lemma_grouping(ps, nets.len());
    lemma_sort_multiset(ps, gs);
    lemma_sort_sorted(ps, gs);
    assert forall|a: int| 0 <= a < sorted.len() implies #[trigger] sorted[a].len() > 0 && sorted[a][0] < nets.len() by {
        let g = sorted[a];
        assert(sorted.to_multiset().count(g) > 0);
        assert(gs.contains(g));
        let a2 = choose|a2: int| 0 <= a2 < gs.len() && gs[a2] == g;
        assert(gs[a2].len() > 0);
        let _ = gs[a2][0];
    }
    assert forall|a: int| 0 <= a < part.len() implies #[trigger] part[a].len() > 0 && part[a][0] == nets[sorted[a][0] as int]
        && profile(r, board, part[a][0]) == ps[sorted[a][0] as int] by {
        assert(sorted[a].len() > 0);
        assert(part[a] == group_names(nets, sorted[a]));
    }
    assert forall|a: int, c: int| 0 <= a <= c < part.len() implies profile(r, board, #[trigger] part[a][0]).layers.len() <= profile(
        r,
        board,
        #[trigger] part[c][0],
    ).layers.len() by {
        assert(part[a].len() > 0 && part[c].len() > 0);
        assert(layer_key(ps, sorted[a]) <= layer_key(ps, sorted[c]));
    }
}

/// Whether `net` is a member of one of the groups.
pub open spec fn in_some_group(groups: Seq<Seq<Seq<char>>>, net: Seq<char>) -> bool {
    exists|a: int, b: int| 0 <= a < groups.len() && 0 <= b < groups[a].len() && #[trigger] groups[a][b] == net
}

/// Every net handed in lies in some group of the partition, and every member of a group is
/// one of the nets handed in.
pub proof fn law_partition_covers_the_nets(r: RulesView, board: Seq<Seq<char>>, nets: Seq<Seq<char>>)
    requires
        nets.len() <= usize::MAX,
    ensures
        forall|k: int| 0 <= k < nets.len() ==> in_some_group(partition(r, board, nets), #[trigger] nets[k]),
        forall|a: int, b: int|
            0 <= a < partition(r, board, nets).len() && 0 <= b < partition(r, board, nets)[a].len()
                ==> nets.contains(#[trigger] partition(r, board, nets)[a][b]),
{
    broadcast use vstd::seq_lib::group_to_multiset_ensures;

    let ps = profiles(r, board, nets);
    let gs = grouping(ps, nets.len());
    let sorted = sort_groups(ps, gs);
    let part = partition(r, board, nets);
    lemma_grouping(ps, nets.len());
    lemma_sort_multiset(ps, gs);
    assert forall|k: int| 0 <= k < nets.len() implies in_some_group(part, #[trigger] nets[k]) by {
        assert(placed(gs, k));
        let (a2, b) = choose|a2: int, b: int| 0 <= a2 < gs.len() && 0 <= b < gs[a2].len() && #[trigger] gs[a2][b] == k;
        let g = gs[a2];
        assert(gs.to_multiset().count(g) > 0);
        assert(sorted.contains(g));
        let a = choose|a: int| 0 <= a < sorted.len() && sorted[a] == g;
        assert(part[a] == group_names(nets, g));
        assert(part[a][b] == nets[k]);
    }
    assert forall|a: int, b: int| 0 <= a < part.len() && 0 <= b < part[a].len() implies nets.contains(#[trigger] part[a][b]) by {
        let g = sorted[a];
        assert(sorted.to_multiset().count(g) > 0);
        assert(gs.contains(g));
        let a2 = choose|a2: int| 0 <= a2 < gs.len() && gs[a2] == g;
        let _ = gs[a2][b];
        assert(g[b] < nets.len());
        assert(part[a] == group_names(nets, g));
        assert(part[a][b] == nets[g[b] as int]);
    }
}

} // verus!
