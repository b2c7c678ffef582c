//! Elaboration of a source circuit and its module instances into globally addressed parts,
//! nets, schematic placements and blocks. The module files of the instances are read and
//! checked before: an instance holds the outcome of loading its module.
use crate::diagnostic::{Diagnostic, Severity};
use crate::modules::{
    bind_ports, block_id, bound_net, check_net_declaration, check_part, connection_issues, key_index, net_decl_issues,
    pair_views, part_issues, plain_error, plain_errors, port_errors, port_steps, prefix_ok, prefix_valid, qualified,
    qualify, valid_block_id, Origin, PortIssue, assign_references, canonical, canonical_endpoint, final_refs, repeated_upto,
    reports_repeat, alias_views, ref_views, PartAliases, PartRef, RefV,
};
use crate::text::{lemma_views_push, same_text, text2, text3, views};
use vstd::prelude::*;

verus! {

/// A part as a circuit declares it; `handle` finds the rest of its declaration again.
#[derive(Debug)]
pub struct PartDecl {
    pub id: String,
    pub reference_prefix: String,
    pub reference: Option<String>,
    pub terminals: Vec<(String, String)>,
    pub handle: usize,
}

/// A circuit whose module instances are loaded: its parts, local nets, intentionally
/// unconnected terminals, the symbols of its schematic view (id and handle) when that view is
/// included, and its instances.
#[derive(Debug)]
pub struct CircuitDecl {
    pub parts: Vec<PartDecl>,
    pub nets: Vec<(String, Vec<String>)>,
    pub unconnected: Vec<String>,
    pub placements: Option<Vec<(String, usize)>>,
    pub instances: Vec<InstanceDecl>,
}

/// A module instance: its id, its port connections, and what loading its module gave.
#[derive(Debug)]
pub struct InstanceDecl {
    pub id: String,
    pub connections: Vec<(String, String)>,
    pub source: ModuleSource,
}

/// The outcome of loading an instance's module.
#[derive(Debug)]
pub enum ModuleSource {
    /// The module file is missing or outside the project directory (its path as written).
    Outside(String),
    /// The module is already being expanded further up (its file).
    Cycle(String),
    /// The module file cannot be read, parsed or instantiated (its file and the reason).
    Unreadable(String, String),
    /// The module.
    Loaded(Box<ModuleDecl>),
}

/// A loaded module: its file, format version, whether its layout leaves the board outline
/// alone, its ports (public name and local net) and its circuit.
#[derive(Debug)]
pub struct ModuleDecl {
    pub file: String,
    pub format_version: u32,
    pub outline_empty: bool,
    pub ports: Vec<(String, String)>,
    pub circuit: CircuitDecl,
}

/// A resolved part: its global identity, printed reference (empty when one is to be
/// assigned), reference prefix, terminal aliases, the handle of its declaration and where it
/// was declared.
#[derive(Debug)]
pub struct ElabPart {
    pub id: String,
    pub reference: String,
    pub prefix: String,
    pub aliases: Vec<(String, String)>,
    pub handle: usize,
    pub origin: Origin,
}

/// A block: an instance's global id, its module file, and the parts and nets it owns.
#[derive(Debug)]
pub struct BlockRef {
    pub id: String,
    pub file: String,
    pub components: Vec<String>,
    pub nets: Vec<String>,
}

/// What elaboration produced: parts, nets (name and endpoints), unconnected terminals,
/// schematic placements (global id and handle), blocks and diagnostics, each in the order of
/// first appearance.
#[derive(Debug)]
pub struct Elaboration {
    pub parts: Vec<ElabPart>,
    pub nets: Vec<(String, Vec<String>)>,
    pub no_connect: Vec<String>,
    pub placements: Vec<(String, usize)>,
    pub blocks: Vec<BlockRef>,
    pub diagnostics: Vec<Diagnostic>,
}

/// The plain value of a resolved part.
pub struct PartV {
    pub id: Seq<char>,
    pub reference: Seq<char>,
    pub prefix: Seq<char>,
    pub aliases: Seq<(Seq<char>, Seq<char>)>,
    pub handle: usize,
    pub file: Seq<char>,
    pub path: Seq<char>,
}

/// The plain value of a block.
pub struct BlockV {
    pub id: Seq<char>,
    pub file: Seq<char>,
    pub components: Seq<Seq<char>>,
    pub nets: Seq<Seq<char>>,
}

/// An elaboration error: code, message and the file it is about.
pub type ElabIssue = (Seq<char>, Seq<char>, Seq<char>);

/// The plain value of an elaboration.
pub struct ElabV {
    pub parts: Seq<PartV>,
    pub nets: Seq<(Seq<char>, Seq<Seq<char>>)>,
    pub no_connect: Seq<Seq<char>>,
    pub placements: Seq<(Seq<char>, usize)>,
    pub blocks: Seq<BlockV>,
    pub issues: Seq<ElabIssue>,
}

impl View for ElabPart {
    type V = PartV;

    open spec fn view(&self) -> PartV {
        PartV {
            id: self.id@,
            reference: self.reference@,
            prefix: self.prefix@,
            aliases: pair_views(self.aliases@),
            handle: self.handle,
            file: self.origin.file@,
            path: self.origin.path@,
        }
    }
}

impl View for BlockRef {
    type V = BlockV;

    open spec fn view(&self) -> BlockV {
        BlockV { id: self.id@, file: self.file@, components: views(self.components@), nets: views(self.nets@) }
    }
}

/// The plain values of nets.
pub open spec fn net_views(v: Seq<(String, Vec<String>)>) -> Seq<(Seq<char>, Seq<Seq<char>>)> {
    v.map_values(|n: (String, Vec<String>)| (n.0@, views(n.1@)))
}

/// The plain values of placements.
pub open spec fn placement_views(v: Seq<(String, usize)>) -> Seq<(Seq<char>, usize)> {
    v.map_values(|p: (String, usize)| (p.0@, p.1))
}

/// The code, message and file of each diagnostic.
pub open spec fn issue_views(ds: Seq<Diagnostic>) -> Seq<ElabIssue> {
    ds.map_values(|d: Diagnostic| (d.code@, d.message@, d.file@))
}

impl View for Elaboration {
    type V = ElabV;

    open spec fn view(&self) -> ElabV {
        ElabV {
            parts: self.parts@.map_values(|p: ElabPart| p@),
            nets: net_views(self.nets@),
            no_connect: views(self.no_connect@),
            placements: placement_views(self.placements@),
            blocks: self.blocks@.map_values(|b: BlockRef| b@),
            issues: issue_views(self.diagnostics@),
        }
    }
}

/// Whether every diagnostic is a plain error: no location, help or related notes.
pub open spec fn plain(ds: Seq<Diagnostic>) -> bool {
    forall|k: int|
        0 <= k < ds.len() ==> {
            &&& (#[trigger] ds[k]).severity == Severity::Error
            &&& ds[k].span is None
            &&& ds[k].path is None
            &&& ds[k].help is None
            &&& ds[k].related@.len() == 0
        }
}

/// The elaboration after the findings `is` about `file`.
pub open spec fn with_issues(s: ElabV, is: Seq<(Seq<char>, Seq<char>)>, file: Seq<char>) -> ElabV {
    ElabV { issues: s.issues + is.map_values(|x: (Seq<char>, Seq<char>)| (x.0, x.1, file)), ..s }
}

/// Index of the part `id` at or after `from`.
pub open spec fn part_slot(parts: Seq<PartV>, id: Seq<char>, from: int) -> Option<int>
    decreases parts.len() - from,
{
    if from < 0 || from >= parts.len() {
        None
    } else if parts[from].id == id {
        Some(from)
    } else {
        part_slot(parts, id, from + 1)
    }
}

/// The view of an optional text.
pub open spec fn text_opt(t: Option<String>) -> Option<Seq<char>> {
    match t {
        Some(s) => Some(s@),
        None => None,
    }
}

/// One part declaration of `file` elaborated under block `prefix`: its findings, then, if its
/// id and prefix are usable, the part under its global identity, replacing (with ID003) an
/// earlier part of that identity.
pub open spec fn part_step(p: PartDecl, file: Seq<char>, prefix: Seq<char>, s: ElabV) -> ElabV {
    let s1 = with_issues(s, part_issues(p.id@, p.reference_prefix@, text_opt(p.reference), p.terminals@), file);
    if !block_id(p.id@) || !prefix_ok(p.reference_prefix@) {
        s1
    } else {
        let key = qualified(prefix, p.id@);
        let part = PartV {
            id: key,
            reference: match p.reference {
                Some(r) => r@,
                None => Seq::empty(),
            },
            prefix: p.reference_prefix@,
            aliases: pair_views(p.terminals@),
            handle: p.handle,
            file,
            path: "/circuit/parts/"@ + p.id@,
        };
        match part_slot(s1.parts, key, 0) {
            Some(i) => ElabV {
                parts: s1.parts.update(i, part),
                issues: s1.issues.push(("ID003"@, "duplicate identity '"@ + key + "'"@, file)),
                ..s1
            },
            None => ElabV { parts: s1.parts.push(part), ..s1 },
        }
    }
}

/// The first `n` part declarations elaborated.
pub open spec fn parts_upto(parts: Seq<PartDecl>, file: Seq<char>, prefix: Seq<char>, s: ElabV, n: nat) -> ElabV
    decreases n,
{
    if n == 0 || n > parts.len() {
        s
    } else {
        part_step(parts[n - 1], file, prefix, parts_upto(parts, file, prefix, s, (n - 1) as nat))
    }
}

/// Index of net `name` at or after `from`.
pub open spec fn net_slot(nets: Seq<(Seq<char>, Seq<Seq<char>>)>, name: Seq<char>, from: int) -> Option<int>
    decreases nets.len() - from,
{
    if from < 0 || from >= nets.len() {
        None
    } else if nets[from].0 == name {
        Some(from)
    } else {
        net_slot(nets, name, from + 1)
    }
}

/// The nets with `endpoints` added to net `name`, which is created when new.
pub open spec fn net_extended(nets: Seq<(Seq<char>, Seq<Seq<char>>)>, name: Seq<char>, endpoints: Seq<Seq<char>>) -> Seq<
    (Seq<char>, Seq<Seq<char>>),
> {
    match net_slot(nets, name, 0) {
        Some(i) => nets.update(i, (name, nets[i].1 + endpoints)),
        None => nets.push((name, endpoints)),
    }
}

/// Local names qualified by block `prefix`.
pub open spec fn all_qualified(prefix: Seq<char>, names: Seq<Seq<char>>) -> Seq<Seq<char>> {
    names.map_values(|n: Seq<char>| qualified(prefix, n))
}

/// One local net declaration of `file` elaborated under block `prefix` with the port
/// `bindings`: its findings, then its endpoints added to the net it is bound to (a bound port
/// net, else the qualified local name).
pub open spec fn net_step(
    n: (String, Vec<String>),
    part_ids: Seq<Seq<char>>,
    file: Seq<char>,
    prefix: Seq<char>,
    bindings: Seq<(Seq<char>, Seq<char>)>,
    s: ElabV,
) -> ElabV {
    let s1 = with_issues(s, net_decl_issues(n.0@, n.1@, part_ids, n.1@.len()), file);
    ElabV { nets: net_extended(s1.nets, bound_net(bindings, prefix, n.0@), all_qualified(prefix, views(n.1@))), ..s1 }
}

/// The first `k` local nets elaborated.
pub open spec fn nets_upto(
    nets: Seq<(String, Vec<String>)>,
    part_ids: Seq<Seq<char>>,
    file: Seq<char>,
    prefix: Seq<char>,
    bindings: Seq<(Seq<char>, Seq<char>)>,
    s: ElabV,
    k: nat,
) -> ElabV
    decreases k,
{
    if k == 0 || k > nets.len() {
        s
    } else {
        net_step(nets[k - 1], part_ids, file, prefix, bindings, nets_upto(nets, part_ids, file, prefix, bindings, s, (k - 1) as nat))
    }
}

/// Index of placement `id` at or after `from`.
pub open spec fn placement_slot(ps: Seq<(Seq<char>, usize)>, id: Seq<char>, from: int) -> Option<int>
    decreases ps.len() - from,
{
    if from < 0 || from >= ps.len() {
        None
    } else if ps[from].0 == id {
        Some(from)
    } else {
        placement_slot(ps, id, from + 1)
    }
}

/// One schematic symbol of `file` placed under block `prefix`; a second placement of the same
/// global id replaces the first, with MOD009.
pub open spec fn placement_step(p: (String, usize), file: Seq<char>, prefix: Seq<char>, s: ElabV) -> ElabV {
    let key = qualified(prefix, p.0@);
    match placement_slot(s.placements, key, 0) {
        Some(i) => ElabV {
            placements: s.placements.update(i, (key, p.1)),
            issues: s.issues.push(("MOD009"@, "duplicate schematic placement for '"@ + key + "'"@, file)),
            ..s
        },
        None => ElabV { placements: s.placements.push((key, p.1)), ..s },
    }
}

/// The first `k` schematic symbols placed.
pub open spec fn placements_upto(ps: Seq<(String, usize)>, file: Seq<char>, prefix: Seq<char>, s: ElabV, k: nat) -> ElabV
    decreases k,
{
    if k == 0 || k > ps.len() {
        s
    } else {
        placement_step(ps[k - 1], file, prefix, placements_upto(ps, file, prefix, s, (k - 1) as nat))
    }
}

/// The ids of a circuit's parts.
pub open spec fn part_ids(c: CircuitDecl) -> Seq<Seq<char>> {
    c.parts@.map_values(|p: PartDecl| p.id@)
}

/// A circuit's own declarations elaborated: its parts, its nets, its unconnected terminals and
/// its schematic symbols.
pub open spec fn local_step(c: CircuitDecl, file: Seq<char>, prefix: Seq<char>, bindings: Seq<(Seq<char>, Seq<char>)>, s: ElabV) -> ElabV {
    let s1 = parts_upto(c.parts@, file, prefix, s, c.parts@.len());
    let s2 = nets_upto(c.nets@, part_ids(c), file, prefix, bindings, s1, c.nets@.len());
    let s3 = ElabV { no_connect: s2.no_connect + all_qualified(prefix, views(c.unconnected@)), ..s2 };
    match c.placements {
        Some(ps) => placements_upto(ps@, file, prefix, s3, ps@.len()),
        None => s3,
    }
}

} // verus!

verus! {

/// The ids among the first `n` parts that lie inside block `key`.
pub open spec fn owned_parts(parts: Seq<PartV>, key: Seq<char>, n: nat) -> Seq<Seq<char>>
    decreases n,
{
    if n == 0 || n > parts.len() {
        Seq::empty()
    } else {
        owned_parts(parts, key, (n - 1) as nat) + if (key + "/"@).is_prefix_of(parts[n - 1].id) {
            seq![parts[n - 1].id]
        } else {
            Seq::empty()
        }
    }
}

/// Whether some binding binds a port to net `name`.
pub open spec fn bound_to(bindings: Seq<(Seq<char>, Seq<char>)>, name: Seq<char>) -> bool {
    exists|i: int| 0 <= i < bindings.len() && #[trigger] bindings[i].1 == name
}

/// The names among the first `n` nets that belong to block `key`: inside it, or bound to one
/// of its ports.
pub open spec fn owned_nets(nets: Seq<(Seq<char>, Seq<Seq<char>>)>, key: Seq<char>, bindings: Seq<(Seq<char>, Seq<char>)>, n: nat) -> Seq<
    Seq<char>,
>
    decreases n,
{
    if n == 0 || n > nets.len() {
        Seq::empty()
    } else {
        owned_nets(nets, key, bindings, (n - 1) as nat) + if (key + "/"@).is_prefix_of(nets[n - 1].0) || bound_to(
            bindings,
            nets[n - 1].0,
        ) {
            seq![nets[n - 1].0]
        } else {
            Seq::empty()
        }
    }
}

/// Index of block `id` at or after `from`.
pub open spec fn block_slot(blocks: Seq<BlockV>, id: Seq<char>, from: int) -> Option<int>
    decreases blocks.len() - from,
{
    if from < 0 || from >= blocks.len() {
        None
    } else if blocks[from].id == id {
        Some(from)
    } else {
        block_slot(blocks, id, from + 1)
    }
}

/// The blocks with `b` put in: in place of a block with its id, or appended.
pub open spec fn put_block(blocks: Seq<BlockV>, b: BlockV) -> Seq<BlockV> {
    match block_slot(blocks, b.id, 0) {
        Some(i) => blocks.update(i, b),
        None => blocks.push(b),
    }
}

/// The port findings, each about the instantiating file or the module file as it says.
pub open spec fn port_issue_views(is: Seq<PortIssue>, file: Seq<char>, module_file: Seq<char>) -> Seq<ElabIssue> {
    is.map_values(
        |x: PortIssue|
            (
                x.0,
                x.1,
                if x.2 {
                    module_file
                } else {
                    file
                },
            ),
    )
}

/// The names of a circuit's local nets.
pub open spec fn local_nets(c: CircuitDecl) -> Seq<Seq<char>> {
    c.nets@.map_values(|n: (String, Vec<String>)| n.0@)
}

/// An elaboration with one more error.
pub open spec fn with_issue(s: ElabV, code: Seq<char>, message: Seq<char>, file: Seq<char>) -> ElabV {
    ElabV { issues: s.issues.push((code, message, file)), ..s }
}

/// A circuit of `file` elaborated as block `prefix` with the port `bindings`: its own
/// declarations, then its instances in order.
pub open spec fn circuit_step(c: CircuitDecl, file: Seq<char>, prefix: Seq<char>, bindings: Seq<(Seq<char>, Seq<char>)>, s: ElabV) -> ElabV
    decreases c, 1nat, 0nat,
{
    instances_upto(c, file, prefix, bindings, local_step(c, file, prefix, bindings, s), c.instances@.len())
}

/// The first `k` instances of circuit `c` elaborated.
pub open spec fn instances_upto(
    c: CircuitDecl,
    file: Seq<char>,
    prefix: Seq<char>,
    bindings: Seq<(Seq<char>, Seq<char>)>,
    s: ElabV,
    k: nat,
) -> ElabV
    decreases c, 0nat, k,
{
    if k == 0 || k > c.instances@.len() {
        s
    } else {
        let prev = instances_upto(c, file, prefix, bindings, s, (k - 1) as nat);
        proof {
            assert(decreases_to!(c => c.instances));
            assert(decreases_to!(c.instances => c.instances@));
            assert(decreases_to!(c.instances@ => c.instances@[k - 1]));
        }
        instance_step(c.instances@[k - 1], part_ids(c), file, prefix, bindings, prev)
    }
}

/// One instance of `file` elaborated under block `prefix`: MOD001 for an unusable id; the
/// error of loading its module (MOD002, MOD004, MOD003), a wrong format version (MOD007) or a
/// module that redefines the board outline (MOD015); else its port connections checked and
/// bound, its module's circuit elaborated as block `prefix/id`, and the block recorded with
/// the parts and nets it owns.
pub open spec fn instance_step(
    inst: InstanceDecl,
    parent_parts: Seq<Seq<char>>,
    file: Seq<char>,
    prefix: Seq<char>,
    bindings: Seq<(Seq<char>, Seq<char>)>,
    s: ElabV,
) -> ElabV
    decreases inst, 0nat, 0nat,
{
    if !block_id(inst.id@) || parent_parts.contains(inst.id@) {
        with_issue(s, "MOD001"@, "invalid or conflicting instance id '"@ + inst.id@ + "'"@, file)
    } else {
        match inst.source {
            ModuleSource::Outside(path) => with_issue(s, "MOD002"@, "module is missing or outside project: "@ + path@, file),
            ModuleSource::Cycle(canonical) => with_issue(s, "MOD004"@, "module cycle"@, canonical@),
            ModuleSource::Unreadable(canonical, reason) => with_issue(s, "MOD003"@, reason@, canonical@),
            ModuleSource::Loaded(m) => if m.format_version != 2 {
                with_issue(s, "MOD007"@, "expected format_version 2"@, m.file@)
            } else if !m.outline_empty {
                with_issue(s, "MOD015"@, "module layouts cannot redefine the board outline"@, m.file@)
            } else {
                let key = qualified(prefix, inst.id@);
                let steps = port_steps(m.ports@, inst.connections@, local_nets(m.circuit), bindings, prefix, m.ports@.len());
                let found = connection_issues(inst.connections@, m.ports@, inst.connections@.len()) + steps.1;
                let s1 = ElabV { issues: s.issues + port_issue_views(found, file, m.file@), ..s };
                proof {
                    assert(decreases_to!(inst => inst.source));
                }
                let s2 = circuit_step(m.circuit, m.file@, key, steps.0, s1);
                ElabV {
                    blocks: put_block(
                        s2.blocks,
                        BlockV {
                            id: key,
                            file: m.file@,
                            components: owned_parts(s2.parts, key, s2.parts.len()),
                            nets: owned_nets(s2.nets, key, steps.0, s2.nets.len()),
                        },
                    ),
                    ..s2
                }
            },
        }
    }
}

/// Nothing elaborated yet.
pub open spec fn empty_elaboration() -> ElabV {
    ElabV {
        parts: Seq::empty(),
        nets: Seq::empty(),
        no_connect: Seq::empty(),
        placements: Seq::empty(),
        blocks: Seq::empty(),
        issues: Seq::empty(),
    }
}

/// A project's root circuit of `file` elaborated with all its module instances.
pub open spec fn elaborated(root: CircuitDecl, file: Seq<char>) -> ElabV {
    circuit_step(root, file, Seq::empty(), Seq::empty(), empty_elaboration())
}

} // verus!

verus! {

proof fn lemma_issue_views_push(ds: Seq<Diagnostic>, d: Diagnostic)
    ensures
        issue_views(ds.push(d)) == issue_views(ds).push((d.code@, d.message@, d.file@)),
{
    assert(issue_views(ds.push(d)) =~= issue_views(ds).push((d.code@, d.message@, d.file@)));
}

/// A copy of a list of text pairs.
fn copy_pairs(v: &Vec<(String, String)>) -> (r: Vec<(String, String)>)
    ensures
        pair_views(r@) == pair_views(v@),
{
    let mut out: Vec<(String, String)> = Vec::new();
    let mut i: usize = 0;
    while i < v.len()
        invariant
            i <= v@.len(),
            pair_views(out@) == pair_views(v@).take(i as int),
        decreases v.len() - i,
    {
        let ghost before = out@;
        let pair = (v[i].0.clone(), v[i].1.clone());
        out.push(pair);
        assert(pair_views(v@)[i as int] == (v@[i as int].0@, v@[i as int].1@));
        assert(out@ == before.push(pair));
        assert(pair_views(out@) =~= pair_views(before).push((pair.0@, pair.1@)));
        assert(pair_views(out@) =~= pair_views(v@).take(i + 1));
        i += 1;
    }
    assert(pair_views(v@).take(v@.len() as int) =~= pair_views(v@));
    out
}

impl Elaboration {
    /// Whether every diagnostic so far is a plain error.
    pub open spec fn well_formed(&self) -> bool {
        plain(self.diagnostics@)
    }

    /// Nothing elaborated yet.
    pub fn new() -> (r: Elaboration)
        ensures
            r@ == empty_elaboration(),
            r.well_formed(),
    {
        let r = Elaboration {
            parts: Vec::new(),
            nets: Vec::new(),
            no_connect: Vec::new(),
            placements: Vec::new(),
            blocks: Vec::new(),
            diagnostics: Vec::new(),
        };
        assert(r@.parts =~= Seq::<PartV>::empty());
        assert(r@.nets =~= Seq::<(Seq<char>, Seq<Seq<char>>)>::empty());
        assert(r@.no_connect =~= Seq::<Seq<char>>::empty());
        assert(r@.placements =~= Seq::<(Seq<char>, usize)>::empty());
        assert(r@.blocks =~= Seq::<BlockV>::empty());
        assert(r@.issues =~= Seq::<ElabIssue>::empty());
        r
    }

    /// Records the error `code`, `message` about `file`.
    fn push_error(&mut self, code: &str, message: &str, file: &str)
        requires
            old(self).well_formed(),
        ensures
            final(self).well_formed(),
            final(self)@ == with_issue(old(self)@, code@, message@, file@),
    {
        let d = Diagnostic::error(code, message, file);
        proof {
            lemma_issue_views_push(self.diagnostics@, d);
        }
        self.diagnostics.push(d);
        assert(self@.parts =~= old(self)@.parts);
        assert(self@.blocks =~= old(self)@.blocks);
    }

    /// Records the plain errors `ds`, the findings `is` about `file`.
    fn push_issues(&mut self, ds: Vec<Diagnostic>, Ghost(is): Ghost<Seq<(Seq<char>, Seq<char>)>>, Ghost(file): Ghost<Seq<char>>)
        requires
            old(self).well_formed(),
            plain_errors(ds@, is, file),
        ensures
            final(self).well_formed(),
            final(self)@ == with_issues(old(self)@, is, file),
    {
        let ghost tail = is.map_values(|x: (Seq<char>, Seq<char>)| (x.0, x.1, file));
        let ghost all = ds@;
        let mut rest = ds;
        let ghost mut i: int = 0;
        while rest.len() > 0
            invariant
                0 <= i <= all.len(),
                rest@ == all.skip(i),
                plain_errors(all, is, file),
                tail == is.map_values(|x: (Seq<char>, Seq<char>)| (x.0, x.1, file)),
                self.well_formed(),
                self.parts == old(self).parts,
                self.nets == old(self).nets,
                self.no_connect == old(self).no_connect,
                self.placements == old(self).placements,
                self.blocks == old(self).blocks,
                issue_views(self.diagnostics@) == issue_views(old(self).diagnostics@) + tail.take(i),
            decreases rest.len(),
        {
            let d = rest.remove(0);
            assert(d == all[i]);
            assert(plain_error(all[i], is[i].0, is[i].1, file));
            proof {
                lemma_issue_views_push(self.diagnostics@, d);
            }
            self.diagnostics.push(d);
            assert(tail.take(i + 1) =~= tail.take(i).push(tail[i]));
            assert(rest@ =~= all.skip(i + 1));
            proof {
                i = i + 1;
            }
        }
        assert(i == all.len());
        assert(tail.take(all.len() as int) =~= tail);
        assert(self@.parts =~= old(self)@.parts);
        assert(self@.blocks =~= old(self)@.blocks);
    }
}

} // verus!

verus! {

/// The plain values of resolved parts.
pub open spec fn part_views(v: Seq<ElabPart>) -> Seq<PartV> {
    v.map_values(|p: ElabPart| p@)
}

impl Elaboration {
    /// Index of the part `id`.
    fn find_part(&self, id: &str) -> (r: Option<usize>)
        ensures
            match r {
                Some(i) => part_slot(self@.parts, id@, 0) == Some(i as int) && i < self.parts@.len(),
                None => part_slot(self@.parts, id@, 0) is None,
            },
    {
        let mut i: usize = 0;
        while i < self.parts.len()
            invariant
                i <= self.parts@.len(),
                part_slot(self@.parts, id@, 0) == part_slot(self@.parts, id@, i as int),
            decreases self.parts.len() - i,
        {
            assert(self@.parts[i as int] == self.parts@[i as int]@);
            if same_text(self.parts[i].id.as_str(), id) {
                return Some(i);
            }
            i += 1;
        }
        None
    }

    /// Elaborates one part declaration of `file` under block `prefix` (see `part_step`).
    fn add_part(&mut self, p: &PartDecl, file: &str, prefix: &str)
        requires
            old(self).well_formed(),
        ensures
            final(self).well_formed(),
            final(self)@ == part_step(*p, file@, prefix@, old(self)@),
    {
        let reference: Option<&str> = match &p.reference {
            Some(r) => Some(r.as_str()),
            None => None,
        };
        assert(crate::routing::text_view(reference) == text_opt(p.reference));
        let ds = check_part(p.id.as_str(), p.reference_prefix.as_str(), reference, &p.terminals, file);
        self.push_issues(
            ds,
            Ghost(part_issues(p.id@, p.reference_prefix@, text_opt(p.reference), p.terminals@)),
            Ghost(file@),
        );
        if !valid_block_id(p.id.as_str()) || !prefix_valid(p.reference_prefix.as_str()) {
            return;
        }
        let ghost s1 = self@;
        let key = qualify(prefix, p.id.as_str());
        let printed = match &p.reference {
            Some(r) => r.clone(),
            None => String::new(),
        };
        let part = ElabPart {
            id: key,
            reference: printed,
            prefix: p.reference_prefix.clone(),
            aliases: copy_pairs(&p.terminals),
            handle: p.handle,
            origin: Origin { file: file.to_owned(), path: text2("/circuit/parts/", p.id.as_str()) },
        };
        let ghost pv = part@;
        match self.find_part(part.id.as_str()) {
            Some(i) => {
                let message = text3("duplicate identity '", part.id.as_str(), "'");
                self.parts.set(i, part);
                assert(self@.parts =~= s1.parts.update(i as int, pv));
                self.push_error("ID003", message.as_str(), file);
            },
            None => {
                self.parts.push(part);
                assert(self@.parts =~= s1.parts.push(pv));
            },
        }
    }

    /// Finds the net `name`.
    fn find_net(&self, name: &str) -> (r: Option<usize>)
        ensures
            match r {
                Some(i) => net_slot(self@.nets, name@, 0) == Some(i as int) && i < self.nets@.len(),
                None => net_slot(self@.nets, name@, 0) is None,
            },
    {
        let mut i: usize = 0;
        while i < self.nets.len()
            invariant
                i <= self.nets@.len(),
                net_slot(self@.nets, name@, 0) == net_slot(self@.nets, name@, i as int),
            decreases self.nets.len() - i,
        {
            assert(self@.nets[i as int] == (self.nets@[i as int].0@, views(self.nets@[i as int].1@)));
            if same_text(self.nets[i].0.as_str(), name) {
                return Some(i);
            }
            i += 1;
        }
        None
    }
}

/// The net a local net is bound to by the port bindings, if any.
fn binding_of(bindings: &Vec<(String, String)>, name: &str) -> (r: Option<String>)
    ensures
        match key_index(pair_views(bindings@), name@, 0) {
            Some(i) => r matches Some(v) && v@ == pair_views(bindings@)[i].1,
            None => r is None,
        },
{
    let mut i: usize = 0;
    while i < bindings.len()
        invariant
            i <= bindings@.len(),
            key_index(pair_views(bindings@), name@, 0) == key_index(pair_views(bindings@), name@, i as int),
        decreases bindings.len() - i,
    {
        assert(pair_views(bindings@)[i as int] == (bindings@[i as int].0@, bindings@[i as int].1@));
        if same_text(bindings[i].0.as_str(), name) {
            return Some(bindings[i].1.clone());
        }
        i += 1;
    }
    None
}

/// Names qualified by block `prefix`.
fn qualify_all(prefix: &str, names: &Vec<String>) -> (r: Vec<String>)
    ensures
        views(r@) == all_qualified(prefix@, views(names@)),
{
    let mut out: Vec<String> = Vec::new();
    let mut i: usize = 0;
    while i < names.len()
        invariant
            i <= names@.len(),
            views(out@) == all_qualified(prefix@, views(names@)).take(i as int),
        decreases names.len() - i,
    {
        let ghost before = out@;
        let q = qualify(prefix, names[i].as_str());
        out.push(q);
        proof {
            lemma_views_push(before, out@.last());
            assert(views(names@)[i as int] == names@[i as int]@);
            assert(all_qualified(prefix@, views(names@)).take(i + 1) =~= all_qualified(prefix@, views(names@)).take(i as int).push(
                qualified(prefix@, names@[i as int]@),
            ));
        }
        i += 1;
    }
    assert(all_qualified(prefix@, views(names@)).take(names@.len() as int) =~= all_qualified(prefix@, views(names@)));
    out
}

impl Elaboration {
    /// Elaborates one local net declaration of `file` under block `prefix` (see `net_step`).
    fn add_net(&mut self, n: &(String, Vec<String>), ids: &Vec<String>, file: &str, prefix: &str, bindings: &Vec<(String, String)>)
        requires
            old(self).well_formed(),
        ensures
            final(self).well_formed(),
            final(self)@ == net_step(*n, views(ids@), file@, prefix@, pair_views(bindings@), old(self)@),
    {
        let ds = check_net_declaration(n.0.as_str(), &n.1, ids, file);
        self.push_issues(ds, Ghost(net_decl_issues(n.0@, n.1@, views(ids@), n.1@.len())), Ghost(file@));
        let name = match binding_of(bindings, n.0.as_str()) {
            Some(v) => v,
            None => qualify(prefix, n.0.as_str()),
        };
        assert(name@ == bound_net(pair_views(bindings@), prefix@, n.0@));
        let endpoints = qualify_all(prefix, &n.1);
        let ghost s1 = self@;
        match self.find_net(name.as_str()) {
            Some(i) => {
                let mut joined: Vec<String> = crate::rules::copy_strings(&self.nets[i].1);
                let mut k: usize = 0;
                let ghost base = views(joined@);
                while k < endpoints.len()
                    invariant
                        k <= endpoints@.len(),
                        views(joined@) == base + views(endpoints@).take(k as int),
                    decreases endpoints.len() - k,
                {
                    let ghost before = joined@;
                    joined.push(endpoints[k].clone());
                    proof {
                        lemma_views_push(before, joined@.last());
                        assert(views(endpoints@).take(k + 1) =~= views(endpoints@).take(k as int).push(endpoints@[k as int]@));
                    }
                    k += 1;
                }
                assert(views(endpoints@).take(endpoints@.len() as int) =~= views(endpoints@));
                let entry = (name, joined);
                let ghost ev = (entry.0@, views(entry.1@));
                self.nets.set(i, entry);
                assert(self@.nets =~= s1.nets.update(i as int, ev));
                assert(self@.parts =~= s1.parts);
                assert(self@.blocks =~= s1.blocks);
            },
            None => {
                let entry = (name, endpoints);
                let ghost ev = (entry.0@, views(entry.1@));
                self.nets.push(entry);
                assert(self@.nets =~= s1.nets.push(ev));
                assert(self@.parts =~= s1.parts);
                assert(self@.blocks =~= s1.blocks);
            },
        }
    }

    /// Places one schematic symbol of `file` under block `prefix` (see `placement_step`).
    fn add_placement(&mut self, p: &(String, usize), file: &str, prefix: &str)
        requires
            old(self).well_formed(),
        ensures
            final(self).well_formed(),
            final(self)@ == placement_step(*p, file@, prefix@, old(self)@),
    {
        let key = qualify(prefix, p.0.as_str());
        let ghost s1 = self@;
        let mut i: usize = 0;
        while i < self.placements.len()
            invariant
                i <= self.placements@.len(),
                self@ == s1,
                s1 == old(self)@,
                key@ == qualified(prefix@, p.0@),
                self.well_formed(),
                placement_slot(s1.placements, key@, 0) == placement_slot(s1.placements, key@, i as int),
            decreases self.placements.len() - i,
        {
            assert(s1.placements[i as int] == (self.placements@[i as int].0@, self.placements@[i as int].1));
            if same_text(self.placements[i].0.as_str(), key.as_str()) {
                let message = text3("duplicate schematic placement for '", key.as_str(), "'");
                let ghost kv = key@;
                assert(placement_slot(s1.placements, kv, i as int) == Some(i as int));
                self.placements.set(i, (key, p.1));
                assert(self@.placements =~= s1.placements.update(i as int, (kv, p.1)));
                assert(self@.parts =~= s1.parts);
                assert(self@.blocks =~= s1.blocks);
                self.push_error("MOD009", message.as_str(), file);
                return;
            }
            i += 1;
        }
        let ghost kv = key@;
        self.placements.push((key, p.1));
        assert(self@.placements =~= s1.placements.push((kv, p.1)));
        assert(self@.parts =~= s1.parts);
        assert(self@.blocks =~= s1.blocks);
    }
}

} // verus!

verus! {

impl Elaboration {
    /// Records the plain errors `ds` in order.
    fn append_plain(&mut self, ds: Vec<Diagnostic>)
        requires
            old(self).well_formed(),
            plain(ds@),
        ensures
            final(self).well_formed(),
            final(self)@ == (ElabV { issues: old(self)@.issues + issue_views(ds@), ..old(self)@ }),
    {
        let ghost all = ds@;
        let mut rest = ds;
        let ghost mut i: int = 0;
        while rest.len() > 0
            invariant
                0 <= i <= all.len(),
                rest@ == all.skip(i),
                plain(all),
                self.well_formed(),
                self.parts == old(self).parts,
                self.nets == old(self).nets,
                self.no_connect == old(self).no_connect,
                self.placements == old(self).placements,
                self.blocks == old(self).blocks,
                issue_views(self.diagnostics@) == issue_views(old(self).diagnostics@) + issue_views(all).take(i),
            decreases rest.len(),
        {
            let d = rest.remove(0);
            assert(d == all[i]);
            proof {
                lemma_issue_views_push(self.diagnostics@, d);
            }
            self.diagnostics.push(d);
            assert(issue_views(all).take(i + 1) =~= issue_views(all).take(i).push(issue_views(all)[i]));
            assert(rest@ =~= all.skip(i + 1));
            proof {
                i = i + 1;
            }
        }
        assert(issue_views(all).take(all.len() as int) =~= issue_views(all));
        assert(self@.parts =~= old(self)@.parts);
        assert(self@.blocks =~= old(self)@.blocks);
    }

    /// Records the port findings `found`, each about `file` or `module_file` as it says.
    fn push_port_issues(
        &mut self,
        ds: Vec<Diagnostic>,
        Ghost(found): Ghost<Seq<PortIssue>>,
        Ghost(file): Ghost<Seq<char>>,
        Ghost(module_file): Ghost<Seq<char>>,
    )
        requires
            old(self).well_formed(),
            port_errors(ds@, found, file, module_file),
        ensures
            final(self).well_formed(),
            final(self)@ == (ElabV { issues: old(self)@.issues + port_issue_views(found, file, module_file), ..old(self)@ }),
    {
        assert(plain(ds@)) by {
            assert forall|k: int| 0 <= k < ds@.len() implies (#[trigger] ds@[k]).severity == Severity::Error && ds@[k].span is None
                && ds@[k].path is None && ds@[k].help is None && ds@[k].related@.len() == 0 by {
                assert(plain_error(ds@[k], found[k].0, found[k].1, if found[k].2 { module_file } else { file }));
            }
        }
        assert(issue_views(ds@) =~= port_issue_views(found, file, module_file)) by {
            assert forall|k: int| 0 <= k < ds@.len() implies #[trigger] issue_views(ds@)[k] == port_issue_views(found, file, module_file)[k] by {
                assert(plain_error(ds@[k], found[k].0, found[k].1, if found[k].2 { module_file } else { file }));
            }
        }
        self.append_plain(ds);
    }
}

/// Whether some binding binds a port to net `name`.
fn bound_to_exec(bindings: &Vec<(String, String)>, name: &str) -> (r: bool)
    ensures
        r == bound_to(pair_views(bindings@), name@),
{
    let mut i: usize = 0;
    while i < bindings.len()
        invariant
            i <= bindings@.len(),
            forall|k: int| 0 <= k < i ==> #[trigger] pair_views(bindings@)[k].1 != name@,
        decreases bindings.len() - i,
    {
        assert(pair_views(bindings@)[i as int] == (bindings@[i as int].0@, bindings@[i as int].1@));
        if same_text(bindings[i].1.as_str(), name) {
            assert(pair_views(bindings@)[i as int].1 == name@);
            return true;
        }
        i += 1;
    }
    false
}

} // verus!

verus! {

impl Elaboration {
    /// The ids of the parts inside block `key`, in order.
    fn owned_part_ids(&self, key: &str) -> (r: Vec<String>)
        ensures
            views(r@) == owned_parts(self@.parts, key@, self@.parts.len()),
    {
        let inside = text2(key, "/");
        let mut out: Vec<String> = Vec::new();
        let mut i: usize = 0;
        while i < self.parts.len()
            invariant
                i <= self.parts@.len(),
                inside@ == key@ + "/"@,
                views(out@) == owned_parts(self@.parts, key@, i as nat),
            decreases self.parts.len() - i,
        {
            assert(self@.parts[i as int] == self.parts@[i as int]@);
            let ghost before = out@;
            if crate::pipeline::text_has_prefix(self.parts[i].id.as_str(), inside.as_str()) {
                out.push(self.parts[i].id.clone());
                proof {
                    lemma_views_push(before, out@.last());
                }
                assert(views(out@) =~= owned_parts(self@.parts, key@, i as nat) + seq![self@.parts[i as int].id]);
            } else {
                assert(owned_parts(self@.parts, key@, i as nat) =~= owned_parts(self@.parts, key@, i as nat) + Seq::<Seq<char>>::empty());
            }
            i += 1;
        }
        out
    }

    /// The names of the nets that belong to block `key`: inside it or bound to its ports.
    fn owned_net_names(&self, key: &str, bindings: &Vec<(String, String)>) -> (r: Vec<String>)
        ensures
            views(r@) == owned_nets(self@.nets, key@, pair_views(bindings@), self@.nets.len()),
    {
        let inside = text2(key, "/");
        let mut out: Vec<String> = Vec::new();
        let mut i: usize = 0;
        while i < self.nets.len()
            invariant
                i <= self.nets@.len(),
                inside@ == key@ + "/"@,
                views(out@) == owned_nets(self@.nets, key@, pair_views(bindings@), i as nat),
            decreases self.nets.len() - i,
        {
            assert(self@.nets[i as int] == (self.nets@[i as int].0@, views(self.nets@[i as int].1@)));
            let ghost before = out@;
            let name = self.nets[i].0.as_str();
            if crate::pipeline::text_has_prefix(name, inside.as_str()) || bound_to_exec(bindings, name) {
                out.push(self.nets[i].0.clone());
                proof {
                    lemma_views_push(before, out@.last());
                }
                assert(views(out@) =~= owned_nets(self@.nets, key@, pair_views(bindings@), i as nat) + seq![self@.nets[i as int].0]);
            } else {
                assert(owned_nets(self@.nets, key@, pair_views(bindings@), i as nat) =~= owned_nets(
                    self@.nets,
                    key@,
                    pair_views(bindings@),
                    i as nat,
                ) + Seq::<Seq<char>>::empty());
            }
            i += 1;
        }
        out
    }

    /// Puts block `b` in: in place of a block with its id, or appended.
    fn put_block(&mut self, b: BlockRef)
        requires
            old(self).well_formed(),
        ensures
            final(self).well_formed(),
            final(self)@ == (ElabV { blocks: put_block(old(self)@.blocks, b@), ..old(self)@ }),
    {
        let ghost s0 = self@;
        let mut i: usize = 0;
        while i < self.blocks.len()
            invariant
                i <= self.blocks@.len(),
                self@ == s0,
                s0 == old(self)@,
                self.well_formed(),
                block_slot(s0.blocks, b@.id, 0) == block_slot(s0.blocks, b@.id, i as int),
            decreases self.blocks.len() - i,
        {
            assert(s0.blocks[i as int] == self.blocks@[i as int]@);
            if same_text(self.blocks[i].id.as_str(), b.id.as_str()) {
                let ghost bv = b@;
                self.blocks.set(i, b);
                assert(self@.blocks =~= s0.blocks.update(i as int, bv));
                assert(self@.parts =~= s0.parts);
                return;
            }
            i += 1;
        }
        let ghost bv = b@;
        self.blocks.push(b);
        assert(self@.blocks =~= s0.blocks.push(bv));
        assert(self@.parts =~= s0.parts);
    }
}

} // verus!

verus! {

/// The ids of a circuit's parts.
fn part_id_list(c: &CircuitDecl) -> (r: Vec<String>)
    ensures
        views(r@) == part_ids(*c),
{
    let mut out: Vec<String> = Vec::new();
    let mut i: usize = 0;
    while i < c.parts.len()
        invariant
            i <= c.parts@.len(),
            views(out@) == part_ids(*c).take(i as int),
        decreases c.parts.len() - i,
    {
        let ghost before = out@;
        out.push(c.parts[i].id.clone());
        proof {
            lemma_views_push(before, out@.last());
        }
        assert(part_ids(*c).take(i + 1) =~= part_ids(*c).take(i as int).push(c.parts@[i as int].id@));
        i += 1;
    }
    assert(part_ids(*c).take(c.parts@.len() as int) =~= part_ids(*c));
    out
}

/// The names of a circuit's local nets.
fn local_net_list(c: &CircuitDecl) -> (r: Vec<String>)
    ensures
        views(r@) == local_nets(*c),
{
    let mut out: Vec<String> = Vec::new();
    let mut i: usize = 0;
    while i < c.nets.len()
        invariant
            i <= c.nets@.len(),
            views(out@) == local_nets(*c).take(i as int),
        decreases c.nets.len() - i,
    {
        let ghost before = out@;
        out.push(c.nets[i].0.clone());
        proof {
            lemma_views_push(before, out@.last());
        }
        assert(local_nets(*c).take(i + 1) =~= local_nets(*c).take(i as int).push(c.nets@[i as int].0@));
        i += 1;
    }
    assert(local_nets(*c).take(c.nets@.len() as int) =~= local_nets(*c));
    out
}

impl Elaboration {
    /// Elaborates a circuit's own declarations (see `local_step`).
    fn elaborate_local(&mut self, c: &CircuitDecl, ids: &Vec<String>, file: &str, prefix: &str, bindings: &Vec<(String, String)>)
        requires
            old(self).well_formed(),
            views(ids@) == part_ids(*c),
        ensures
            final(self).well_formed(),
            final(self)@ == local_step(*c, file@, prefix@, pair_views(bindings@), old(self)@),
    {
        let ghost s0 = self@;
        let mut i: usize = 0;
        while i < c.parts.len()
            invariant
                i <= c.parts@.len(),
                self.well_formed(),
                self@ == parts_upto(c.parts@, file@, prefix@, s0, i as nat),
            decreases c.parts.len() - i,
        {
            self.add_part(&c.parts[i], file, prefix);
            i += 1;
        }
        let ghost s1 = self@;
        let mut k: usize = 0;
        while k < c.nets.len()
            invariant
                k <= c.nets@.len(),
                views(ids@) == part_ids(*c),
                self.well_formed(),
                self@ == nets_upto(c.nets@, part_ids(*c), file@, prefix@, pair_views(bindings@), s1, k as nat),
            decreases c.nets.len() - k,
        {
            self.add_net(&c.nets[k], ids, file, prefix, bindings);
            k += 1;
        }
        let ghost s2 = self@;
        let extra = qualify_all(prefix, &c.unconnected);
        let mut j: usize = 0;
        while j < extra.len()
            invariant
                j <= extra@.len(),
                self.well_formed(),
                self@ == (ElabV { no_connect: s2.no_connect + views(extra@).take(j as int), ..s2 }),
            decreases extra.len() - j,
        {
            let ghost before = self.no_connect@;
            self.no_connect.push(extra[j].clone());
            proof {
                lemma_views_push(before, self.no_connect@.last());
            }
            assert(views(extra@).take(j + 1) =~= views(extra@).take(j as int).push(extra@[j as int]@));
            assert(self@.no_connect =~= s2.no_connect + views(extra@).take(j + 1));
            assert(self@.parts =~= s2.parts);
            assert(self@.blocks =~= s2.blocks);
            j += 1;
        }
        assert(views(extra@).take(extra@.len() as int) =~= views(extra@));
        let ghost s3 = self@;
        match &c.placements {
            Some(ps) => {
                let mut m: usize = 0;
                while m < ps.len()
                    invariant
                        m <= ps@.len(),
                        self.well_formed(),
                        self@ == placements_upto(ps@, file@, prefix@, s3, m as nat),
                    decreases ps.len() - m,
                {
                    self.add_placement(&ps[m], file, prefix);
                    m += 1;
                }
            },
            None => {},
        }
    }
}

} // verus!

verus! {

impl Elaboration {
    /// Elaborates circuit `c` of `file` as block `prefix` with the port `bindings` (see
    /// `circuit_step`).
    fn elaborate_circuit(&mut self, c: &CircuitDecl, file: &str, prefix: &str, bindings: &Vec<(String, String)>)
        requires
            old(self).well_formed(),
        ensures
            final(self).well_formed(),
            final(self)@ == circuit_step(*c, file@, prefix@, pair_views(bindings@), old(self)@),
        decreases c, 1nat,
    {
        let ids = part_id_list(c);
        self.elaborate_local(c, &ids, file, prefix, bindings);
        let ghost s1 = self@;
        let mut k: usize = 0;
        while k < c.instances.len()
            invariant
                k <= c.instances@.len(),
                views(ids@) == part_ids(*c),
                self.well_formed(),
                self@ == instances_upto(*c, file@, prefix@, pair_views(bindings@), s1, k as nat),
            decreases c.instances.len() - k,
        {
            proof {
                assert(decreases_to!(c => c.instances));
                assert(decreases_to!(c.instances => c.instances@));
                assert(decreases_to!(c.instances@ => c.instances@[k as int]));
            }
            self.elaborate_instance(&c.instances[k], &ids, file, prefix, bindings);
            k += 1;
        }
    }

    /// Elaborates instance `inst` of `file` under block `prefix` (see `instance_step`).
    fn elaborate_instance(
        &mut self,
        inst: &InstanceDecl,
        parent_ids: &Vec<String>,
        file: &str,
        prefix: &str,
        bindings: &Vec<(String, String)>,
    )
        requires
            old(self).well_formed(),
        ensures
            final(self).well_formed(),
            final(self)@ == instance_step(*inst, views(parent_ids@), file@, prefix@, pair_views(bindings@), old(self)@),
        decreases inst, 0nat,
    {
        if !valid_block_id(inst.id.as_str()) || crate::rules::contains_string(parent_ids, inst.id.as_str()) {
            let message = text3("invalid or conflicting instance id '", inst.id.as_str(), "'");
            self.push_error("MOD001", message.as_str(), file);
            return;
        }
        match &inst.source {
            ModuleSource::Outside(path) => {
                let message = text2("module is missing or outside project: ", path.as_str());
                self.push_error("MOD002", message.as_str(), file);
            },
            ModuleSource::Cycle(canonical) => {
                self.push_error("MOD004", "module cycle", canonical.as_str());
            },
            ModuleSource::Unreadable(canonical, reason) => {
                self.push_error("MOD003", reason.as_str(), canonical.as_str());
            },
            ModuleSource::Loaded(m) => {
                if m.format_version != 2 {
                    self.push_error("MOD007", "expected format_version 2", m.file.as_str());
                } else if !m.outline_empty {
                    self.push_error("MOD015", "module layouts cannot redefine the board outline", m.file.as_str());
                } else {
                    let key = qualify(prefix, inst.id.as_str());
                    let locals = local_net_list(&m.circuit);
                    let (bound, ds) = bind_ports(&m.ports, &inst.connections, &locals, bindings, prefix, file, m.file.as_str());
                    let ghost steps = port_steps(
                        m.ports@,
                        inst.connections@,
                        local_nets(m.circuit),
                        pair_views(bindings@),
                        prefix@,
                        m.ports@.len(),
                    );
                    self.push_port_issues(
                        ds,
                        Ghost(connection_issues(inst.connections@, m.ports@, inst.connections@.len()) + steps.1),
                        Ghost(file@),
                        Ghost(m.file@),
                    );
                    proof {
                        assert(decreases_to!(inst => inst.source));
                    }
                    self.elaborate_circuit(&m.circuit, m.file.as_str(), key.as_str(), &bound);
                    let components = self.owned_part_ids(key.as_str());
                    let nets = self.owned_net_names(key.as_str(), &bound);
                    let block = BlockRef { id: key, file: m.file.clone(), components, nets };
                    self.put_block(block);
                }
            },
        }
    }
}

} // verus!

verus! {

/// Elaborates a project's root circuit of `file` with all its module instances: every part
/// under its global identity, every net with the endpoints of all the circuits that join it,
/// the unconnected terminals, the schematic placements, a block for each expanded instance, and
/// the findings in the order they arise.
pub fn elaborate(root: &CircuitDecl, file: &str) -> (r: Elaboration)
    ensures
        r@ == elaborated(*root, file@),
        r.well_formed(),
{
    let mut e = Elaboration::new();
    let none: Vec<(String, String)> = Vec::new();
    assert(pair_views(none@) =~= Seq::<(Seq<char>, Seq<char>)>::empty());
    e.elaborate_circuit(root, file, "", &none);
    proof {
        reveal_strlit("");
    }
    assert(""@ =~= Seq::<char>::empty());
    e
}

} // verus!

verus! {

/// Whether an elaboration names each part, net, schematic placement and block once.
pub open spec fn names_unique(s: ElabV) -> bool {
    &&& forall|i: int, j: int| 0 <= i < j < s.parts.len() ==> #[trigger] s.parts[i].id != #[trigger] s.parts[j].id
    &&& forall|i: int, j: int| 0 <= i < j < s.nets.len() ==> #[trigger] s.nets[i].0 != #[trigger] s.nets[j].0
    &&& forall|i: int, j: int| 0 <= i < j < s.placements.len() ==> #[trigger] s.placements[i].0 != #[trigger] s.placements[j].0
    &&& forall|i: int, j: int| 0 <= i < j < s.blocks.len() ==> #[trigger] s.blocks[i].id != #[trigger] s.blocks[j].id
}

proof fn lemma_part_slot(parts: Seq<PartV>, id: Seq<char>, from: int)
    requires
        0 <= from,
    ensures
        part_slot(parts, id, from) matches Some(i) ==> from <= i < parts.len() && parts[i].id == id,
        part_slot(parts, id, from) is None ==> forall|k: int| from <= k < parts.len() ==> #[trigger] parts[k].id != id,
    decreases parts.len() - from,
{
    if from < parts.len() && parts[from].id != id {
        lemma_part_slot(parts, id, from + 1);
    }
}

proof fn lemma_net_slot(nets: Seq<(Seq<char>, Seq<Seq<char>>)>, name: Seq<char>, from: int)
    requires
        0 <= from,
    ensures
        net_slot(nets, name, from) matches Some(i) ==> from <= i < nets.len() && nets[i].0 == name,
        net_slot(nets, name, from) is None ==> forall|k: int| from <= k < nets.len() ==> #[trigger] nets[k].0 != name,
    decreases nets.len() - from,
{
    if from < nets.len() && nets[from].0 != name {
        lemma_net_slot(nets, name, from + 1);
    }
}

proof fn lemma_placement_slot(ps: Seq<(Seq<char>, usize)>, id: Seq<char>, from: int)
    requires
        0 <= from,
    ensures
        placement_slot(ps, id, from) matches Some(i) ==> from <= i < ps.len() && ps[i].0 == id,
        placement_slot(ps, id, from) is None ==> forall|k: int| from <= k < ps.len() ==> #[trigger] ps[k].0 != id,
    decreases ps.len() - from,
{
    if from < ps.len() && ps[from].0 != id {
        lemma_placement_slot(ps, id, from + 1);
    }
}

proof fn lemma_block_slot(blocks: Seq<BlockV>, id: Seq<char>, from: int)
    requires
        0 <= from,
    ensures
        block_slot(blocks, id, from) matches Some(i) ==> from <= i < blocks.len() && blocks[i].id == id,
        block_slot(blocks, id, from) is None ==> forall|k: int| from <= k < blocks.len() ==> #[trigger] blocks[k].id != id,
    decreases blocks.len() - from,
{
    if from < blocks.len() && blocks[from].id != id {
        lemma_block_slot(blocks, id, from + 1);
    }
}

proof fn lemma_part_step_unique(p: PartDecl, file: Seq<char>, prefix: Seq<char>, s: ElabV)
    requires
        names_unique(s),
    ensures
        names_unique(part_step(p, file, prefix, s)),
{
    let s1 = with_issues(s, part_issues(p.id@, p.reference_prefix@, text_opt(p.reference), p.terminals@), file);
    assert(names_unique(s1));
    let key = qualified(prefix, p.id@);
    lemma_part_slot(s1.parts, key, 0);
    let r = part_step(p, file, prefix, s);
    assert forall|i: int, j: int| 0 <= i < j < r.parts.len() implies #[trigger] r.parts[i].id != #[trigger] r.parts[j].id by {
        if block_id(p.id@) && prefix_ok(p.reference_prefix@) {
            match part_slot(s1.parts, key, 0) {
                Some(x) => {
                    assert(s1.parts[i].id != s1.parts[j].id);
                },
                None => {
                    if j < s1.parts.len() {
                        assert(s1.parts[i].id != s1.parts[j].id);
                    }
                },
            }
        } else {
            assert(s1.parts[i].id != s1.parts[j].id);
        }
    }
}

proof fn lemma_parts_upto_unique(parts: Seq<PartDecl>, file: Seq<char>, prefix: Seq<char>, s: ElabV, n: nat)
    requires
        names_unique(s),
    ensures
        names_unique(parts_upto(parts, file, prefix, s, n)),
    decreases n,
{
    if n > 0 && n <= parts.len() {
        lemma_parts_upto_unique(parts, file, prefix, s, (n - 1) as nat);
        lemma_part_step_unique(parts[n - 1], file, prefix, parts_upto(parts, file, prefix, s, (n - 1) as nat));
    }
}

proof fn lemma_net_extended_unique(nets: Seq<(Seq<char>, Seq<Seq<char>>)>, name: Seq<char>, endpoints: Seq<Seq<char>>)
    requires
        forall|i: int, j: int| 0 <= i < j < nets.len() ==> #[trigger] nets[i].0 != #[trigger] nets[j].0,
    ensures
        ({
            let r = net_extended(nets, name, endpoints);
            forall|i: int, j: int| 0 <= i < j < r.len() ==> #[trigger] r[i].0 != #[trigger] r[j].0
        }),
{
    lemma_net_slot(nets, name, 0);
    let r = net_extended(nets, name, endpoints);
    assert forall|i: int, j: int| 0 <= i < j < r.len() implies #[trigger] r[i].0 != #[trigger] r[j].0 by {
        if j < nets.len() {
            assert(nets[i].0 != nets[j].0);
        }
    }
}

proof fn lemma_nets_upto_unique(
    nets: Seq<(String, Vec<String>)>,
    part_ids: Seq<Seq<char>>,
    file: Seq<char>,
    prefix: Seq<char>,
    bindings: Seq<(Seq<char>, Seq<char>)>,
    s: ElabV,
    k: nat,
)
    requires
        names_unique(s),
    ensures
        names_unique(nets_upto(nets, part_ids, file, prefix, bindings, s, k)),
    decreases k,
{
    if k > 0 && k <= nets.len() {
        lemma_nets_upto_unique(nets, part_ids, file, prefix, bindings, s, (k - 1) as nat);
        let prev = nets_upto(nets, part_ids, file, prefix, bindings, s, (k - 1) as nat);
        let n = nets[k - 1];
        let s1 = with_issues(prev, net_decl_issues(n.0@, n.1@, part_ids, n.1@.len()), file);
        lemma_net_extended_unique(s1.nets, bound_net(bindings, prefix, n.0@), all_qualified(prefix, views(n.1@)));
    }
}

proof fn lemma_placements_upto_unique(ps: Seq<(String, usize)>, file: Seq<char>, prefix: Seq<char>, s: ElabV, k: nat)
    requires
        names_unique(s),
    ensures
        names_unique(placements_upto(ps, file, prefix, s, k)),
    decreases k,
{
    if k > 0 && k <= ps.len() {
        lemma_placements_upto_unique(ps, file, prefix, s, (k - 1) as nat);
        let prev = placements_upto(ps, file, prefix, s, (k - 1) as nat);
        let key = qualified(prefix, ps[k - 1].0@);
        lemma_placement_slot(prev.placements, key, 0);
        let r = placement_step(ps[k - 1], file, prefix, prev);
        assert forall|i: int, j: int| 0 <= i < j < r.placements.len() implies #[trigger] r.placements[i].0 != #[trigger] r.placements[j].0 by {
            if j < prev.placements.len() {
                assert(prev.placements[i].0 != prev.placements[j].0);
            }
        }
    }
}

proof fn lemma_local_step_unique(c: CircuitDecl, file: Seq<char>, prefix: Seq<char>, bindings: Seq<(Seq<char>, Seq<char>)>, s: ElabV)
    requires
        names_unique(s),
    ensures
        names_unique(local_step(c, file, prefix, bindings, s)),
{
    lemma_parts_upto_unique(c.parts@, file, prefix, s, c.parts@.len());
    let s1 = parts_upto(c.parts@, file, prefix, s, c.parts@.len());
    lemma_nets_upto_unique(c.nets@, part_ids(c), file, prefix, bindings, s1, c.nets@.len());
    let s2 = nets_upto(c.nets@, part_ids(c), file, prefix, bindings, s1, c.nets@.len());
    let s3 = ElabV { no_connect: s2.no_connect + all_qualified(prefix, views(c.unconnected@)), ..s2 };
    assert(names_unique(s3));
    match c.placements {
        Some(ps) => lemma_placements_upto_unique(ps@, file, prefix, s3, ps@.len()),
        None => {},
    }
}

proof fn lemma_circuit_step_unique(c: CircuitDecl, file: Seq<char>, prefix: Seq<char>, bindings: Seq<(Seq<char>, Seq<char>)>, s: ElabV)
    requires
        names_unique(s),
    ensures
        names_unique(circuit_step(c, file, prefix, bindings, s)),
    decreases c, 1nat, 0nat,
{
    lemma_local_step_unique(c, file, prefix, bindings, s);
    lemma_instances_upto_unique(c, file, prefix, bindings, local_step(c, file, prefix, bindings, s), c.instances@.len());
}

proof fn lemma_instances_upto_unique(
    c: CircuitDecl,
    file: Seq<char>,
    prefix: Seq<char>,
    bindings: Seq<(Seq<char>, Seq<char>)>,
    s: ElabV,
    k: nat,
)
    requires
        names_unique(s),
    ensures
        names_unique(instances_upto(c, file, prefix, bindings, s, k)),
    decreases c, 0nat, k,
{
    if k > 0 && k <= c.instances@.len() {
        lemma_instances_upto_unique(c, file, prefix, bindings, s, (k - 1) as nat);
        assert(decreases_to!(c => c.instances));
        assert(decreases_to!(c.instances => c.instances@));
        assert(decreases_to!(c.instances@ => c.instances@[k - 1]));
        lemma_instance_step_unique(
            c.instances@[k - 1],
            part_ids(c),
            file,
            prefix,
            bindings,
            instances_upto(c, file, prefix, bindings, s, (k - 1) as nat),
        );
    }
}

proof fn lemma_instance_step_unique(
    inst: InstanceDecl,
    parent_parts: Seq<Seq<char>>,
    file: Seq<char>,
    prefix: Seq<char>,
    bindings: Seq<(Seq<char>, Seq<char>)>,
    s: ElabV,
)
    requires
        names_unique(s),
    ensures
        names_unique(instance_step(inst, parent_parts, file, prefix, bindings, s)),
    decreases inst, 0nat, 0nat,
{
    if block_id(inst.id@) && !parent_parts.contains(inst.id@) {
        match inst.source {
            ModuleSource::Loaded(m) => {
                if m.format_version == 2 && m.outline_empty {
                    let key = qualified(prefix, inst.id@);
                    let steps = port_steps(m.ports@, inst.connections@, local_nets(m.circuit), bindings, prefix, m.ports@.len());
                    let found = connection_issues(inst.connections@, m.ports@, inst.connections@.len()) + steps.1;
                    let s1 = ElabV { issues: s.issues + port_issue_views(found, file, m.file@), ..s };
                    assert(names_unique(s1));
                    assert(decreases_to!(inst => inst.source));
                    lemma_circuit_step_unique(m.circuit, m.file@, key, steps.0, s1);
                    let s2 = circuit_step(m.circuit, m.file@, key, steps.0, s1);
                    lemma_block_slot(s2.blocks, key, 0);
                    let r = instance_step(inst, parent_parts, file, prefix, bindings, s);
                    assert forall|i: int, j: int| 0 <= i < j < r.blocks.len() implies #[trigger] r.blocks[i].id != #[trigger] r.blocks[j].id by {
                        if j < s2.blocks.len() {
                            assert(s2.blocks[i].id != s2.blocks[j].id);
                        }
                    }
                }
            },
            _ => {},
        }
    }
}

/// Elaboration names each part, net, schematic placement and block once: a repeated identity
/// replaces the earlier entry (and is reported), nets are joined by name, and each instance
/// records one block.
pub proof fn law_elaborated_names_are_unique(root: CircuitDecl, file: Seq<char>)
    ensures
        names_unique(elaborated(root, file)),
{
    lemma_circuit_step_unique(root, file, Seq::empty(), Seq::empty(), empty_elaboration());
}

} // verus!

verus! {

/// The parts as reference numbering sees them.
pub open spec fn numbering_views(parts: Seq<PartV>) -> Seq<RefV> {
    parts.map_values(|p: PartV| RefV { id: p.id, reference: p.reference, prefix: p.prefix })
}

/// The terminal aliases of the parts, by id.
pub open spec fn part_aliases(parts: Seq<PartV>) -> Seq<(Seq<char>, Seq<(Seq<char>, Seq<char>)>)> {
    parts.map_values(|p: PartV| (p.id, p.aliases))
}

/// Endpoints with their terminal aliases replaced by physical terminals.
pub open spec fn canonical_all(a: Seq<(Seq<char>, Seq<(Seq<char>, Seq<char>)>)>, es: Seq<Seq<char>>) -> Seq<Seq<char>> {
    es.map_values(|e: Seq<char>| canonical(a, e))
}

/// An elaboration of `file` named: repeated printed references reported (ID002), the parts
/// without one numbered, and every net endpoint and unconnected terminal written with the
/// physical terminal in place of an alias.
pub open spec fn named(s: ElabV, file: Seq<char>) -> ElabV {
    let refs = final_refs(numbering_views(s.parts));
    let repeats = repeated_upto(numbering_views(s.parts), s.parts.len());
    let a = part_aliases(s.parts);
    ElabV {
        parts: Seq::new(s.parts.len(), |i: int| PartV { reference: refs[i], ..s.parts[i] }),
        nets: s.nets.map_values(|n: (Seq<char>, Seq<Seq<char>>)| (n.0, canonical_all(a, n.1))),
        no_connect: canonical_all(a, s.no_connect),
        issues: s.issues + repeats.map_values(|r: Seq<char>| ("ID002"@, "duplicate printed reference '"@ + r + "'"@, file)),
        ..s
    }
}

/// A project's root circuit of `file` resolved: elaborated, then named.
pub open spec fn resolved(root: CircuitDecl, file: Seq<char>) -> ElabV {
    named(elaborated(root, file), file)
}

/// Endpoints with their terminal aliases replaced.
fn canonical_list(al: &Vec<PartAliases>, es: &Vec<String>) -> (r: Vec<String>)
    ensures
        views(r@) == canonical_all(alias_views(al@), views(es@)),
{
    let mut out: Vec<String> = Vec::new();
    let mut i: usize = 0;
    while i < es.len()
        invariant
            i <= es@.len(),
            views(out@) == canonical_all(alias_views(al@), views(es@)).take(i as int),
        decreases es.len() - i,
    {
        let ghost before = out@;
        out.push(canonical_endpoint(al, es[i].as_str()));
        proof {
            lemma_views_push(before, out@.last());
        }
        assert(canonical_all(alias_views(al@), views(es@)).take(i + 1) =~= canonical_all(alias_views(al@), views(es@)).take(
            i as int,
        ).push(canonical(alias_views(al@), es@[i as int]@)));
        i += 1;
    }
    assert(canonical_all(alias_views(al@), views(es@)).take(es@.len() as int) =~= canonical_all(alias_views(al@), views(es@)));
    out
}

impl Elaboration {
    /// The parts as reference numbering sees them.
    fn numbering_parts(&self) -> (r: Vec<PartRef>)
        ensures
            ref_views(r@) == numbering_views(self@.parts),
    {
        let mut out: Vec<PartRef> = Vec::new();
        let mut i: usize = 0;
        while i < self.parts.len()
            invariant
                i <= self.parts@.len(),
                ref_views(out@) == numbering_views(self@.parts).take(i as int),
            decreases self.parts.len() - i,
        {
            let p = &self.parts[i];
            let r = PartRef { id: p.id.clone(), reference: p.reference.clone(), prefix: p.prefix.clone() };
            let ghost before = out@;
            out.push(r);
            assert(self@.parts[i as int] == self.parts@[i as int]@);
            assert(ref_views(out@) =~= ref_views(before).push(out@.last()@));
            assert(numbering_views(self@.parts).take(i + 1) =~= numbering_views(self@.parts).take(i as int).push(out@.last()@));
            i += 1;
        }
        assert(numbering_views(self@.parts).take(self.parts@.len() as int) =~= numbering_views(self@.parts));
        out
    }

    /// The terminal aliases of the parts.
    fn alias_table(&self) -> (r: Vec<PartAliases>)
        ensures
            alias_views(r@) == part_aliases(self@.parts),
    {
        let mut out: Vec<PartAliases> = Vec::new();
        let mut i: usize = 0;
        while i < self.parts.len()
            invariant
                i <= self.parts@.len(),
                alias_views(out@) == part_aliases(self@.parts).take(i as int),
            decreases self.parts.len() - i,
        {
            let p = &self.parts[i];
            let a = PartAliases { id: p.id.clone(), aliases: copy_pairs(&p.aliases) };
            let ghost before = out@;
            out.push(a);
            assert(self@.parts[i as int] == self.parts@[i as int]@);
            assert(alias_views(out@) =~= alias_views(before).push((out@.last().id@, pair_views(out@.last().aliases@))));
            assert(part_aliases(self@.parts).take(i + 1) =~= part_aliases(self@.parts).take(i as int).push(
                (out@.last().id@, pair_views(out@.last().aliases@)),
            ));
            i += 1;
        }
        assert(part_aliases(self@.parts).take(self.parts@.len() as int) =~= part_aliases(self@.parts));
        out
    }
}

} // verus!

verus! {

impl Elaboration {
    /// Gives each part its final reference.
    fn set_references(&mut self, refs: &Vec<String>)
        requires
            old(self).well_formed(),
            refs@.len() == old(self).parts@.len(),
        ensures
            final(self).well_formed(),
            final(self)@ == (ElabV {
                parts: Seq::new(old(self)@.parts.len(), |i: int| PartV { reference: refs@[i]@, ..old(self)@.parts[i] }),
                ..old(self)@
            }),
    {
        let ghost s0 = self@;
        let ghost want = Seq::new(s0.parts.len(), |i: int| PartV { reference: refs@[i]@, ..s0.parts[i] });
        let mut out: Vec<ElabPart> = Vec::new();
        let mut i: usize = 0;
        while i < self.parts.len()
            invariant
                i <= self.parts@.len(),
                self@ == s0,
                refs@.len() == self.parts@.len(),
                want == Seq::new(s0.parts.len(), |i: int| PartV { reference: refs@[i]@, ..s0.parts[i] }),
                out@.map_values(|p: ElabPart| p@) == want.take(i as int),
            decreases self.parts.len() - i,
        {
            let p = &self.parts[i];
            let q = ElabPart {
                id: p.id.clone(),
                reference: refs[i].clone(),
                prefix: p.prefix.clone(),
                aliases: copy_pairs(&p.aliases),
                handle: p.handle,
                origin: Origin { file: p.origin.file.clone(), path: p.origin.path.clone() },
            };
            let ghost before = out@;
            out.push(q);
            assert(s0.parts[i as int] == self.parts@[i as int]@);
            assert(out@.map_values(|p: ElabPart| p@) =~= before.map_values(|p: ElabPart| p@).push(q@));
            assert(want.take(i + 1) =~= want.take(i as int).push(q@));
            i += 1;
        }
        assert(want.take(self.parts@.len() as int) =~= want);
        self.parts = out;
    }

    /// Writes every net endpoint and unconnected terminal with physical terminals.
    fn canonicalize(&mut self, al: &Vec<PartAliases>)
        requires
            old(self).well_formed(),
        ensures
            final(self).well_formed(),
            final(self)@ == (ElabV {
                nets: old(self)@.nets.map_values(
                    |n: (Seq<char>, Seq<Seq<char>>)| (n.0, canonical_all(alias_views(al@), n.1)),
                ),
                no_connect: canonical_all(alias_views(al@), old(self)@.no_connect),
                ..old(self)@
            }),
    {
        let ghost s0 = self@;
        let ghost a = alias_views(al@);
        let ghost want = s0.nets.map_values(|n: (Seq<char>, Seq<Seq<char>>)| (n.0, canonical_all(a, n.1)));
        let mut nets: Vec<(String, Vec<String>)> = Vec::new();
        let mut i: usize = 0;
        while i < self.nets.len()
            invariant
                i <= self.nets@.len(),
                self@ == s0,
                a == alias_views(al@),
                want == s0.nets.map_values(|n: (Seq<char>, Seq<Seq<char>>)| (n.0, canonical_all(a, n.1))),
                net_views(nets@) == want.take(i as int),
            decreases self.nets.len() - i,
        {
            let entry = (self.nets[i].0.clone(), canonical_list(al, &self.nets[i].1));
            let ghost before = nets@;
            let ghost ev = (entry.0@, views(entry.1@));
            nets.push(entry);
            assert(s0.nets[i as int] == (self.nets@[i as int].0@, views(self.nets@[i as int].1@)));
            assert(net_views(nets@) =~= net_views(before).push(ev));
            assert(want.take(i + 1) =~= want.take(i as int).push(ev));
            i += 1;
        }
        assert(want.take(self.nets@.len() as int) =~= want);
        let loose = canonical_list(al, &self.no_connect);
        self.nets = nets;
        self.no_connect = loose;
    }
}

/// Names an elaboration of `file`: reports printed references used twice (ID002), numbers the
/// parts without one, and writes every net endpoint and unconnected terminal with the physical
/// terminal in place of an alias.
pub fn name(e: Elaboration, file: &str) -> (r: Elaboration)
    requires
        e.well_formed(),
        e.parts@.len() < usize::MAX / 2,
    ensures
        r@ == named(e@, file@),
        r.well_formed(),
{
    let mut e = e;
    let ghost s = e@;
    let pr = e.numbering_parts();
    let (refs, ds) = assign_references(&pr, file);
    proof {
        crate::modules::lemma_final_refs_len(numbering_views(s.parts));
    }
    let al = e.alias_table();
    e.set_references(&refs);
    e.canonicalize(&al);
    let ghost repeats = repeated_upto(numbering_views(s.parts), s.parts.len());
    assert(plain(ds@)) by {
        assert forall|k: int| 0 <= k < ds@.len() implies (#[trigger] ds@[k]).severity == Severity::Error && ds@[k].span is None
            && ds@[k].path is None && ds@[k].help is None && ds@[k].related@.len() == 0 by {
            assert(reports_repeat(ds@[k], repeats[k], file@));
        }
    }
    assert(issue_views(ds@) =~= repeats.map_values(
        |r: Seq<char>| ("ID002"@, "duplicate printed reference '"@ + r + "'"@, file@),
    )) by {
        assert forall|k: int| 0 <= k < ds@.len() implies #[trigger] issue_views(ds@)[k] == repeats.map_values(
            |r: Seq<char>| ("ID002"@, "duplicate printed reference '"@ + r + "'"@, file@),
        )[k] by {
            assert(reports_repeat(ds@[k], repeats[k], file@));
        }
    }
    e.append_plain(ds);
    assert(e@.parts =~= named(s, file@).parts);
    e
}

/// Resolves a project's root circuit of `file`: elaborates it with all its module instances
/// (see `elaborate`), then names the result (see `name`).
pub fn resolve(root: &CircuitDecl, file: &str) -> (r: Elaboration)
    requires
        elaborated(*root, file@).parts.len() < usize::MAX / 2,
    ensures
        r@ == resolved(*root, file@),
        r.well_formed(),
{
    let e = elaborate(root, file);
    assert(e.parts@.len() == e@.parts.len());
    name(e, file)
}

} // verus!

verus! {

/// In a resolved design two parts share a reference only when the author printed it on both
/// (which resolution reports as ID002); numbering never creates a collision.
pub proof fn law_resolved_references_collide_only_when_printed(root: CircuitDecl, file: Seq<char>, i: int, j: int)
    requires
        0 <= i < resolved(root, file).parts.len(),
        0 <= j < resolved(root, file).parts.len(),
        i != j,
        resolved(root, file).parts[i].reference == resolved(root, file).parts[j].reference,
        resolved(root, file).parts[i].reference.len() > 0,
    ensures
        elaborated(root, file).parts[i].reference.len() > 0,
        elaborated(root, file).parts[j].reference.len() > 0,
{
    let s = elaborated(root, file);
    crate::modules::lemma_final_refs_len(numbering_views(s.parts));
    crate::modules::law_numbering_creates_no_collision(numbering_views(s.parts), i, j);
}

/// Resolution keeps every printed reference.
pub proof fn law_resolved_printed_references_are_kept(root: CircuitDecl, file: Seq<char>, i: int)
    requires
        0 <= i < elaborated(root, file).parts.len(),
        elaborated(root, file).parts[i].reference.len() > 0,
    ensures
        resolved(root, file).parts[i].reference == elaborated(root, file).parts[i].reference,
{
    let s = elaborated(root, file);
    crate::modules::law_printed_references_are_kept(numbering_views(s.parts), i);
}

} // verus!

verus! {

proof fn lemma_parts_keep_no_connect(parts: Seq<PartDecl>, file: Seq<char>, prefix: Seq<char>, s: ElabV, n: nat)
    ensures
        parts_upto(parts, file, prefix, s, n).no_connect == s.no_connect,
    decreases n,
{
    if n > 0 && n <= parts.len() {
        lemma_parts_keep_no_connect(parts, file, prefix, s, (n - 1) as nat);
    }
}

proof fn lemma_nets_keep_no_connect(
    nets: Seq<(String, Vec<String>)>,
    part_ids: Seq<Seq<char>>,
    file: Seq<char>,
    prefix: Seq<char>,
    bindings: Seq<(Seq<char>, Seq<char>)>,
    s: ElabV,
    k: nat,
)
    ensures
        nets_upto(nets, part_ids, file, prefix, bindings, s, k).no_connect == s.no_connect,
    decreases k,
{
    if k > 0 && k <= nets.len() {
        lemma_nets_keep_no_connect(nets, part_ids, file, prefix, bindings, s, (k - 1) as nat);
    }
}

proof fn lemma_placements_keep_no_connect(ps: Seq<(String, usize)>, file: Seq<char>, prefix: Seq<char>, s: ElabV, k: nat)
    ensures
        placements_upto(ps, file, prefix, s, k).no_connect == s.no_connect,
    decreases k,
{
    if k > 0 && k <= ps.len() {
        lemma_placements_keep_no_connect(ps, file, prefix, s, (k - 1) as nat);
    }
}

/// The unconnected terminals a circuit declares are recorded in its block's namespace: after
/// elaborating a circuit under block prefix `B`, the no-connect list keeps what it held and
/// gains, in order, `B/T` for each declared terminal `T` (`T` itself at the root) — the same
/// qualification the circuit's part ids and net endpoints get.
pub proof fn law_unconnected_terminals_are_qualified_by_block(
    c: CircuitDecl,
    file: Seq<char>,
    prefix: Seq<char>,
    bindings: Seq<(Seq<char>, Seq<char>)>,
    s: ElabV,
)
    ensures
        ({
            let r = local_step(c, file, prefix, bindings, s).no_connect;
            &&& r.len() == s.no_connect.len() + c.unconnected@.len()
            &&& r.take(s.no_connect.len() as int) == s.no_connect
            &&& forall|i: int|
                0 <= i < c.unconnected@.len() ==> #[trigger] r[s.no_connect.len() + i] == (if prefix.len() == 0 {
                    c.unconnected@[i]@
                } else {
                    prefix + "/"@ + c.unconnected@[i]@
                })
        }),
{
    lemma_parts_keep_no_connect(c.parts@, file, prefix, s, c.parts@.len());
    let s1 = parts_upto(c.parts@, file, prefix, s, c.parts@.len());
    lemma_nets_keep_no_connect(c.nets@, part_ids(c), file, prefix, bindings, s1, c.nets@.len());
    let s2 = nets_upto(c.nets@, part_ids(c), file, prefix, bindings, s1, c.nets@.len());
    let s3 = ElabV { no_connect: s2.no_connect + all_qualified(prefix, views(c.unconnected@)), ..s2 };
    match c.placements {
        Some(ps) => lemma_placements_keep_no_connect(ps@, file, prefix, s3, ps@.len()),
        None => {},
    }
    let r = local_step(c, file, prefix, bindings, s).no_connect;
    assert(r == s3.no_connect);
    assert(r.take(s.no_connect.len() as int) =~= s.no_connect);
    assert forall|i: int| 0 <= i < c.unconnected@.len() implies #[trigger] r[s.no_connect.len() + i] == (if prefix.len() == 0 {
        c.unconnected@[i]@
    } else {
        prefix + "/"@ + c.unconnected@[i]@
    }) by {
        assert(views(c.unconnected@)[i] == c.unconnected@[i]@);
        assert(r[s.no_connect.len() + i] == all_qualified(prefix, views(c.unconnected@))[i]);
    }
}

/// A part declared under block prefix `B`, with a valid id `P` and reference prefix, is
/// recorded under the global identity `B/P` (`P` itself at the root), with the declaration's
/// path in its file.
pub proof fn law_parts_are_qualified_by_block(p: PartDecl, file: Seq<char>, prefix: Seq<char>, s: ElabV)
    requires
        block_id(p.id@),
        prefix_ok(p.reference_prefix@),
    ensures
        exists|j: int|
            0 <= j < part_step(p, file, prefix, s).parts.len() && (#[trigger] part_step(p, file, prefix, s).parts[j]).id == (
            if prefix.len() == 0 {
                p.id@
            } else {
                prefix + "/"@ + p.id@
            }) && part_step(p, file, prefix, s).parts[j].path == "/circuit/parts/"@ + p.id@,
{
    let s1 = with_issues(s, part_issues(p.id@, p.reference_prefix@, text_opt(p.reference), p.terminals@), file);
    let key = qualified(prefix, p.id@);
    let r = part_step(p, file, prefix, s);
    match part_slot(s1.parts, key, 0) {
        Some(i) => {
            lemma_part_slot(s1.parts, key, 0);
            assert(r.parts[i].id == key);
        },
        None => {
            assert(r.parts[s1.parts.len() as int].id == key);
        },
    }
}

/// The endpoints of a net declared under block prefix `B` are qualified like the parts they
/// name: after the declaration `N` with endpoints `E` is elaborated, the net it is bound to
/// (the parent's net for a port binding `N`, else `B/N`, `N` at the root) ends with `B/e`
/// (`e` at the root) for each `e` of `E`, in order.
pub proof fn law_net_endpoints_are_qualified_by_block(
    n: (String, Vec<String>),
    part_ids: Seq<Seq<char>>,
    file: Seq<char>,
    prefix: Seq<char>,
    bindings: Seq<(Seq<char>, Seq<char>)>,
    s: ElabV,
)
    ensures
        ({
            let target = match key_index(bindings, n.0@, 0) {
                Some(i) => bindings[i].1,
                None => if prefix.len() == 0 {
                    n.0@
                } else {
                    prefix + "/"@ + n.0@
                },
            };
            let nets = net_step(n, part_ids, file, prefix, bindings, s).nets;
            let m = n.1@.len();
            exists|j: int|
                0 <= j < nets.len() && (#[trigger] nets[j]).0 == target && nets[j].1.len() >= m && forall|t: int|
                    0 <= t < m ==> #[trigger] nets[j].1[nets[j].1.len() - m + t] == (if prefix.len() == 0 {
                        n.1@[t]@
                    } else {
                        prefix + "/"@ + n.1@[t]@
                    })
        }),
{
    let s1 = with_issues(s, net_decl_issues(n.0@, n.1@, part_ids, n.1@.len()), file);
    let name = bound_net(bindings, prefix, n.0@);
    let eps = all_qualified(prefix, views(n.1@));
    let nets = net_step(n, part_ids, file, prefix, bindings, s).nets;
    let m = n.1@.len();
    assert(eps.len() == m);
    assert forall|t: int| 0 <= t < m implies #[trigger] eps[t] == (if prefix.len() == 0 {
        n.1@[t]@
    } else {
        prefix + "/"@ + n.1@[t]@
    }) by {
        assert(views(n.1@)[t] == n.1@[t]@);
    }
    match net_slot(s1.nets, name, 0) {
        Some(i) => {
            lemma_net_slot(s1.nets, name, 0);
            let old_eps = s1.nets[i].1;
            assert(nets[i] == (name, old_eps + eps));
            assert forall|t: int| 0 <= t < m implies #[trigger] nets[i].1[nets[i].1.len() - m + t] == eps[t] by {
                assert((old_eps + eps)[old_eps.len() + t] == eps[t]);
            }
        },
        None => {
            let j = s1.nets.len() as int;
            assert(nets[j] == (name, eps));
        },
    }
}

} // verus!
