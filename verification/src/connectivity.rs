//! Checks electrical intent against the netlist that KiCad exports: every intended net must
//! be exported with exactly its terminals, and no other net may join two terminals.
use crate::library::replace_all;
use crate::route_workflow::{lex_le, trim_slash_chars};
use crate::text::{chars_of, same_text, string_of_range, text2, text3, text5, views};
use crate::validate::NetEntry;
use vstd::prelude::*;

verus! {

/// An S-expression: an atom (symbol or quoted text) or a list.
#[derive(Debug, PartialEq, Eq)]
pub enum Sexp {
    Symbol(String),
    Quoted(String),
    List(Vec<Sexp>),
}

#[verifier::external_type_specification]
#[verifier::external_body]
pub struct ExNode(kiutils_sexpr::Node);

/// The top-level nodes that `kiutils_sexpr::parse_one` reads from `text`, or the text of its
/// error.
pub uninterp spec fn netlist_nodes(text: Seq<char>) -> Result<Seq<Sexp>, Seq<char>>;

/// Copies a `kiutils_sexpr` node into an `Sexp`: symbol for symbol, quoted atom for quoted
/// atom and list for list.
#[verifier::external_body]
fn sexp_of(node: &kiutils_sexpr::Node) -> Sexp {
    match node {
        kiutils_sexpr::Node::List { items, .. } => Sexp::List(items.iter().map(sexp_of).collect()),
        kiutils_sexpr::Node::Atom { atom: kiutils_sexpr::Atom::Symbol(s), .. } => Sexp::Symbol(s.clone()),
        kiutils_sexpr::Node::Atom { atom: kiutils_sexpr::Atom::Quoted(s), .. } => Sexp::Quoted(s.clone()),
    }
}

/// Calls `kiutils_sexpr::parse_one` on `text` and copies the parsed nodes, or prints the
/// parse error. Claimed: the outcome depends on `text` alone (it is `netlist_nodes`); which
/// trees a text yields is not stated here.
#[verifier::external_body]
fn parse_netlist(text: &str) -> (r: Result<Vec<Sexp>, String>)
    ensures
        match r {
            Ok(nodes) => netlist_nodes(text@) == Ok::<Seq<Sexp>, Seq<char>>(nodes@),
            Err(e) => netlist_nodes(text@) == Err::<Seq<Sexp>, Seq<char>>(e@),
        },
{
    match kiutils_sexpr::parse_one(text) {
        Ok(doc) => Ok(doc.nodes.iter().map(sexp_of).collect()),
        Err(e) => Err(e.to_string()),
    }
}

/// What `format!("{:?}", s)` prints for the text `s`.
pub uninterp spec fn debug_str(s: Seq<char>) -> Seq<char>;

/// `format!("{:?}", s)`: the quoted, escaped form of a text. Claimed: it depends on `s`
/// alone (it is `debug_str`); the escaping rules are not stated here.
#[verifier::external_body]
fn debug_text(s: &str) -> (r: String)
    ensures
        r@ == debug_str(s@),
{
    format!("{:?}", s)
}

/// The atom text of a node.
pub open spec fn atom_of(n: Sexp) -> Option<Seq<char>> {
    match n {
        Sexp::Symbol(s) | Sexp::Quoted(s) => Some(s@),
        Sexp::List(_) => None,
    }
}

/// The head atom of a list node.
pub open spec fn head_of(n: Sexp) -> Option<Seq<char>> {
    match n {
        Sexp::List(items) => if items@.len() > 0 {
            atom_of(items@[0])
        } else {
            None
        },
        Sexp::Symbol(_) | Sexp::Quoted(_) => None,
    }
}

/// The children of a list from index `from` on whose head is `head`.
pub open spec fn children_from(items: Seq<Sexp>, head: Seq<char>, from: int) -> Seq<Sexp>
    decreases items.len() - from,
{
    if from < 0 || from >= items.len() {
        Seq::empty()
    } else if head_of(items[from]) == Some(head) {
        seq![items[from]] + children_from(items, head, from + 1)
    } else {
        children_from(items, head, from + 1)
    }
}

/// The children of node `n` whose head is `head`, in order.
pub open spec fn children_of(n: Sexp, head: Seq<char>) -> Seq<Sexp> {
    match n {
        Sexp::List(items) => children_from(items@, head, 0),
        Sexp::Symbol(_) | Sexp::Quoted(_) => Seq::empty(),
    }
}

/// The value of a child `(head value ...)`: the second atom of the first child with that head
/// that has one.
pub open spec fn field_from(items: Seq<Sexp>, head: Seq<char>, from: int) -> Option<Seq<char>>
    decreases items.len() - from,
{
    if from < 0 || from >= items.len() {
        None
    } else {
        let found = match items[from] {
            Sexp::List(sub) => if sub@.len() > 0 && atom_of(sub@[0]) == Some(head) && sub@.len() > 1 {
                atom_of(sub@[1])
            } else {
                None
            },
            Sexp::Symbol(_) | Sexp::Quoted(_) => None,
        };
        if found is Some {
            found
        } else {
            field_from(items, head, from + 1)
        }
    }
}

/// The value of field `head` of node `n`.
pub open spec fn field_of(n: Sexp, head: Seq<char>) -> Option<Seq<char>> {
    match n {
        Sexp::List(items) => field_from(items@, head, 0),
        Sexp::Symbol(_) | Sexp::Quoted(_) => None,
    }
}

/// The id of the last component whose printed reference is `r`.
pub open spec fn id_of_reference(components: Seq<(String, String)>, r: Seq<char>, k: nat) -> Option<Seq<char>>
    decreases k,
{
    if k == 0 {
        None
    } else if components[k - 1].1@ == r {
        Some(components[k - 1].0@)
    } else {
        id_of_reference(components, r, (k - 1) as nat)
    }
}

/// An exported net: its name and its terminals in export order.
pub type Exported = (Seq<char>, Seq<Seq<char>>);

/// Reading the first `k` nodes of an exported net: its terminals and all terminals seen so
/// far, or the first problem.
pub open spec fn read_nodes(components: Seq<(String, String)>, nodes: Seq<Sexp>, seen: Seq<Seq<char>>, k: nat) -> Result<
    (Seq<Seq<char>>, Seq<Seq<char>>),
    Seq<char>,
>
    decreases k,
{
    if k == 0 {
        Ok((Seq::empty(), seen))
    } else {
        match read_nodes(components, nodes, seen, (k - 1) as nat) {
            Err(e) => Err(e),
            Ok((eps, seen2)) => {
                let m = nodes[k - 1];
                match field_of(m, "ref"@) {
                    None => Err("netlist node has no ref"@),
                    Some(r) => match field_of(m, "pin"@) {
                        None => Err("netlist node has no pin"@),
                        Some(pin) => match id_of_reference(components, r, components.len()) {
                            None => Err("unexpected component '"@ + r + "' in netlist"@),
                            Some(id) => {
                                let ep = id + "."@ + pin;
                                if seen2.contains(ep) {
                                    Err("terminal '"@ + ep + "' appears in multiple nets"@)
                                } else {
                                    Ok((eps.push(ep), seen2.push(ep)))
                                }
                            },
                        },
                    },
                }
            },
        }
    }
}

/// Whether an exported net named `name` is already listed.
pub open spec fn exported_has(nets: Seq<Exported>, name: Seq<char>) -> bool {
    exists|i: int| 0 <= i < nets.len() && nets[i].0 == name
}

/// Reading the first `k` exported nets: the nets and all terminals seen, or the first problem.
pub open spec fn read_nets(components: Seq<(String, String)>, nets: Seq<Sexp>, k: nat) -> Result<(Seq<Exported>, Seq<Seq<char>>), Seq<char>>
    decreases k,
{
    if k == 0 {
        Ok((Seq::empty(), Seq::empty()))
    } else {
        match read_nets(components, nets, (k - 1) as nat) {
            Err(e) => Err(e),
            Ok((actual, seen)) => {
                let n = nets[k - 1];
                match field_of(n, "name"@) {
                    None => Err("net has no name"@),
                    Some(raw) => {
                        let name = trim_slash_chars(raw);
                        let nodes = children_of(n, "node"@);
                        match read_nodes(components, nodes, seen, nodes.len()) {
                            Err(e) => Err(e),
                            Ok((eps, seen2)) => if exported_has(actual, name) {
                                Err("duplicate exported net '"@ + name + "'"@)
                            } else {
                                Ok((actual.push((name, eps)), seen2))
                            },
                        }
                    },
                }
            },
        }
    }
}

/// The terminals of the exported net `name` and the exported nets without it.
pub open spec fn take_net(nets: Seq<Exported>, name: Seq<char>) -> (Seq<Seq<char>>, Seq<Exported>)
    decreases nets.len(),
{
    if nets.len() == 0 {
        (Seq::empty(), nets)
    } else if nets[0].0 == name {
        (nets[0].1, nets.drop_first())
    } else {
        let (eps, rest) = take_net(nets.drop_first(), name);
        (eps, seq![nets[0]] + rest)
    }
}

/// `x` inserted into the strictly ascending `s` unless already there.
pub open spec fn insert_unique(s: Seq<Seq<char>>, x: Seq<char>) -> Seq<Seq<char>>
    decreases s.len(),
{
    if s.len() == 0 {
        seq![x]
    } else if s[0] == x {
        s
    } else if lex_le(x, s[0]) {
        seq![x] + s
    } else {
        seq![s[0]] + insert_unique(s.drop_first(), x)
    }
}

/// The distinct members of `s` in ascending order.
pub open spec fn sorted_set(s: Seq<Seq<char>>) -> Seq<Seq<char>>
    decreases s.len(),
{
    if s.len() == 0 {
        Seq::empty()
    } else {
        insert_unique(sorted_set(s.drop_last()), s.last())
    }
}

/// The printed members, separated by `, `.
pub open spec fn joined(s: Seq<Seq<char>>) -> Seq<char>
    decreases s.len(),
{
    if s.len() == 0 {
        Seq::empty()
    } else if s.len() == 1 {
        debug_str(s[0])
    } else {
        joined(s.drop_last()) + ", "@ + debug_str(s.last())
    }
}

/// How a set of terminals prints: its members in order, quoted, in braces.
pub open spec fn set_text(s: Seq<Seq<char>>) -> Seq<char> {
    "{"@ + joined(sorted_set(s)) + "}"@
}

/// Comparing the first `k` intended nets with the exported ones: the exported nets left over,
/// or the first difference.
pub open spec fn compare_nets(intended: Seq<NetEntry>, actual: Seq<Exported>, k: nat) -> Result<Seq<Exported>, Seq<char>>
    decreases k,
{
    if k == 0 {
        Ok(actual)
    } else {
        match compare_nets(intended, actual, (k - 1) as nat) {
            Err(e) => Err(e),
            Ok(rest) => {
                let net = intended[k - 1];
                let expected = views(net.endpoints@);
                let (exported, rest2) = take_net(rest, replace_all(net.name@, "/"@, "{slash}"@));
                if expected.to_set() != exported.to_set() {
                    Err(
                        "net '"@ + net.name@ + "' differs from circuit intent: expected "@ + set_text(expected)
                            + ", exported "@ + set_text(exported),
                    )
                } else {
                    Ok(rest2)
                }
            },
        }
    }
}

/// Among the first `k` left-over nets, the one with the least name that joins more than one
/// terminal.
pub open spec fn least_joined(nets: Seq<Exported>, k: nat) -> Option<Exported>
    decreases k,
{
    if k == 0 {
        None
    } else {
        let best = least_joined(nets, (k - 1) as nat);
        let n = nets[k - 1];
        let better = match best {
            Some(b) => !lex_le(b.0, n.0),
            None => true,
        };
        if n.1.len() > 1 && better {
            Some(n)
        } else {
            best
        }
    }
}

/// The outcome once the exported nets are read: the first intended net that differs, else the
/// first left-over net that joins terminals.
pub open spec fn after_read(intended: Seq<NetEntry>, actual: Seq<Exported>) -> Result<(), Seq<char>> {
    match compare_nets(intended, actual, intended.len()) {
        Err(e) => Err(e),
        Ok(rest) => match least_joined(rest, rest.len()) {
            Some(n) => Err("unexpected electrical connection '"@ + n.0 + "': "@ + set_text(n.1)),
            None => Ok(()),
        },
    }
}

/// The outcome of checking an exported netlist: `Ok` when every intended net is exported with exactly
/// its terminals and no other exported net joins two terminals; otherwise the first problem.
/// `components` pairs each component id with its printed reference.
pub open spec fn netlist_outcome(components: Seq<(String, String)>, intended: Seq<NetEntry>, text: Seq<char>) -> Result<(), Seq<char>> {
    match netlist_nodes(text) {
        Err(e) => Err(e),
        Ok(nodes) => nodes_outcome(components, intended, nodes),
    }
}

/// The outcome of checking the top-level nodes of an exported netlist: the nets section of
/// the first node is read and compared with the intended nets.
pub open spec fn nodes_outcome(components: Seq<(String, String)>, intended: Seq<NetEntry>, nodes: Seq<Sexp>) -> Result<(), Seq<char>> {
    if nodes.len() == 0 {
        Err("empty netlist"@)
    } else {
        let sections = children_of(nodes[0], "nets"@);
        if sections.len() == 0 {
            Err("netlist has no nets section"@)
        } else {
            let nets = children_of(sections[0], "net"@);
            match read_nets(components, nets, nets.len()) {
                Err(e) => Err(e),
                Ok((actual, _)) => after_read(intended, actual),
            }
        }
    }
}

} // verus!

verus! {

/// The plain values of exported nets.
pub open spec fn exported_views(v: Seq<(String, Vec<String>)>) -> Seq<Exported> {
    v.map_values(|e: (String, Vec<String>)| (e.0@, views(e.1@)))
}

pub(crate) fn head_is(n: &Sexp, head: &str) -> (r: bool)
    ensures
        r == (head_of(*n) == Some(head@)),
{
    match n {
        Sexp::List(items) => {
            if items.len() > 0 {
                match &items[0] {
                    Sexp::Symbol(s) | Sexp::Quoted(s) => same_text(s.as_str(), head),
                    Sexp::List(_) => false,
                }
            } else {
                false
            }
        },
        Sexp::Symbol(_) | Sexp::Quoted(_) => false,
    }
}

proof fn lemma_children_step(items: Seq<Sexp>, head: Seq<char>, from: int)
    requires
        0 <= from < items.len(),
    ensures
        children_from(items, head, from) == (if head_of(items[from]) == Some(head) {
            seq![items[from]]
        } else {
            Seq::empty()
        }) + children_from(items, head, from + 1),
{
    if head_of(items[from]) != Some(head) {
        assert(Seq::<Sexp>::empty() + children_from(items, head, from + 1) =~= children_from(items, head, from + 1));
    }
}

/// The positions, among the items of list `items`, of the children whose head is `head`.
fn child_positions(items: &Vec<Sexp>, head: &str) -> (r: Vec<usize>)
    ensures
        r@.len() == children_from(items@, head@, 0).len(),
        forall|k: int| 0 <= k < r@.len() ==> r@[k] < items@.len() && items@[#[trigger] r@[k] as int] == children_from(items@, head@, 0)[k],
{
    let mut r: Vec<usize> = Vec::new();
    let mut i: usize = 0;
    while i < items.len()
        invariant
            i <= items@.len(),
            children_from(items@, head@, 0) == ({
                let done = Seq::new(r@.len(), |k: int| items@[r@[k] as int]);
                done
            }) + children_from(items@, head@, i as int),
            forall|k: int| 0 <= k < r@.len() ==> #[trigger] r@[k] < items@.len(),
        decreases items.len() - i,
    {
        let ghost before = r@;
        let ghost done = Seq::new(r@.len(), |k: int| items@[r@[k] as int]);
        proof {
            lemma_children_step(items@, head@, i as int);
        }
        if head_is(&items[i], head) {
            r.push(i);
            assert(Seq::new(r@.len(), |k: int| items@[r@[k] as int]) =~= done.push(items@[i as int]));
            assert(done + (seq![items@[i as int]] + children_from(items@, head@, i + 1)) =~= done.push(items@[i as int])
                + children_from(items@, head@, i + 1));
        } else {
            assert(Seq::new(r@.len(), |k: int| items@[r@[k] as int]) =~= done);
            assert(done + (Seq::<Sexp>::empty() + children_from(items@, head@, i + 1)) =~= done + children_from(
                items@,
                head@,
                i + 1,
            ));
        }
        i += 1;
    }
    let ghost done = Seq::new(r@.len(), |k: int| items@[r@[k] as int]);
    assert(children_from(items@, head@, i as int) =~= Seq::<Sexp>::empty());
    assert(children_from(items@, head@, 0) =~= done);
    assert forall|k: int| 0 <= k < r@.len() implies r@[k] < items@.len() && items@[#[trigger] r@[k] as int]
        == children_from(items@, head@, 0)[k] by {
        assert(done[k] == items@[r@[k] as int]);
    }
    r
}

/// The value of field `head` of node `n`.
fn field(n: &Sexp, head: &str) -> (r: Option<String>)
    ensures
        match field_of(*n, head@) {
            Some(v) => r matches Some(s) && s@ == v,
            None => r is None,
        },
{
    match n {
        Sexp::Symbol(_) | Sexp::Quoted(_) => None,
        Sexp::List(items) => {
            let mut i: usize = 0;
            assert(field_of(*n, head@) == field_from(items@, head@, 0));
            while i < items.len()
                invariant
                    i <= items@.len(),
                    field_of(*n, head@) == field_from(items@, head@, i as int),
                decreases items.len() - i,
            {
                match &items[i] {
                    Sexp::List(sub) => {
                        if sub.len() > 1 && head_is(&items[i], head) {
                            match &sub[1] {
                                Sexp::Symbol(s) | Sexp::Quoted(s) => {
                                    assert(atom_of(sub@[1]) == Some(s@));
                                    assert(atom_of(sub@[0]) == Some(head@));
                                    assert(field_from(items@, head@, i as int) == Some(s@));
                                    assert(field_of(*n, head@) == Some(s@));
                                    let v = s.clone();
                                    assert(v@ == s@);
                                    return Some(v);
                                },
                                Sexp::List(_) => {},
                            }
                        }
                    },
                    Sexp::Symbol(_) | Sexp::Quoted(_) => {},
                }
                i += 1;
            }
            None
        },
    }
}

/// The id of the last component printed as `r`.
fn reference_id(components: &Vec<(String, String)>, r: &str) -> (x: Option<String>)
    ensures
        match id_of_reference(components@, r@, components@.len()) {
            Some(v) => x matches Some(s) && s@ == v,
            None => x is None,
        },
{
    let mut k: usize = components.len();
    while k > 0
        invariant
            k <= components@.len(),
            id_of_reference(components@, r@, components@.len()) == id_of_reference(components@, r@, k as nat),
        decreases k,
    {
        if same_text(components[k - 1].1.as_str(), r) {
            return Some(components[k - 1].0.clone());
        }
        k -= 1;
    }
    None
}

} // verus!

verus! {

/// The positions of the children of `n` with head `head` (none for an atom).
pub(crate) fn positions_of(n: &Sexp, head: &str) -> (r: Vec<usize>)
    ensures
        r@.len() == children_of(*n, head@).len(),
        forall|k: int|
            0 <= k < r@.len() ==> (n matches Sexp::List(items) && r@[k] < items@.len() && items@[#[trigger] r@[k] as int]
                == children_of(*n, head@)[k]),
{
    match n {
        Sexp::List(items) => child_positions(items, head),
        Sexp::Symbol(_) | Sexp::Quoted(_) => Vec::new(),
    }
}

/// Item `i` of the list `n`.
pub(crate) fn item(n: &Sexp, i: usize) -> (r: &Sexp)
    requires
        n matches Sexp::List(items) && i < items@.len(),
    ensures
        n matches Sexp::List(items) && *r == items@[i as int],
{
    match n {
        Sexp::List(items) => &items[i],
        Sexp::Symbol(_) | Sexp::Quoted(_) => n,
    }
}

proof fn lemma_nodes_stop(components: Seq<(String, String)>, nodes: Seq<Sexp>, seen: Seq<Seq<char>>, k: nat, big: nat)
    requires
        k <= big,
        read_nodes(components, nodes, seen, k) is Err,
    ensures
        read_nodes(components, nodes, seen, big) == read_nodes(components, nodes, seen, k),
    decreases big - k,
{
    if k < big {
        lemma_nodes_stop(components, nodes, seen, k, (big - 1) as nat);
    }
}

proof fn lemma_nets_stop(components: Seq<(String, String)>, nets: Seq<Sexp>, k: nat, big: nat)
    requires
        k <= big,
        read_nets(components, nets, k) is Err,
    ensures
        read_nets(components, nets, big) == read_nets(components, nets, k),
    decreases big - k,
{
    if k < big {
        lemma_nets_stop(components, nets, k, (big - 1) as nat);
    }
}

proof fn lemma_compare_stop(intended: Seq<NetEntry>, actual: Seq<Exported>, k: nat, big: nat)
    requires
        k <= big,
        compare_nets(intended, actual, k) is Err,
    ensures
        compare_nets(intended, actual, big) == compare_nets(intended, actual, k),
    decreases big - k,
{
    if k < big {
        lemma_compare_stop(intended, actual, k, (big - 1) as nat);
    }
}

/// Reads the nets of the nets section `sec`: their names and terminals, or the first problem.
pub fn read_exported(components: &Vec<(String, String)>, sec: &Sexp) -> (r: Result<Vec<(String, Vec<String>)>, String>)
    ensures
        match (r, read_nets(components@, children_of(*sec, "net"@), children_of(*sec, "net"@).len())) {
            (Ok(a), Ok((b, _))) => exported_views(a@) == b,
            (Err(a), Err(b)) => a@ == b,
            _ => false,
        },
{
    let ghost nets = children_of(*sec, "net"@);
    let pos = positions_of(sec, "net");
    let mut actual: Vec<(String, Vec<String>)> = Vec::new();
    let mut seen: Vec<String> = Vec::new();
    let mut k: usize = 0;
    assert(exported_views(actual@) =~= Seq::<Exported>::empty());
    assert(views(seen@) =~= Seq::<Seq<char>>::empty());
    while k < pos.len()
        invariant
            k <= pos@.len(),
            nets == children_of(*sec, "net"@),
            pos@.len() == nets.len(),
            forall|t: int|
                0 <= t < pos@.len() ==> (sec matches Sexp::List(items) && pos@[t] < items@.len() && items@[#[trigger] pos@[t] as int]
                    == nets[t]),
            read_nets(components@, nets, k as nat) == Ok::<(Seq<Exported>, Seq<Seq<char>>), Seq<char>>(
                (exported_views(actual@), views(seen@)),
            ),
        decreases pos.len() - k,
    {
        assert(sec matches Sexp::List(items) && pos@[k as int] < items@.len());
        let n = item(sec, pos[k]);
        assert(*n == nets[k as int]);
        let raw = match field(n, "name") {
            Some(v) => v,
            None => {
                proof {
                    lemma_nets_stop(components@, nets, (k + 1) as nat, nets.len());
                }
                return Err("net has no name".to_owned());
            },
        };
        let tc = crate::route_workflow::trimmed(&raw);
        let name = string_of_range(tc.as_slice(), 0, tc.len());
        assert(name@ =~= trim_slash_chars(raw@));
        let ghost nodes = children_of(*n, "node"@);
        let ghost seen0 = views(seen@);
        let ghost act0 = exported_views(actual@);
        let npos = positions_of(n, "node");
        let mut eps: Vec<String> = Vec::new();
        let mut j: usize = 0;
        assert(views(eps@) =~= Seq::<Seq<char>>::empty());
        while j < npos.len()
            invariant
                j <= npos@.len(),
                nodes == children_of(*n, "node"@),
                npos@.len() == nodes.len(),
                forall|t: int|
                    0 <= t < npos@.len() ==> (n matches Sexp::List(items) && npos@[t] < items@.len()
                        && items@[#[trigger] npos@[t] as int] == nodes[t]),
                read_nodes(components@, nodes, seen0, j as nat) == Ok::<(Seq<Seq<char>>, Seq<Seq<char>>), Seq<char>>(
                    (views(eps@), views(seen@)),
                ),
                k < nets.len(),
                nets == children_of(*sec, "net"@),
                *n == nets[k as int],
                field_of(*n, "name"@) == Some(raw@),
                name@ == trim_slash_chars(raw@),
                read_nets(components@, nets, k as nat) == Ok::<(Seq<Exported>, Seq<Seq<char>>), Seq<char>>((act0, seen0)),
            decreases npos.len() - j,
        {
            assert(n matches Sexp::List(items) && npos@[j as int] < items@.len());
            let m = item(n, npos[j]);
            assert(*m == nodes[j as int]);
            let r = match field(m, "ref") {
                Some(v) => v,
                None => {
                    proof {
                        lemma_nodes_stop(components@, nodes, seen0, (j + 1) as nat, nodes.len());
                        lemma_nets_stop(components@, nets, (k + 1) as nat, nets.len());
                    }
                    return Err("netlist node has no ref".to_owned());
                },
            };
            let pin = match field(m, "pin") {
                Some(v) => v,
                None => {
                    proof {
                        lemma_nodes_stop(components@, nodes, seen0, (j + 1) as nat, nodes.len());
                        lemma_nets_stop(components@, nets, (k + 1) as nat, nets.len());
                    }
                    return Err("netlist node has no pin".to_owned());
                },
            };
            let id = match reference_id(components, r.as_str()) {
                Some(v) => v,
                None => {
                    let e = text3("unexpected component '", r.as_str(), "' in netlist");
                    proof {
                        lemma_nodes_stop(components@, nodes, seen0, (j + 1) as nat, nodes.len());
                        lemma_nets_stop(components@, nets, (k + 1) as nat, nets.len());
                    }
                    return Err(e);
                },
            };
            let ep = text3(id.as_str(), ".", pin.as_str());
            if crate::rules::contains_string(&seen, ep.as_str()) {
                let e = text3("terminal '", ep.as_str(), "' appears in multiple nets");
                proof {
                    lemma_nodes_stop(components@, nodes, seen0, (j + 1) as nat, nodes.len());
                    lemma_nets_stop(components@, nets, (k + 1) as nat, nets.len());
                }
                return Err(e);
            }
            let ghost se = seen@;
            let ghost ee = eps@;
            seen.push(ep.clone());
            eps.push(ep);
            proof {
                crate::text::lemma_views_push(se, seen@.last());
                crate::text::lemma_views_push(ee, eps@.last());
            }
            j += 1;
        }
        assert(read_nodes(components@, nodes, seen0, nodes.len()) == Ok::<(Seq<Seq<char>>, Seq<Seq<char>>), Seq<char>>(
            (views(eps@), views(seen@)),
        ));
        let mut dup = false;
        let mut t: usize = 0;
        while t < actual.len()
            invariant
                t <= actual@.len(),
                dup == exists|u: int| 0 <= u < t && exported_views(actual@)[u].0 == name@,
            decreases actual.len() - t,
        {
            assert(exported_views(actual@)[t as int].0 == actual@[t as int].0@);
            if actual[t].0 == name {
                dup = true;
            }
            t += 1;
        }
        if dup {
            let e = text3("duplicate exported net '", name.as_str(), "'");
            proof {
                assert(exported_has(act0, name@));
                lemma_nets_stop(components@, nets, (k + 1) as nat, nets.len());
            }
            return Err(e);
        }
        assert(!exported_has(act0, name@));
        let ghost av = actual@;
        actual.push((name, eps));
        assert(exported_views(actual@) =~= exported_views(av).push((name@, views(eps@))));
        k += 1;
    }
    Ok(actual)
}

} // verus!

verus! {

pub(crate) fn insert_unique_exec(s: Vec<String>, x: String) -> (r: Vec<String>)
    ensures
        views(r@) == insert_unique(views(s@), x@),
{
    let ghost sv = views(s@);
    let mut i: usize = 0;
    assert(sv.skip(0) =~= sv);
    assert(sv.take(0) + sv =~= sv);
    while i < s.len() && !(s[i] == x) && !crate::route_workflow::lex_le_exec(&x, &s[i])
        invariant
            i <= s@.len(),
            sv == views(s@),
            insert_unique(sv, x@) == sv.take(i as int) + insert_unique(sv.skip(i as int), x@),
        decreases s.len() - i,
    {
        proof {
            let rest = sv.skip(i as int);
            assert(rest[0] == s@[i as int]@);
            assert(rest.drop_first() =~= sv.skip(i + 1));
            assert(sv.take(i + 1) =~= sv.take(i as int) + seq![rest[0]]);
            assert(sv.take(i as int) + (seq![rest[0]] + insert_unique(rest.drop_first(), x@)) =~= sv.take(i + 1)
                + insert_unique(sv.skip(i + 1), x@));
        }
        i += 1;
    }
    let mut s = s;
    if i < s.len() && s[i] == x {
        proof {
            assert(sv.skip(i as int)[0] == x@);
            assert(sv.take(i as int) + sv.skip(i as int) =~= sv);
        }
        s
    } else {
        proof {
            if i < s.len() {
                assert(sv.skip(i as int)[0] == s@[i as int]@);
            } else {
                assert(sv.skip(i as int) =~= Seq::<Seq<char>>::empty());
            }
        }
        let ghost before = s@;
        s.insert(i, x);
        assert(views(s@) =~= sv.take(i as int) + (seq![x@] + sv.skip(i as int)));
        s
    }
}

/// How a set of terminals prints: its members in ascending order, quoted, in braces.
fn set_text_exec(s: &Vec<String>) -> (r: String)
    ensures
        r@ == set_text(views(s@)),
{
    let mut sorted: Vec<String> = Vec::new();
    let mut i: usize = 0;
    while i < s.len()
        invariant
            i <= s@.len(),
            views(sorted@) == sorted_set(views(s@).take(i as int)),
        decreases s.len() - i,
    {
        sorted = insert_unique_exec(sorted, s[i].clone());
        assert(views(s@).take(i + 1).drop_last() =~= views(s@).take(i as int));
        i += 1;
    }
    assert(views(s@).take(s@.len() as int) =~= views(s@));
    let mut out = "{".to_owned();
    let mut k: usize = 0;
    let ghost ss = views(sorted@);
    while k < sorted.len()
        invariant
            k <= sorted@.len(),
            ss == views(sorted@),
            out@ == "{"@ + joined(ss.take(k as int)),
        decreases sorted.len() - k,
    {
        let ghost before = out@;
        if k > 0 {
            out.append(", ");
        }
        let d = debug_text(sorted[k].as_str());
        out.append(d.as_str());
        proof {
            assert(ss.take(k + 1).drop_last() =~= ss.take(k as int));
            assert(ss.take(k + 1).last() == sorted@[k as int]@);
            if k == 0 {
                assert(joined(ss.take(0)) =~= Seq::<char>::empty());
            }
            assert(out@ =~= "{"@ + joined(ss.take(k + 1)));
        }
        k += 1;
    }
    assert(ss.take(sorted@.len() as int) =~= ss);
    out.append("}");
    out
}

/// Whether two lists hold the same members.
fn same_members(a: &Vec<String>, b: &Vec<String>) -> (r: bool)
    ensures
        r == (views(a@).to_set() == views(b@).to_set()),
{
    let mut i: usize = 0;
    while i < a.len()
        invariant
            i <= a@.len(),
            forall|t: int| 0 <= t < i ==> views(b@).contains(#[trigger] views(a@)[t]),
        decreases a.len() - i,
    {
        assert(views(a@)[i as int] == a@[i as int]@);
        if !crate::rules::contains_string(b, a[i].as_str()) {
            assert(views(a@).to_set().contains(views(a@)[i as int]));
            assert(!views(b@).to_set().contains(views(a@)[i as int]));
            return false;
        }
        i += 1;
    }
    let mut j: usize = 0;
    while j < b.len()
        invariant
            j <= b@.len(),
            forall|t: int| 0 <= t < a@.len() ==> views(b@).contains(#[trigger] views(a@)[t]),
            forall|t: int| 0 <= t < j ==> views(a@).contains(#[trigger] views(b@)[t]),
        decreases b.len() - j,
    {
        assert(views(b@)[j as int] == b@[j as int]@);
        if !crate::rules::contains_string(a, b[j].as_str()) {
            assert(views(b@).to_set().contains(views(b@)[j as int]));
            assert(!views(a@).to_set().contains(views(b@)[j as int]));
            return false;
        }
        j += 1;
    }
    assert forall|x: Seq<char>| views(a@).to_set().contains(x) == views(b@).to_set().contains(x) by {
        if views(a@).contains(x) {
            let t = choose|t: int| 0 <= t < views(a@).len() && views(a@)[t] == x;
            assert(views(b@).contains(views(a@)[t]));
        }
        if views(b@).contains(x) {
            let t = choose|t: int| 0 <= t < views(b@).len() && views(b@)[t] == x;
            assert(views(a@).contains(views(b@)[t]));
        }
    }
    assert(views(a@).to_set() =~= views(b@).to_set());
    true
}

proof fn lemma_take_net(nets: Seq<Exported>, name: Seq<char>, i: int)
    requires
        0 <= i < nets.len(),
        nets[i].0 == name,
        forall|t: int| 0 <= t < i ==> nets[t].0 != name,
    ensures
        take_net(nets, name) == (nets[i].1, nets.remove(i)),
    decreases i,
{
    if i > 0 {
        lemma_take_net(nets.drop_first(), name, i - 1);
        assert(seq![nets[0]] + nets.drop_first().remove(i - 1) =~= nets.remove(i));
    } else {
        assert(nets.drop_first() =~= nets.remove(0));
    }
}

proof fn lemma_take_missing(nets: Seq<Exported>, name: Seq<char>)
    requires
        forall|t: int| 0 <= t < nets.len() ==> nets[t].0 != name,
    ensures
        take_net(nets, name) == (Seq::<Seq<char>>::empty(), nets),
    decreases nets.len(),
{
    if nets.len() > 0 {
        lemma_take_missing(nets.drop_first(), name);
        assert(seq![nets[0]] + nets.drop_first() =~= nets);
    }
}

/// Checks an exported KiCad netlist against the intended nets: every intended net must be
/// exported, under its name with `/` written `{slash}`, with exactly its terminals; no
/// terminal may appear in two exported nets; and no other exported net may join two
/// terminals. `components` pairs each component id with its printed reference.
pub fn verify(components: &Vec<(String, String)>, nets: &Vec<NetEntry>, netlist: &str) -> (r: Result<(), String>)
    ensures
        match (r, netlist_outcome(components@, nets@, netlist@)) {
            (Ok(_), Ok(_)) => true,
            (Err(a), Err(b)) => a@ == b,
            _ => false,
        },
{
    let nodes = match parse_netlist(netlist) {
        Ok(n) => n,
        Err(e) => {
            return Err(e);
        },
    };
    verify_nodes(components, nets, &nodes)
}

/// Checks the top-level nodes of an exported KiCad netlist against the intended nets (see
/// `verify`).
pub fn verify_nodes(components: &Vec<(String, String)>, nets: &Vec<NetEntry>, nodes: &Vec<Sexp>) -> (r: Result<(), String>)
    ensures
        match (r, nodes_outcome(components@, nets@, nodes@)) {
            (Ok(_), Ok(_)) => true,
            (Err(a), Err(b)) => a@ == b,
            _ => false,
        },
{
    if nodes.len() == 0 {
        return Err("empty netlist".to_owned());
    }
    let root = &nodes[0];
    let secs = positions_of(root, "nets");
    if secs.len() == 0 {
        return Err("netlist has no nets section".to_owned());
    }
    let sec = item(root, secs[0]);
    let mut rest = match read_exported(components, sec) {
        Ok(a) => a,
        Err(e) => {
            return Err(e);
        },
    };
    let ghost actual0 = exported_views(rest@);
    assert(nodes_outcome(components@, nets@, nodes@) == after_read(nets@, actual0));
    let mut k: usize = 0;
    while k < nets.len()
        invariant
            k <= nets@.len(),
            nodes_outcome(components@, nets@, nodes@) == after_read(nets@, actual0),
            compare_nets(nets@, actual0, k as nat) == Ok::<Seq<Exported>, Seq<char>>(exported_views(rest@)),
        decreases nets.len() - k,
    {
        let net = &nets[k];
        proof {
            reveal_strlit("/");
        }
        let wanted = crate::library::replace_text(net.name.as_str(), "/", "{slash}");
        let ghost rv = exported_views(rest@);
        let mut i: usize = 0;
        while i < rest.len() && !(rest[i].0 == wanted)
            invariant
                i <= rest@.len(),
                rv == exported_views(rest@),
                forall|t: int| 0 <= t < i ==> rv[t].0 != wanted@,
            decreases rest.len() - i,
        {
            assert(rv[i as int].0 == rest@[i as int].0@);
            i += 1;
        }
        let exported: Vec<String> = if i < rest.len() {
            proof {
                assert(rv[i as int].0 == wanted@);
                lemma_take_net(rv, wanted@, i as int);
            }
            let (_, eps) = rest.remove(i);
            assert(exported_views(rest@) =~= rv.remove(i as int));
            eps
        } else {
            proof {
                lemma_take_missing(rv, wanted@);
            }
            let v: Vec<String> = Vec::new();
            assert(views(v@) =~= Seq::<Seq<char>>::empty());
            v
        };
        assert(take_net(rv, wanted@).0 == views(exported@));
        if !same_members(&net.endpoints, &exported) {
            let mut m = text3("net '", net.name.as_str(), "' differs from circuit intent: expected ");
            let a = set_text_exec(&net.endpoints);
            m.append(a.as_str());
            m.append(", exported ");
            let b = set_text_exec(&exported);
            m.append(b.as_str());
            proof {
                lemma_compare_stop(nets@, actual0, (k + 1) as nat, nets@.len());
            }
            return Err(m);
        }
        k += 1;
    }
    let ghost left = exported_views(rest@);
    assert(nodes_outcome(components@, nets@, nodes@) == match least_joined(left, left.len()) {
        Some(n) => Err("unexpected electrical connection '"@ + n.0 + "': "@ + set_text(n.1)),
        None => Ok::<(), Seq<char>>(()),
    });
    let mut best: Option<usize> = None;
    let mut t: usize = 0;
    while t < rest.len()
        invariant
            t <= rest@.len(),
            match least_joined(exported_views(rest@), t as nat) {
                Some(n) => best matches Some(b) && b < rest@.len() && exported_views(rest@)[b as int] == n,
                None => best is None,
            },
        decreases rest.len() - t,
    {
        assert(exported_views(rest@)[t as int] == (rest@[t as int].0@, views(rest@[t as int].1@)));
        if rest[t].1.len() > 1 {
            let better = match best {
                Some(b) => !crate::route_workflow::lex_le_exec(&rest[b].0, &rest[t].0),
                None => true,
            };
            if better {
                best = Some(t);
            }
        }
        t += 1;
    }
    match best {
        Some(b) => {
            let mut m = text3("unexpected electrical connection '", rest[b].0.as_str(), "': ");
            let s = set_text_exec(&rest[b].1);
            m.append(s.as_str());
            Err(m)
        },
        None => Ok(()),
    }
}

} // verus!

verus! {

proof fn lemma_least_none(nets: Seq<Exported>, k: nat)
    requires
        k <= nets.len(),
        least_joined(nets, k) is None,
    ensures
        forall|i: int| 0 <= i < k ==> #[trigger] nets[i].1.len() <= 1,
    decreases k,
{
    if k > 0 {
        lemma_least_none(nets, (k - 1) as nat);
    }
}

proof fn lemma_compare_ok(intended: Seq<NetEntry>, actual: Seq<Exported>, k: nat, big: nat)
    requires
        k <= big,
        compare_nets(intended, actual, big) is Ok,
    ensures
        compare_nets(intended, actual, k) is Ok,
{
    if compare_nets(intended, actual, k) is Err {
        lemma_compare_stop(intended, actual, k, big);
    }
}

/// When a netlist is accepted, each intended net was exported, under its name with `/`
/// written `{slash}`, with exactly its terminals (compared as sets), and every other exported
/// net holds at most one terminal.
pub proof fn law_accepted_netlist_matches_intent(intended: Seq<NetEntry>, actual: Seq<Exported>)
    requires
        after_read(intended, actual) is Ok,
    ensures
        forall|k: int|
            0 <= k < intended.len() ==> {
                let rest = (#[trigger] compare_nets(intended, actual, k as nat))->Ok_0;
                take_net(rest, replace_all(intended[k].name@, "/"@, "{slash}"@)).0.to_set() == views(
                    intended[k].endpoints@,
                ).to_set()
            },
        compare_nets(intended, actual, intended.len()) matches Ok(rest) && forall|i: int|
            0 <= i < rest.len() ==> #[trigger] rest[i].1.len() <= 1,
{
    assert forall|k: int| 0 <= k < intended.len() implies {
        let rest = (#[trigger] compare_nets(intended, actual, k as nat))->Ok_0;
        take_net(rest, replace_all(intended[k].name@, "/"@, "{slash}"@)).0.to_set() == views(intended[k].endpoints@).to_set()
    } by {
        lemma_compare_ok(intended, actual, (k + 1) as nat, intended.len());
    }
    let rest = compare_nets(intended, actual, intended.len())->Ok_0;
    lemma_least_none(rest, rest.len());
}

} // verus!

verus! {

/// The mathematical value of an S-expression.
pub enum SexpView {
    Symbol(Seq<char>),
    Quoted(Seq<char>),
    List(Seq<SexpView>),
}

/// The value a node denotes.
pub open spec fn sexp_view(n: Sexp) -> SexpView
    decreases n,
{
    match n {
        Sexp::Symbol(s) => SexpView::Symbol(s@),
        Sexp::Quoted(s) => SexpView::Quoted(s@),
        Sexp::List(items) => SexpView::List(sexp_views(items@)),
    }
}

/// The values of a list of nodes, in order.
pub open spec fn sexp_views(s: Seq<Sexp>) -> Seq<SexpView>
    decreases s,
{
    if s.len() == 0 {
        Seq::empty()
    } else {
        sexp_views(s.drop_last()).push(sexp_view(s.last()))
    }
}

pub proof fn lemma_sexp_views_push(s: Seq<Sexp>, x: Sexp)
    ensures
        sexp_views(s.push(x)) == sexp_views(s).push(sexp_view(x)),
{
    assert(s.push(x).drop_last() =~= s);
}

pub proof fn lemma_sexp_views_index(s: Seq<Sexp>, i: int)
    requires
        0 <= i < s.len(),
    ensures
        sexp_views(s).len() == s.len(),
        sexp_views(s)[i] == sexp_view(s[i]),
    decreases s.len(),
{
    lemma_sexp_views_len(s);
    if i < s.len() - 1 {
        lemma_sexp_views_index(s.drop_last(), i);
    }
}

pub proof fn lemma_sexp_views_len(s: Seq<Sexp>)
    ensures
        sexp_views(s).len() == s.len(),
    decreases s.len(),
{
    if s.len() > 0 {
        lemma_sexp_views_len(s.drop_last());
    }
}

impl Sexp {
    /// A copy of this node.
    pub fn copy(&self) -> (r: Sexp)
        ensures
            sexp_view(r) == sexp_view(*self),
        decreases self,
    {
        match self {
            Sexp::Symbol(s) => Sexp::Symbol(s.clone()),
            Sexp::Quoted(s) => Sexp::Quoted(s.clone()),
            Sexp::List(items) => {
                let mut out: Vec<Sexp> = Vec::new();
                let mut i: usize = 0;
                while i < items.len()
                    invariant
                        i <= items@.len(),
                        *self == Sexp::List(*items),
                        sexp_views(out@) == sexp_views(items@.take(i as int)),
                    decreases items.len() - i,
                {
                    proof {
                        assert(decreases_to!(*self => (*self)->List_0));
                        assert(decreases_to!(*items => items@));
                        assert(decreases_to!(items@ => items@[i as int]));
                    }
                    let x = items[i].copy();
                    proof {
                        lemma_sexp_views_push(out@, x);
                        assert(items@.take(i + 1).drop_last() =~= items@.take(i as int));
                    }
                    out.push(x);
                    i += 1;
                }
                assert(items@.take(items@.len() as int) =~= items@);
                Sexp::List(out)
            },
        }
    }
}

} // verus!

verus! {

proof fn lemma_id_of_reference(components: Seq<(String, String)>, r: Seq<char>, n: nat)
    requires
        n <= components.len(),
        id_of_reference(components, r, n) is Some,
    ensures
        exists|j: int|
            0 <= j < n && #[trigger] components[j].1@ == r && components[j].0@ == id_of_reference(components, r, n)->0 && forall|
                t: int,
            |
                j < t < n ==> (#[trigger] components[t]).1@ != r,
    decreases n,
{
    if components[n - 1].1@ == r {
        let j = n - 1;
        assert(components[j].1@ == r);
    } else {
        lemma_id_of_reference(components, r, (n - 1) as nat);
        let j = choose|j: int|
            0 <= j < n - 1 && #[trigger] components[j].1@ == r && components[j].0@ == id_of_reference(components, r, (n - 1) as nat)->0
                && forall|t: int| j < t < n - 1 ==> (#[trigger] components[t]).1@ != r;
        assert forall|t: int| j < t < n implies (#[trigger] components[t]).1@ != r by {
            if t < n - 1 {
            }
        }
    }
}

/// Whether `ep` is the terminal `pin` of the component whose printed reference is `r`: the id
/// of the last component printed as `r`, a dot and the pin.
pub open spec fn terminal_of_reference(components: Seq<(String, String)>, r: Seq<char>, pin: Seq<char>, ep: Seq<char>) -> bool {
    exists|j: int|
        0 <= j < components.len() && #[trigger] components[j].1@ == r && ep == components[j].0@ + "."@ + pin && forall|t: int|
            j < t < components.len() ==> (#[trigger] components[t]).1@ != r
}

/// Each node `(ref R) (pin P)` of an exported net is read as a terminal of the design's own
/// naming: the component id whose printed reference is `R`, a dot, and `P` — never the printed
/// reference itself where it differs from the id. Reading keeps the nodes' order, one terminal
/// per node.
pub proof fn law_exported_nodes_name_component_terminals(
    components: Seq<(String, String)>,
    nodes: Seq<Sexp>,
    seen: Seq<Seq<char>>,
    k: nat,
)
    requires
        read_nodes(components, nodes, seen, k) is Ok,
    ensures
        ({
            let eps = read_nodes(components, nodes, seen, k)->Ok_0.0;
            &&& eps.len() == k
            &&& forall|i: int|
                0 <= i < k ==> field_of(#[trigger] nodes[i], "ref"@) is Some && field_of(nodes[i], "pin"@) is Some
                    && terminal_of_reference(components, field_of(nodes[i], "ref"@)->0, field_of(nodes[i], "pin"@)->0, eps[i])
        }),
    decreases k,
{
    if k > 0 {
        law_exported_nodes_name_component_terminals(components, nodes, seen, (k - 1) as nat);
        let prev = read_nodes(components, nodes, seen, (k - 1) as nat)->Ok_0.0;
        let eps = read_nodes(components, nodes, seen, k)->Ok_0.0;
        let m = nodes[k - 1];
        let r = field_of(m, "ref"@)->0;
        let pin = field_of(m, "pin"@)->0;
        lemma_id_of_reference(components, r, components.len());
        let id = id_of_reference(components, r, components.len())->0;
        assert(eps == prev.push(id + "."@ + pin));
        assert forall|i: int|
            0 <= i < k implies field_of(#[trigger] nodes[i], "ref"@) is Some && field_of(nodes[i], "pin"@) is Some
                && terminal_of_reference(components, field_of(nodes[i], "ref"@)->0, field_of(nodes[i], "pin"@)->0, eps[i]) by {
            if i < k - 1 {
                assert(eps[i] == prev[i]);
            }
        }
    }
}

/// Whether `t` is a terminal of one of the components: a component id, a dot, and a pin.
pub open spec fn component_terminal(components: Seq<(String, String)>, t: Seq<char>) -> bool {
    exists|j: int| 0 <= j < components.len() && ((#[trigger] components[j]).0@ + "."@).is_prefix_of(t)
}

/// Every terminal of every net read from an exported netlist is a terminal of one of the
/// design's components, named by its component id (as `read_exported` returns them).
pub proof fn law_exported_terminals_are_component_terminals(components: Seq<(String, String)>, nets: Seq<Sexp>, k: nat)
    requires
        read_nets(components, nets, k) is Ok,
    ensures
        forall|i: int, t: int|
            0 <= i < read_nets(components, nets, k)->Ok_0.0.len() && 0 <= t < read_nets(components, nets, k)->Ok_0.0[i].1.len()
                ==> component_terminal(components, #[trigger] read_nets(components, nets, k)->Ok_0.0[i].1[t]),
    decreases k,
{
    if k > 0 {
        law_exported_terminals_are_component_terminals(components, nets, (k - 1) as nat);
        let (actual, seen) = read_nets(components, nets, (k - 1) as nat)->Ok_0;
        let n = nets[k - 1];
        let nodes = children_of(n, "node"@);
        law_exported_nodes_name_component_terminals(components, nodes, seen, nodes.len());
        let eps = read_nodes(components, nodes, seen, nodes.len())->Ok_0.0;
        let all = read_nets(components, nets, k)->Ok_0.0;
        assert(all == actual.push((trim_slash_chars(field_of(n, "name"@)->0), eps)));
        assert forall|i: int, t: int| 0 <= i < all.len() && 0 <= t < all[i].1.len() implies component_terminal(
            components,
            #[trigger] all[i].1[t],
        ) by {
            if i < actual.len() {
                assert(all[i] == actual[i]);
                assert(component_terminal(components, actual[i].1[t]));
            } else {
                assert(all[i].1 == eps);
                assert(field_of(nodes[t], "ref"@) is Some);
                let r = field_of(nodes[t], "ref"@)->0;
                let pin = field_of(nodes[t], "pin"@)->0;
                assert(terminal_of_reference(components, r, pin, eps[t]));
                let j = choose|j: int|
                    0 <= j < components.len() && #[trigger] components[j].1@ == r && eps[t] == components[j].0@ + "."@ + pin
                        && forall|u: int| j < u < components.len() ==> (#[trigger] components[u]).1@ != r;
                assert(eps[t] == components[j].0@ + "."@ + pin);
                assert((components[j].0@ + "."@ + pin).subrange(0, (components[j].0@ + "."@).len() as int) =~= components[j].0@ + "."@);
                assert((components[j].0@ + "."@).is_prefix_of(eps[t]));
            }
        }
    }
}

} // verus!

verus! {

proof fn lemma_read_nodes_seen(components: Seq<(String, String)>, nodes: Seq<Sexp>, seen: Seq<Seq<char>>, k: nat)
    requires
        read_nodes(components, nodes, seen, k) is Ok,
    ensures
        read_nodes(components, nodes, seen, k)->Ok_0.1 == seen + read_nodes(components, nodes, seen, k)->Ok_0.0,
    decreases k,
{
    if k > 0 {
        lemma_read_nodes_seen(components, nodes, seen, (k - 1) as nat);
        let prev = read_nodes(components, nodes, seen, (k - 1) as nat)->Ok_0;
        let cur = read_nodes(components, nodes, seen, k)->Ok_0;
        assert(cur.1 =~= seen + cur.0);
    }
}

/// Whether `t` holds no `.`.
pub open spec fn dot_free(t: Seq<char>) -> bool {
    forall|i: int| 0 <= i < t.len() ==> #[trigger] t[i] != '.'
}

proof fn lemma_terminal_split(a: Seq<char>, p: Seq<char>, b: Seq<char>, q: Seq<char>)
    requires
        a + "."@ + p == b + "."@ + q,
        dot_free(p),
        dot_free(q),
    ensures
        a == b,
        p == q,
{
    reveal_strlit(".");
    let t = a + "."@ + p;
    let u = b + "."@ + q;
    assert(t.len() == a.len() + 1 + p.len());
    assert(u.len() == b.len() + 1 + q.len());
    if p.len() < q.len() {
        let x = t.len() - p.len() - 1;
        assert(t[x] == '.');
        assert(u[x] == q[x - b.len() - 1]);
        assert(false);
    } else if q.len() < p.len() {
        let x = u.len() - q.len() - 1;
        assert(u[x] == '.');
        assert(t[x] == p[x - a.len() - 1]);
        assert(false);
    } else {
        assert forall|i: int| 0 <= i < p.len() implies p[i] == q[i] by {
            assert(t[a.len() + 1 + i] == p[i]);
            assert(u[b.len() + 1 + i] == q[i]);
        }
        assert(p =~= q);
        assert forall|i: int| 0 <= i < a.len() implies a[i] == b[i] by {
            assert(t[i] == a[i]);
            assert(u[i] == b[i]);
        }
        assert(a =~= b);
    }
}

/// An exported net is read whenever each of its nodes names a component by its printed
/// reference and a pin (without a dot), no two nodes name the same component and pin, and
/// the component ids are distinct: nothing else makes reading it fail.
pub proof fn law_nodes_of_known_components_are_read(components: Seq<(String, String)>, nodes: Seq<Sexp>, k: nat)
    requires
        k <= nodes.len(),
        forall|a: int, b: int| 0 <= a < b < components.len() ==> (#[trigger] components[a]).0@ != (#[trigger] components[b]).0@,
        forall|i: int|
            0 <= i < k ==> field_of(#[trigger] nodes[i], "ref"@) is Some && field_of(nodes[i], "pin"@) is Some && dot_free(
                field_of(nodes[i], "pin"@)->0,
            ) && exists|j: int| 0 <= j < components.len() && components[j].1@ == field_of(nodes[i], "ref"@)->0,
        forall|i: int, h: int|
            0 <= i < h < k ==> field_of(#[trigger] nodes[i], "ref"@) != field_of(#[trigger] nodes[h], "ref"@) || field_of(
                nodes[i],
                "pin"@,
            ) != field_of(nodes[h], "pin"@),
    ensures
        read_nodes(components, nodes, Seq::empty(), k) is Ok,
    decreases k,
{
    if k > 0 {
        law_nodes_of_known_components_are_read(components, nodes, (k - 1) as nat);
        let prev = read_nodes(components, nodes, Seq::empty(), (k - 1) as nat)->Ok_0;
        lemma_read_nodes_seen(components, nodes, Seq::empty(), (k - 1) as nat);
        law_exported_nodes_name_component_terminals(components, nodes, Seq::empty(), (k - 1) as nat);
        let m = nodes[k - 1];
        let r = field_of(m, "ref"@)->0;
        let pin = field_of(m, "pin"@)->0;
        let jw = choose|j: int| 0 <= j < components.len() && components[j].1@ == r;
        if id_of_reference(components, r, components.len()) is None {
            lemma_no_reference(components, r, components.len(), jw);
        }
        lemma_id_of_reference(components, r, components.len());
        let id = id_of_reference(components, r, components.len())->0;
        let j = choose|j: int|
            0 <= j < components.len() && #[trigger] components[j].1@ == r && components[j].0@ == id && forall|t: int|
                j < t < components.len() ==> (#[trigger] components[t]).1@ != r;
        let ep = id + "."@ + pin;
        assert(prev.1 =~= prev.0);
        if prev.1.contains(ep) {
            let i = choose|i: int| 0 <= i < prev.1.len() && prev.1[i] == ep;
            let ri = field_of(nodes[i], "ref"@)->0;
            let pi = field_of(nodes[i], "pin"@)->0;
            assert(terminal_of_reference(components, ri, pi, prev.0[i]));
            let ji = choose|ji: int|
                0 <= ji < components.len() && #[trigger] components[ji].1@ == ri && prev.0[i] == components[ji].0@ + "."@ + pi
                    && forall|t: int| ji < t < components.len() ==> (#[trigger] components[t]).1@ != ri;
            lemma_terminal_split(components[ji].0@, pi, id, pin);
            assert(ji == j) by {
                if ji != j {
                    if ji < j {
                        assert(components[ji].0@ != components[j].0@);
                    } else {
                        assert(components[j].0@ != components[ji].0@);
                    }
                }
            }
            assert(field_of(nodes[i], "ref"@) == field_of(nodes[k - 1], "ref"@));
            assert(field_of(nodes[i], "pin"@) == field_of(nodes[k - 1], "pin"@));
            assert(false);
        }
    }
}

proof fn lemma_no_reference(components: Seq<(String, String)>, r: Seq<char>, n: nat, j: int)
    requires
        n <= components.len(),
        0 <= j < n,
        components[j].1@ == r,
    ensures
        id_of_reference(components, r, n) is Some,
    decreases n,
{
    if components[n - 1].1@ != r {
        lemma_no_reference(components, r, (n - 1) as nat, j);
    }
}

} // verus!
