//! Copper layer naming and the layer-count rule of the board stackup.
use crate::text::{decimal, lemma_views_push, views};
use vstd::prelude::*;

verus! {

/// The name of inner copper layer `i` (one-based): `In{i}.Cu`.
pub open spec fn inner_layer_name(i: nat) -> Seq<char> {
    "In"@ + decimal(i) + ".Cu"@
}

/// The copper layer names of a board with `layers` copper layers, front to back:
/// `F.Cu`, the inner layers `In1.Cu` .. `In{layers-2}.Cu`, then `B.Cu`.
pub open spec fn copper_layer_names(layers: nat) -> Seq<Seq<char>> {
    let inner: nat = if layers >= 2 {
        (layers - 2) as nat
    } else {
        0
    };
    seq!["F.Cu"@] + Seq::new(inner, |i: int| inner_layer_name((i + 1) as nat)) + seq!["B.Cu"@]
}

/// The copper layer names for a layer count, front to back.
pub fn copper_layers(layers: u8) -> (r: Vec<String>)
    ensures
        views(r@) == copper_layer_names(layers as nat),
{
    let mut r: Vec<String> = Vec::new();
    r.push("F.Cu".to_owned());
    assert(views(r@) =~= seq!["F.Cu"@]);
    let inner: u8 = if layers >= 2 { layers - 2 } else { 0 };
    let mut i: u8 = 0;
    while i < inner
        invariant
            i <= inner,
            inner as nat == (if layers >= 2 { (layers - 2) as nat } else { 0nat }),
            views(r@) == seq!["F.Cu"@] + Seq::new(i as nat, |k: int| inner_layer_name((k + 1) as nat)),
        decreases inner - i,
    {
        let mut name = String::new();
        name.append("In");
        crate::text::push_decimal(&mut name, (i + 1) as usize);
        name.append(".Cu");
        assert(name@ =~= inner_layer_name((i + 1) as nat));
        let ghost before = r@;
        let ghost nv = name@;
        r.push(name);
        proof {
            lemma_views_push(before, r@.last());
        }
        assert(views(r@) =~= seq!["F.Cu"@] + Seq::new((i + 1) as nat, |k: int| inner_layer_name((k + 1) as nat)));
        i += 1;
    }
    let ghost before = r@;
    r.push("B.Cu".to_owned());
    proof {
        lemma_views_push(before, r@.last());
    }
    assert(views(r@) =~= copper_layer_names(layers as nat));
    r
}

/// Whether a copper layer count is supported: even, from 2 to 32.
pub open spec fn valid_layer_count(layers: nat) -> bool {
    2 <= layers <= 32 && layers % 2 == 0
}

/// Rejects an unsupported copper layer count with the message the compiler reports.
pub fn validate_layer_count(layers: u8) -> (r: Result<(), String>)
    ensures
        r is Ok <==> valid_layer_count(layers as nat),
        r matches Err(m) ==> m@ == "copper layer count must be even, between 2 and 32"@,
{
    if !(2 <= layers && layers <= 32) || layers % 2 != 0 {
        return Err("copper layer count must be even, between 2 and 32".to_owned());
    }
    Ok(())
}


/// The dielectric material assumed when a stackup names none.
pub fn material() -> (s: String)
    ensures
        s@ == "FR4"@,
{
    "FR4".to_owned()
}

} // verus!
