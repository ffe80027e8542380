//! Dynamic equality for a trait: what is added to the trait's definition so
//! that boxed values of it can be compared.

use vstd::prelude::*;
use crate::component::names_view;
use crate::text::copy_bytes;

verus! {

/// A trait definition: its name and the names of its supertraits, in the
/// order written.
#[derive(Clone, Debug, PartialEq, Eq)]
pub struct TraitDefinition {
    pub name: Vec<u8>,
    pub supertraits: Vec<Vec<u8>>,
}

/// The trait with dynamic equality added: its supertraits, and the trait
/// whose boxed values get an equality that compares through it.
#[derive(Clone, Debug, PartialEq, Eq)]
pub struct DynamicEquality {
    pub supertraits: Vec<Vec<u8>>,
    pub boxed: Vec<u8>,
}

/// The text `DynPartialEq`.
pub open spec fn equality_bound() -> Seq<u8> {
    seq![
        0x44u8,
        0x79u8,
        0x6eu8,
        0x50u8,
        0x61u8,
        0x72u8,
        0x74u8,
        0x69u8,
        0x61u8,
        0x6cu8,
        0x45u8,
        0x71u8,
    ]
}

/// Adds dynamic equality to a trait: the bound `DynPartialEq` goes after the
/// supertraits that the trait has, and boxed values of the trait get an
/// equality.
pub fn dyn_partial_eq(item: &TraitDefinition) -> (out: DynamicEquality)
    ensures
        names_view(out.supertraits@) == names_view(item.supertraits@).push(equality_bound()),
        out.boxed@ == item.name@,
{
    let mut supertraits: Vec<Vec<u8>> = Vec::new();
    let mut i: usize = 0;
    while i < item.supertraits.len()
        invariant
            i <= item.supertraits.len(),
            names_view(supertraits@) == names_view(item.supertraits@).subrange(0, i as int),
        decreases item.supertraits.len() - i,
    {
        let ghost before = names_view(supertraits@);
        let name = copy_bytes(item.supertraits[i].as_slice());
        supertraits.push(name);
        assert(names_view(supertraits@) == before.push(item.supertraits@[i as int]@));
        assert(names_view(item.supertraits@).subrange(0, i + 1) == names_view(
            item.supertraits@,
        ).subrange(0, i as int).push(item.supertraits@[i as int]@));
        i += 1;
    }
    assert(names_view(item.supertraits@).subrange(0, item.supertraits.len() as int) == names_view(
        item.supertraits@,
    ));
    let ghost all = names_view(supertraits@);
    let bound: Vec<u8> = vec![
        0x44,
        0x79,
        0x6e,
        0x50,
        0x61,
        0x72,
        0x74,
        0x69,
        0x61,
        0x6c,
        0x45,
        0x71,
    ];
    assert(bound@ =~= equality_bound());
    supertraits.push(bound);
    assert(names_view(supertraits@) == all.push(equality_bound()));
    DynamicEquality { supertraits, boxed: copy_bytes(item.name.as_slice()) }
}

} // verus!
