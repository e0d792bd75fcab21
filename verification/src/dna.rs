//! Genomes and the bitwise trait-mixing law used for breeding.

use vstd::prelude::*;

verus! {

/// Number of bytes in a genome.
pub const DNA_LEN: usize = 16;

/// An entity's payload: a fixed 16-byte genome.
#[derive(Clone, Copy, Debug)]
pub struct Kitty(pub [u8; 16]);

impl View for Kitty {
    type V = Seq<u8>;

    open spec fn view(&self) -> Seq<u8> {
        self.0@
    }
}

/// Per-bit select on one byte: where `selector` has a 1 the result takes the
/// bit of `dna1`, where it has a 0 the bit of `dna2`.
pub open spec fn combine_dna_spec(dna1: u8, dna2: u8, selector: u8) -> u8 {
    (selector & dna1) | (!selector & dna2)
}

/// Mixes one byte of two genomes under a selector byte.
#[verifier::when_used_as_spec(combine_dna_spec)]
pub fn combine_dna(dna1: u8, dna2: u8, selector: u8) -> (child: u8)
    ensures
        child == combine_dna_spec(dna1, dna2, selector),
{
    (selector & dna1) | (!selector & dna2)
}

/// The genome that mixing makes of two parents' genomes: byte by byte the
/// select of `combine_dna_spec`, with the seed's byte as the selector.
pub open spec fn combine_spec(seed: Seq<u8>, parent_a: Seq<u8>, parent_b: Seq<u8>) -> Seq<u8> {
    Seq::new(DNA_LEN as nat, |i: int| combine_dna_spec(parent_a[i], parent_b[i], seed[i]))
}

/// Derives a child's genome from its parents' genomes and a 16-byte seed.
pub fn combine(seed: &[u8; 16], parent_a: &Kitty, parent_b: &Kitty) -> (child: Kitty)
    ensures
        child@ == combine_spec(seed@, parent_a@, parent_b@),
{
    let mut new_dna = [0u8; 16];
    for i in 0..DNA_LEN
        invariant
            forall|j: int| 0 <= j < i ==> new_dna@[j] == combine_dna_spec(parent_a@[j], parent_b@[j], seed@[j]),
    {
        new_dna[i] = combine_dna(parent_a.0[i], parent_b.0[i], seed[i]);
    }
    assert(new_dna@ =~= combine_spec(seed@, parent_a@, parent_b@));
    Kitty(new_dna)
}

/// Every bit of the mixed byte is the bit of `dna1` where the selector's bit
/// is set, and the bit of `dna2` where it is clear.
pub proof fn lemma_combine_dna_selects_bits(dna1: u8, dna2: u8, selector: u8, bit: u8)
    requires
        bit < 8,
    ensures
        (combine_dna_spec(dna1, dna2, selector) >> bit) & 1 == (if (selector >> bit) & 1 == 1 {
            (dna1 >> bit) & 1
        } else {
            (dna2 >> bit) & 1
        }),
{
    assert((((selector & dna1) | (!selector & dna2)) >> bit) & 1 == (if (selector >> bit) & 1 == 1 {
        (dna1 >> bit) & 1
    } else {
        (dna2 >> bit) & 1
    })) by (bit_vector)
        requires
            bit < 8,
    ;
}

/// A seed with all bits set hands the first parent's genome down unchanged.
pub proof fn lemma_all_ones_takes_first(seed: Seq<u8>, parent_a: Seq<u8>, parent_b: Seq<u8>)
    requires
        parent_a.len() == DNA_LEN,
        forall|i: int| 0 <= i < DNA_LEN ==> seed[i] == 0xff,
    ensures
        combine_spec(seed, parent_a, parent_b) == parent_a,
{
    assert forall|i: int| 0 <= i < DNA_LEN implies combine_spec(seed, parent_a, parent_b)[i] == parent_a[i] by {
        let a = parent_a[i];
        let b = parent_b[i];
        assert((0xffu8 & a) | (!0xffu8 & b) == a) by (bit_vector);
    }
    assert(combine_spec(seed, parent_a, parent_b) =~= parent_a);
}

/// A seed with no bit set hands the second parent's genome down unchanged.
pub proof fn lemma_all_zeros_takes_second(seed: Seq<u8>, parent_a: Seq<u8>, parent_b: Seq<u8>)
    requires
        parent_b.len() == DNA_LEN,
        forall|i: int| 0 <= i < DNA_LEN ==> seed[i] == 0,
    ensures
        combine_spec(seed, parent_a, parent_b) == parent_b,
{
    assert forall|i: int| 0 <= i < DNA_LEN implies combine_spec(seed, parent_a, parent_b)[i] == parent_b[i] by {
        let a = parent_a[i];
        let b = parent_b[i];
        assert((0u8 & a) | (!0u8 & b) == b) by (bit_vector);
    }
    assert(combine_spec(seed, parent_a, parent_b) =~= parent_b);
}

} // verus!
