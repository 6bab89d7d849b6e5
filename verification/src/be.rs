//! Big-endian encoding of 32-bit sizes, as the wire format stores them.

use vstd::prelude::*;

verus! {

/// The four bytes of `v`, most significant first.
pub open spec fn spec_u32_to_be_bytes(v: u32) -> Seq<u8> {
    seq![(v >> 24) as u8, (v >> 16) as u8, (v >> 8) as u8, v as u8]
}

/// The value read from four bytes, most significant first.
pub open spec fn spec_u32_from_be_bytes(b: Seq<u8>) -> u32
    recommends
        b.len() == 4,
{
    ((b[0] as u32) << 24) | ((b[1] as u32) << 16) | ((b[2] as u32) << 8) | (b[3] as u32)
}

/// Reading back the four bytes of a value yields the value.
pub proof fn lemma_u32_be_bytes_roundtrip(v: u32)
    ensures
        spec_u32_from_be_bytes(spec_u32_to_be_bytes(v)) == v,
{
    assert((((((v >> 24) as u8) as u32) << 24) | ((((v >> 16) as u8) as u32) << 16) | ((((v >> 8)
        as u8) as u32) << 8) | ((v as u8) as u32)) == v) by (bit_vector);
}

/// Assembles a value from four bytes, most significant first.
pub fn u32_from_be_bytes(b0: u8, b1: u8, b2: u8, b3: u8) -> (v: u32)
    ensures
        v == spec_u32_from_be_bytes(seq![b0, b1, b2, b3]),
{
    ((b0 as u32) << 24) | ((b1 as u32) << 16) | ((b2 as u32) << 8) | (b3 as u32)
}

/// Appends the four bytes of `v`, most significant first.
pub fn push_u32_be_bytes(out: &mut Vec<u8>, v: u32)
    ensures
        final(out)@ == old(out)@ + spec_u32_to_be_bytes(v),
{
    out.push((v >> 24) as u8);
    out.push(#[verifier::truncate] ((v >> 16) as u8));
    out.push(#[verifier::truncate] ((v >> 8) as u8));
    out.push(#[verifier::truncate] (v as u8));
    assert(out@ =~= old(out)@ + spec_u32_to_be_bytes(v));
}

} // verus!
