//! Compressed-graph toolkit: a bit-level BVGraph decoder and the layered
//! label propagation reordering algorithm, with machine-checked contracts.

use vstd::prelude::*;

pub mod bit_stream;
pub mod codes;
pub mod codes_reader;
pub mod encode;
pub mod gap_cost;
pub mod graphs;
pub mod label_store;
pub mod llp;
pub mod perm;
pub mod reader_degrees;
pub mod reader_random;
pub mod reader_sequential;
pub mod sorting;
pub mod word_stream;

verus! {

/// The ways a decode or driver call can fail.
#[derive(Debug, Clone, Copy, PartialEq, Eq, Structural)]
pub enum Error {
    /// A fixed-width read ran past the end of the bit stream.
    ShortRead,
    /// A unary code ran past the end of the bit stream.
    UnaryOverflow,
    /// A code value was too large for the decoder (more than 63 payload bits).
    CodeTooLarge,
    /// A record referenced a node outside the back-reference window.
    BadReference,
    /// A block boundary ran outside the referenced successor list.
    BadBlock,
    /// More values were copied or decoded than the outdegree allows.
    DegreeUnderflow,
    /// An interval or residual start would be negative.
    NegativeStart,
    /// An argument did not satisfy a documented invariant.
    BadInvariant,
}

/// Maps a natural number back to an integer: even values are non-negative,
/// odd values are negative (the inverse of `int2nat`).
pub open spec fn spec_nat2int(n: u64) -> int {
    if n % 2 == 0 {
        (n / 2) as int
    } else {
        -(((n / 2) + 1) as int)
    }
}

/// Maps an integer to a natural number, non-negatives to evens and
/// negatives to odds.
pub open spec fn spec_int2nat(i: int) -> int {
    if i >= 0 {
        2 * i
    } else {
        -(2 * i) - 1
    }
}

/// The two mappings between naturals and integers invert each other.
pub proof fn lemma_nat2int_int2nat(i: int)
    requires
        -0x7fff_ffff_ffff_ffff <= i <= 0x7fff_ffff_ffff_ffff,
    ensures
        spec_int2nat(i) <= u64::MAX,
        spec_nat2int(spec_int2nat(i) as u64) == i,
{
}

/// Decodes the natural-to-integer zigzag mapping used for signed offsets.
pub fn nat2int(n: u64) -> (r: i64)
    requires
        n <= u64::MAX - 1,
    ensures
        r == spec_nat2int(n),
{
    if n % 2 == 0 {
        (n / 2) as i64
    } else {
        -((n / 2) as i64) - 1
    }
}

/// Encodes an integer as a natural with the zigzag mapping.
pub fn int2nat(i: i64) -> (r: u64)
    ensures
        r == spec_int2nat(i as int),
{
    if i >= 0 {
        2 * (i as u64)
    } else {
        ((-(i as i128)) * 2 - 1) as u64
    }
}

} // verus!
