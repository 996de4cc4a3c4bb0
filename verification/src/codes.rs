//! Variable-length instantaneous codes over the bit stream: γ, δ,
//! minimal-binary and ζ.
//!
//! Each decoder's contract names the exact value and end position that the
//! code denotes at the cursor (`spec_gamma` and friends), and each encoder's
//! contract says that the bits it appends decode back to the value written.

use vstd::arithmetic::div_mod::lemma_fundamental_div_mod;
use vstd::arithmetic::power2::{
    lemma2_to64, lemma2_to64_rest, lemma_pow2_adds, lemma_pow2_pos, lemma_pow2_strictly_increases,
    pow2,
};
use vstd::bits::{lemma_u64_shl_is_mul, lemma_u64_shr_is_div};
use vstd::prelude::*;
use crate::bit_stream::{
    lemma_bits_val_bound, lemma_bits_val_congruent, spec_bits, spec_first_one, spec_unary,
    stream_bit, BitStreamRead, BitStreamWrite,
};
use crate::Error;

verus! {

/// The floor of the base-two logarithm.
pub open spec fn spec_floor_log2(x: nat) -> nat
    decreases x,
{
    if x < 2 {
        0
    } else {
        1 + spec_floor_log2(x / 2)
    }
}

/// `spec_floor_log2` brackets its argument between two powers of two.
pub proof fn lemma_floor_log2(x: nat)
    requires
        x >= 1,
    ensures
        pow2(spec_floor_log2(x)) <= x < pow2(spec_floor_log2(x) + 1),
    decreases x,
{
    if x < 2 {
        lemma2_to64();
    } else {
        lemma_floor_log2(x / 2);
        let l = spec_floor_log2(x / 2);
        assert(pow2(l + 1) == 2 * pow2(l) && pow2(l + 2) == 2 * pow2(l + 1)) by {
            lemma_pow2_adds(l, 1);
            lemma_pow2_adds(l + 1, 1);
            lemma2_to64();
        }
    }
}

/// A logarithm of a value below `2^64` is at most 63.
pub proof fn lemma_floor_log2_small(x: nat)
    requires
        1 <= x < pow2(64),
    ensures
        spec_floor_log2(x) <= 63,
{
    lemma_floor_log2(x);
    if spec_floor_log2(x) > 63 {
        if spec_floor_log2(x) > 64 {
            lemma_pow2_strictly_increases(64, spec_floor_log2(x));
        }
        assert(pow2(64) <= pow2(spec_floor_log2(x)));
        assert(false);
    }
}

/// A γ code at `pos`: a unary length and that many payload bits.
pub open spec fn spec_gamma(words: Seq<u32>, pos: int) -> Option<(nat, int)> {
    match spec_unary(words, pos) {
        None => None,
        Some((l, p1)) => if l > 63 {
            None
        } else {
            match spec_bits(words, p1, l) {
                None => None,
                Some((b, p2)) => Some((((pow2(l) - 1 + b)) as nat, p2)),
            }
        },
    }
}

/// A δ code at `pos`: a γ-coded length and that many payload bits.
pub open spec fn spec_delta(words: Seq<u32>, pos: int) -> Option<(nat, int)> {
    match spec_gamma(words, pos) {
        None => None,
        Some((l, p1)) => if l > 63 {
            None
        } else {
            match spec_bits(words, p1, l) {
                None => None,
                Some((b, p2)) => Some((((pow2(l) - 1 + b)) as nat, p2)),
            }
        },
    }
}

/// A minimal binary code with range `max` at `pos`.
pub open spec fn spec_min_binary(words: Seq<u32>, pos: int, max: nat) -> Option<(nat, int)> {
    let l = spec_floor_log2(max);
    match spec_bits(words, pos, l) {
        None => None,
        Some((prefix, p1)) => {
            let limit = 2 * pow2(l) - max;
            if prefix < limit {
                Some((prefix, p1))
            } else {
                match spec_bits(words, p1, 1) {
                    None => None,
                    Some((b, p2)) => Some((((2 * prefix + b - limit)) as nat, p2)),
                }
            }
        },
    }
}

/// A minimal binary code denotes a value below its range.
pub proof fn lemma_min_binary_bound(words: Seq<u32>, pos: int, max: nat)
    requires
        max >= 1,
        spec_min_binary(words, pos, max) is Some,
    ensures
        spec_min_binary(words, pos, max).unwrap().0 < max,
{
    let l = spec_floor_log2(max);
    lemma_floor_log2(max);
    lemma_pow2_adds(l, 1);
    lemma2_to64();
    match spec_bits(words, pos, l) {
        None => {},
        Some((prefix, p1)) => {
            lemma_bits_val_bound(words, pos, l);
            lemma_bits_val_bound(words, p1, 1);
        },
    }
}

/// A ζ code with parameter `k` at `pos`: a unary bucket and a minimal
/// binary refinement inside it.
pub open spec fn spec_zeta(words: Seq<u32>, pos: int, k: nat) -> Option<(nat, int)> {
    match spec_unary(words, pos) {
        None => None,
        Some((h, p1)) => if (h + 1) * k > 63 {
            None
        } else {
            match spec_min_binary(words, p1, (pow2((h + 1) * k) - pow2(h * k)) as nat) {
                None => None,
                Some((res, p2)) => Some((((pow2(h * k) + res - 1)) as nat, p2)),
            }
        },
    }
}

/// A unary code's value and end position stay inside the stream.
pub proof fn lemma_unary_bounds(words: Seq<u32>, pos: int)
    requires
        spec_unary(words, pos) is Some,
    ensures
        ({
            let (v, p) = spec_unary(words, pos).unwrap();
            pos + v < words.len() * 32 && p == pos + v + 1 && pos <= pos + v
        }),
{
    crate::bit_stream::lemma_first_one(words, pos);
}

/// A γ code's value fits in a 64-bit word.
pub proof fn lemma_gamma_bounds(words: Seq<u32>, pos: int)
    requires
        spec_gamma(words, pos) is Some,
    ensures
        spec_gamma(words, pos).unwrap().0 < pow2(64) - 1,
        pos < spec_gamma(words, pos).unwrap().1 <= words.len() * 32,
{
    lemma_unary_bounds(words, pos);
    let (l, p1) = spec_unary(words, pos).unwrap();
    lemma_bits_val_bound(words, p1, l);
    lemma_u64_pow2_le_max(l);
    lemma2_to64();
    lemma2_to64_rest();
}

/// A γ code that ends below the agreed bound reads the same from the
/// extended store.
pub proof fn lemma_gamma_stable(w1: Seq<u32>, w2: Seq<u32>, pos: int, bound: int)
    requires
        crate::bit_stream::bits_agree_to(w1, w2, bound),
        0 <= pos,
        spec_gamma(w1, pos) is Some,
        spec_gamma(w1, pos).unwrap().1 <= bound,
    ensures
        spec_gamma(w2, pos) == spec_gamma(w1, pos),
        pos < spec_gamma(w1, pos).unwrap().1,
{
    let (l, p1) = spec_unary(w1, pos).unwrap();
    crate::bit_stream::lemma_unary_stable(w1, w2, pos, bound);
    crate::bit_stream::lemma_bits_stable(w1, w2, p1, l, bound);
}

/// A minimal binary code that ends below the agreed bound reads the same
/// from the extended store.
pub proof fn lemma_min_binary_stable(w1: Seq<u32>, w2: Seq<u32>, pos: int, max: nat, bound: int)
    requires
        crate::bit_stream::bits_agree_to(w1, w2, bound),
        0 <= pos,
        spec_min_binary(w1, pos, max) is Some,
        spec_min_binary(w1, pos, max).unwrap().1 <= bound,
    ensures
        spec_min_binary(w2, pos, max) == spec_min_binary(w1, pos, max),
        pos <= spec_min_binary(w1, pos, max).unwrap().1,
{
    let l = spec_floor_log2(max);
    let (prefix, p1) = spec_bits(w1, pos, l).unwrap();
    crate::bit_stream::lemma_bits_stable(w1, w2, pos, l, bound);
    let limit = 2 * pow2(l) - max;
    if !(prefix < limit) {
        crate::bit_stream::lemma_bits_stable(w1, w2, p1, 1, bound);
    }
}

/// A ζ code that ends below the agreed bound reads the same from the
/// extended store.
pub proof fn lemma_zeta_stable(w1: Seq<u32>, w2: Seq<u32>, pos: int, k: nat, bound: int)
    requires
        crate::bit_stream::bits_agree_to(w1, w2, bound),
        0 <= pos,
        spec_zeta(w1, pos, k) is Some,
        spec_zeta(w1, pos, k).unwrap().1 <= bound,
    ensures
        spec_zeta(w2, pos, k) == spec_zeta(w1, pos, k),
        pos < spec_zeta(w1, pos, k).unwrap().1,
{
    let (h, p1) = spec_unary(w1, pos).unwrap();
    let max = (pow2((h + 1) * k) - pow2(h * k)) as nat;
    lemma_min_binary_stable(w1, w2, p1, max, bound);
    crate::bit_stream::lemma_unary_stable(w1, w2, pos, bound);
}

/// The floor of the base-two logarithm, for a positive argument.
pub fn floor_log2(x: u64) -> (r: u64)
    requires
        x >= 1,
    ensures
        r == spec_floor_log2(x as nat),
        r <= 63,
{
    let mut v: u64 = x;
    let mut l: u64 = 0;
    proof {
        lemma2_to64();
    }
    while v >= 2
        invariant
            1 <= v <= x,
            spec_floor_log2(x as nat) == l + spec_floor_log2(v as nat),
            pow2(l as nat) * (v as nat) <= x as nat,
            l <= 63,
        decreases v,
    {
        proof {
            let ln = l as nat;
            let vn = v as nat;
            assert(pow2(ln + 1) == 2 * pow2(ln)) by {
                lemma_pow2_adds(ln, 1);
                lemma2_to64();
            }
            assert(pow2(ln + 1) * (vn / 2) <= pow2(ln) * vn) by (nonlinear_arith)
                requires
                    pow2(ln + 1) == 2 * pow2(ln),
                    vn >= 2,
                    pow2(ln) >= 0,
            ;
            lemma_pow2_pos(ln + 1);
            assert(pow2(ln + 1) * 1 <= pow2(ln + 1) * (vn / 2)) by (nonlinear_arith)
                requires
                    vn >= 2,
                    pow2(ln + 1) >= 0,
            ;
            assert((x as nat) < pow2(64)) by {
                lemma2_to64();
            }
            if ln + 1 > 63 {
                if ln + 1 != 64 {
                    lemma_pow2_strictly_increases(64, ln + 1);
                }
                assert(false);
            }
            assert(spec_floor_log2(vn) == 1 + spec_floor_log2(vn / 2));
        }
        v = v / 2;
        l = l + 1;
    }
    l
}

impl BitStreamRead {
    /// Reads a γ code.
    pub fn read_gamma(&mut self) -> (r: Result<u64, Error>)
        requires
            old(self).wf(),
        ensures
            final(self).wf(),
            final(self).words() == old(self).words(),
            match spec_gamma(old(self).words(), old(self).pos()) {
                Some((v, p)) => r == Ok::<u64, Error>(v as u64) && v <= u64::MAX && final(self).pos() == p,
                None => r is Err,
            },
    {
        let ghost words = self.words();
        let ghost pos0 = self.pos();
        let l = match self.read_unary() {
            Ok(l) => l,
            Err(e) => {
                return Err(e);
            },
        };
        proof {
            lemma_unary_bounds(words, pos0);
        }
        if l > 63 {
            return Err(Error::CodeTooLarge);
        }
        let b = match self.read_bits(l as usize) {
            Ok(b) => b,
            Err(e) => {
                return Err(e);
            },
        };
        proof {
            lemma_bits_val_bound(words, pos0 + l + 1, l as nat);
            lemma_u64_pow2_le_max(l as nat);
            lemma_u64_shl_is_mul(1u64, l);
        }
        Ok(((1u64 << l) - 1) + b)
    }

    /// Reads a δ code.
    pub fn read_delta(&mut self) -> (r: Result<u64, Error>)
        requires
            old(self).wf(),
        ensures
            final(self).wf(),
            final(self).words() == old(self).words(),
            match spec_delta(old(self).words(), old(self).pos()) {
                Some((v, p)) => r == Ok::<u64, Error>(v as u64) && v <= u64::MAX && final(self).pos() == p,
                None => r is Err,
            },
    {
        let ghost words = self.words();
        let ghost pos0 = self.pos();
        let l = match self.read_gamma() {
            Ok(l) => l,
            Err(e) => {
                return Err(e);
            },
        };
        proof {
            lemma_gamma_bounds(words, pos0);
            lemma2_to64();
            lemma2_to64_rest();
        }
        if l > 63 {
            return Err(Error::CodeTooLarge);
        }
        let ghost p1 = self.pos();
        let b = match self.read_bits(l as usize) {
            Ok(b) => b,
            Err(e) => {
                return Err(e);
            },
        };
        proof {
            lemma_bits_val_bound(words, p1, l as nat);
            lemma_u64_pow2_le_max(l as nat);
            lemma_u64_shl_is_mul(1u64, l);
        }
        Ok(((1u64 << l) - 1) + b)
    }

    /// Reads a minimal binary code with range `max`.
    pub fn read_minimal_binary(&mut self, max: u64) -> (r: Result<u64, Error>)
        requires
            old(self).wf(),
            1 <= max,
            (max as nat) < pow2(63),
        ensures
            final(self).wf(),
            final(self).words() == old(self).words(),
            match spec_min_binary(old(self).words(), old(self).pos(), max as nat) {
                Some((v, p)) => r == Ok::<u64, Error>(v as u64) && v <= u64::MAX && final(self).pos() == p,
                None => r is Err,
            },
    {
        let l = floor_log2(max);
        proof {
            lemma_floor_log2(max as nat);
            if l >= 63 {
                lemma_pow2_strictly_increases(63, (l + 1) as nat);
                assert(false);
            }
            lemma_pow2_adds(l as nat, 1);
            lemma2_to64();
            lemma_u64_pow2_le_max((l + 1) as nat);
            lemma_u64_shl_is_mul(1u64, (l + 1) as u64);
        }
        let prefix = match self.read_bits(l as usize) {
            Ok(p) => p,
            Err(e) => {
                return Err(e);
            },
        };
        proof {
            lemma_bits_val_bound(self.words(), self.pos() - l, l as nat);
        }
        let limit = (1u64 << (l + 1)) - max;
        if prefix < limit {
            Ok(prefix)
        } else {
            let b = match self.read_bits(1) {
                Ok(b) => b,
                Err(e) => {
                    return Err(e);
                },
            };
            proof {
                lemma_bits_val_bound(self.words(), self.pos() - 1, 1);
            }
            Ok(2 * prefix + b - limit)
        }
    }

    /// Reads a ζ code with parameter `k`.
    pub fn read_zeta(&mut self, k: u64) -> (r: Result<u64, Error>)
        requires
            old(self).wf(),
            1 <= k <= 63,
        ensures
            final(self).wf(),
            final(self).words() == old(self).words(),
            match spec_zeta(old(self).words(), old(self).pos(), k as nat) {
                Some((v, p)) => r == Ok::<u64, Error>(v as u64) && v <= u64::MAX && final(self).pos() == p,
                None => r is Err,
            },
    {
        let ghost words = self.words();
        let ghost pos0 = self.pos();
        let h = match self.read_unary() {
            Ok(h) => h,
            Err(e) => {
                return Err(e);
            },
        };
        proof {
            lemma_unary_bounds(words, pos0);
        }
        if h > 63 {
            proof {
                assert((h + 1) * (k as nat) > 63) by (nonlinear_arith)
                    requires
                        h > 63,
                        k >= 1,
                ;
            }
            return Err(Error::CodeTooLarge);
        }
        proof {
            assert((h + 1) * k <= 4096) by (nonlinear_arith)
                requires
                    0 <= h <= 63,
                    0 <= k <= 63,
            ;
        }
        if (h + 1) * k > 63 {
            return Err(Error::CodeTooLarge);
        }
        proof {
            assert((h * k) < (h + 1) * k) by (nonlinear_arith)
                requires
                    k >= 1,
                    h >= 0,
            ;
            lemma_pow2_strictly_increases((h * k) as nat, ((h + 1) * k) as nat);
            lemma_u64_pow2_le_max(((h + 1) * k) as nat);
            lemma_pow2_pos((h * k) as nat);
            lemma_u64_shl_is_mul(1u64, (h * k) as u64);
            lemma_u64_shl_is_mul(1u64, ((h + 1) * k) as u64);
            lemma2_to64();
            lemma2_to64_rest();
            if ((h + 1) * k) < 63 {
                lemma_pow2_strictly_increases(((h + 1) * k) as nat, 63);
            }
        }
        let lo = 1u64 << (h * k);
        let u = 1u64 << ((h + 1) * k);
        let ghost p1 = self.pos();
        let res = match self.read_minimal_binary(u - lo) {
            Ok(r) => r,
            Err(e) => {
                return Err(e);
            },
        };
        proof {
            lemma_min_binary_bound(words, p1, (u - lo) as nat);
        }
        Ok(lo + res - 1)
    }
}

/// `2^e` fits in a 64-bit word for `e` at most 63.
pub proof fn lemma_u64_pow2_le_max(e: nat)
    requires
        e <= 63,
    ensures
        pow2(e) <= 0x8000_0000_0000_0000,
    decreases 63 - e,
{
    lemma2_to64();
    lemma2_to64_rest();
    if e < 63 {
        lemma_pow2_strictly_increases(e, 63);
    }
}

impl BitStreamWrite {
    /// Appends the γ code of `v`.
    pub fn write_gamma(&mut self, v: u64)
        requires
            old(self).wf(),
            v < u64::MAX,
            old(self).nbits() + 256 <= usize::MAX,
        ensures
            final(self).wf(),
            old(self).nbits() < final(self).nbits() <= old(self).nbits() + 129,
            spec_gamma(final(self).words(), old(self).nbits()) == Some(
                (v as nat, final(self).nbits()),
            ),
            forall|i: int|
                0 <= i < old(self).nbits() ==> stream_bit(final(self).words(), i) == stream_bit(
                    old(self).words(),
                    i,
                ),
    {
        let ghost base = self.nbits();
        let n = v + 1;
        let l = floor_log2(n);
        proof {
            lemma_floor_log2(n as nat);
            lemma_u64_pow2_le_max(l as nat);
            lemma_u64_shl_is_mul(1u64, l);
            lemma_pow2_adds(l as nat, 1);
            lemma2_to64();
        }
        let payload = n - (1u64 << l);
        self.write_unary(l);
        let ghost mid = self.words();
        self.write_bits(payload, l as usize);
        proof {
            let w2 = self.words();
            assert forall|j: int| base <= j < base + l implies !#[trigger] stream_bit(w2, j) by {
                assert(stream_bit(w2, j) == stream_bit(mid, j));
                assert(!stream_bit(mid, base + (j - base)));
            }
            assert(stream_bit(w2, base + l)) by {
                assert(stream_bit(w2, base + l) == stream_bit(mid, base + l));
            }
            assert(base + l < w2.len() * 32);
            crate::bit_stream::lemma_first_one_at_here(w2, base, base + l);
            assert(spec_unary(w2, base) == Some((l as nat, base + l + 1)));
            assert(spec_bits(w2, base + l + 1, l as nat) == Some(
                (payload as nat, base + 2 * (l as int) + 1),
            ));
        }
    }

    /// Appends the minimal binary code of `v` with range `max`.
    pub fn write_minimal_binary(&mut self, v: u64, max: u64)
        requires
            old(self).wf(),
            1 <= max,
            (max as nat) < pow2(63),
            v < max,
            old(self).nbits() + 256 <= usize::MAX,
        ensures
            final(self).wf(),
            old(self).nbits() <= final(self).nbits() <= old(self).nbits() + 64,
            spec_min_binary(final(self).words(), old(self).nbits(), max as nat) == Some(
                (v as nat, final(self).nbits()),
            ),
            forall|i: int|
                0 <= i < old(self).nbits() ==> stream_bit(final(self).words(), i) == stream_bit(
                    old(self).words(),
                    i,
                ),
    {
        let ghost base = self.nbits();
        let l = floor_log2(max);
        proof {
            lemma_floor_log2(max as nat);
            if l >= 63 {
                lemma_pow2_strictly_increases(63, (l + 1) as nat);
                assert(false);
            }
            lemma_pow2_adds(l as nat, 1);
            lemma2_to64();
            lemma_u64_pow2_le_max((l + 1) as nat);
            lemma_u64_shl_is_mul(1u64, (l + 1) as u64);
        }
        let limit = (1u64 << (l + 1)) - max;
        if v < limit {
            self.write_bits(v, l as usize);
        } else {
            let to_write = v + limit;
            proof {
                assert((to_write >> 1u64) == to_write / 2 && (to_write & 1u64) == to_write % 2)
                    by (bit_vector);
                lemma_fundamental_div_mod(to_write as int, 2);
                assert(2 * pow2(l as nat) == pow2((l + 1) as nat));
            }
            self.write_bits(to_write >> 1, l as usize);
            let ghost mid = self.words();
            self.write_bits(to_write & 1, 1);
            proof {
                lemma_bits_val_congruent(
                    mid,
                    self.words(),
                    base,
                    l as nat,
                );
            }
        }
    }

    /// Appends the ζ code of `v` with parameter `k`.
    #[verifier::rlimit(60)]
    pub fn write_zeta(&mut self, v: u64, k: u64)
        requires
            old(self).wf(),
            1 <= k <= 7,
            (v as nat) + 1 < pow2(56),
            old(self).nbits() + 512 <= usize::MAX,
        ensures
            final(self).wf(),
            old(self).nbits() < final(self).nbits() <= old(self).nbits() + 128,
            spec_zeta(final(self).words(), old(self).nbits(), k as nat) == Some(
                (v as nat, final(self).nbits()),
            ),
            forall|i: int|
                0 <= i < old(self).nbits() ==> stream_bit(final(self).words(), i) == stream_bit(
                    old(self).words(),
                    i,
                ),
    {
        let ghost base = self.nbits();
        proof {
            lemma2_to64();
            lemma2_to64_rest();
        }
        let n = v + 1;
        let l = floor_log2(n);
        proof {
            lemma_floor_log2(n as nat);
            if l >= 56 {
                lemma_pow2_strictly_increases(56, (l + 1) as nat);
                if l > 56 {
                    lemma_pow2_strictly_increases(56, l as nat);
                }
                assert(false);
            }
        }
        let h = l / k;
        proof {
            vstd::arithmetic::div_mod::lemma_fundamental_div_mod(l as int, k as int);
            assert(0 <= l % k < k) by (nonlinear_arith)
                requires
                    k >= 1,
                    l >= 0,
            ;
            assert((h + 1) * k == h * k + k) by (nonlinear_arith);
            assert(h * k == k * h) by (nonlinear_arith);
            assert((k as int) * (h as int) == (k as int) * ((l as int) / (k as int)));
            assert(h * k <= l && l + 1 <= (h + 1) * k && (h + 1) * k <= l + k);
            assert((h * k) < (h + 1) * k);
            lemma_pow2_strictly_increases((h * k) as nat, ((h + 1) * k) as nat);
            lemma_u64_pow2_le_max(((h + 1) * k) as nat);
            lemma_pow2_pos((h * k) as nat);
            lemma_u64_shl_is_mul(1u64, (h * k) as u64);
            lemma_u64_shl_is_mul(1u64, ((h + 1) * k) as u64);
            lemma2_to64();
            lemma2_to64_rest();
            // the value lies in the bucket chosen by h
            assert(pow2((h * k) as nat) <= n as nat) by {
                if h * k < l {
                    lemma_pow2_strictly_increases((h * k) as nat, l as nat);
                }
            }
            assert((n as nat) < pow2(((h + 1) * k) as nat)) by {
                if l + 1 < (h + 1) * k {
                    lemma_pow2_strictly_increases((l + 1) as nat, ((h + 1) * k) as nat);
                }
            }
        }
        let lo = 1u64 << (h * k);
        let u = 1u64 << ((h + 1) * k);
        self.write_unary(h);
        let ghost mid = self.words();
        let ghost p1 = self.nbits();
        self.write_minimal_binary(n - lo, u - lo);
        proof {
            let w2 = self.words();
            assert forall|j: int| base <= j < base + h implies !#[trigger] stream_bit(w2, j) by {
                assert(stream_bit(w2, j) == stream_bit(mid, j));
                assert(!stream_bit(mid, base + (j - base)));
            }
            assert(stream_bit(w2, base + h)) by {
                assert(stream_bit(w2, base + h) == stream_bit(mid, base + h));
            }
            assert(base + h < w2.len() * 32);
            crate::bit_stream::lemma_first_one_at_here(w2, base, base + h);
            assert(spec_unary(w2, base) == Some((h as nat, base + h + 1)));
        }
    }
}

/// A ζ code's value fits in 63 bits and its end position stays inside
/// the stream.
pub proof fn lemma_zeta_bounds(words: Seq<u32>, pos: int, k: nat)
    requires
        1 <= k,
        spec_zeta(words, pos, k) is Some,
    ensures
        spec_zeta(words, pos, k).unwrap().0 < pow2(63),
        pos < spec_zeta(words, pos, k).unwrap().1 <= words.len() * 32,
{
    lemma_unary_bounds(words, pos);
    let (h, p1) = spec_unary(words, pos).unwrap();
    let max = (pow2((h + 1) * k) - pow2(h * k)) as nat;
    assert((h * k) < (h + 1) * k) by (nonlinear_arith)
        requires
            k >= 1,
            h >= 0,
    ;
    lemma_pow2_strictly_increases((h * k) as nat, ((h + 1) * k) as nat);
    lemma_pow2_pos((h * k) as nat);
    lemma_min_binary_bound(words, p1, max);
    if (h + 1) * k < 63 {
        lemma_pow2_strictly_increases(((h + 1) * k) as nat, 63);
    }
}


} // verus!
