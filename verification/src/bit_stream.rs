//! A bit-addressable view of a buffer of 32-bit words, most significant bit
//! first, and cursors that read or write it.
//!
//! The model is the function `stream_bit`: bit `i` of the stream is bit
//! `i % 32` (counted from the most significant end) of word `i / 32`.  The
//! reader's contracts say exactly which value a run of bits denotes via
//! `spec_bits_val`, and where the next one bit stands via `spec_first_one`;
//! the writer's contracts say exactly which bits a write appends and that
//! the bits already written are kept.

use vstd::arithmetic::power2::{
    lemma2_to64, lemma_pow2_adds, lemma_pow2_pos, lemma_pow2_strictly_increases, pow2,
};
use vstd::prelude::*;
use crate::Error;

verus! {

/// Bit `i` of word `w`, counted from the most significant end.
pub open spec fn word_bit(w: u32, i: int) -> bool {
    0 <= i < 32 && ((w >> ((31 - i) as u32)) & 1u32) == 1u32
}

/// Bit `i` of the stream of words; bits past the end read as zero.
pub open spec fn stream_bit(words: Seq<u32>, i: int) -> bool {
    0 <= i < words.len() * 32 && word_bit(words[i / 32], i % 32)
}

/// The value denoted by the `n` bits starting at `pos`, most significant
/// bit first.
pub open spec fn spec_bits_val(words: Seq<u32>, pos: int, n: nat) -> nat
    decreases n,
{
    if n == 0 {
        0
    } else {
        spec_bits_val(words, pos, (n - 1) as nat) * 2 + if stream_bit(words, pos + n - 1) {
            1nat
        } else {
            0nat
        }
    }
}

/// A run of `n` bits denotes a value below `2^n`.
pub proof fn lemma_bits_val_bound(words: Seq<u32>, pos: int, n: nat)
    ensures
        spec_bits_val(words, pos, n) < pow2(n),
    decreases n,
{
    if n == 0 {
        lemma_pow2_pos(0);
        assert(pow2(0) == 1) by {
            lemma2_to64();
        }
    } else {
        lemma_bits_val_bound(words, pos, (n - 1) as nat);
        assert(pow2(n) == 2 * pow2((n - 1) as nat)) by {
            lemma_pow2_adds(1, (n - 1) as nat);
            lemma2_to64();
        }
    }
}

/// Two stores that agree on the bits of a range denote the same value there.
pub proof fn lemma_bits_val_congruent(w1: Seq<u32>, w2: Seq<u32>, pos: int, n: nat)
    requires
        forall|j: int| pos <= j < pos + n ==> stream_bit(w1, j) == stream_bit(w2, j),
    ensures
        spec_bits_val(w1, pos, n) == spec_bits_val(w2, pos, n),
    decreases n,
{
    if n > 0 {
        lemma_bits_val_congruent(w1, w2, pos, (n - 1) as nat);
    }
}

/// The position of the first one bit at or after `pos`, if there is one.
pub open spec fn spec_first_one(words: Seq<u32>, pos: int) -> Option<int>
    decreases words.len() * 32 - pos,
{
    if pos >= words.len() * 32 {
        None
    } else if stream_bit(words, pos) {
        Some(pos)
    } else {
        spec_first_one(words, pos + 1)
    }
}

/// What `spec_first_one` means bit by bit.
pub proof fn lemma_first_one(words: Seq<u32>, pos: int)
    ensures
        match spec_first_one(words, pos) {
            Some(i) => pos <= i < words.len() * 32 && stream_bit(words, i) && forall|j: int|
                pos <= j < i ==> !stream_bit(words, j),
            None => forall|j: int| j >= pos ==> !stream_bit(words, j),
        },
    decreases words.len() * 32 - pos,
{
    if pos >= words.len() * 32 {
        assert forall|j: int| j >= pos implies !stream_bit(words, j) by {}
    } else if stream_bit(words, pos) {
    } else {
        lemma_first_one(words, pos + 1);
    }
}

/// Skipping a zero bit does not change where the first one bit stands.
pub proof fn lemma_first_one_skip(words: Seq<u32>, pos: int)
    requires
        !stream_bit(words, pos),
        pos < words.len() * 32,
    ensures
        spec_first_one(words, pos) == spec_first_one(words, pos + 1),
{
}

/// A unary code at `pos`: the count of zero bits before the first one bit,
/// and the position just past that one bit.
pub open spec fn spec_unary(words: Seq<u32>, pos: int) -> Option<(nat, int)> {
    match spec_first_one(words, pos) {
        None => None,
        Some(i) => Some((((i - pos)) as nat, i + 1)),
    }
}

/// A fixed-width read at `pos`: its value and the position past it, or
/// nothing when the stream is too short.
pub open spec fn spec_bits(words: Seq<u32>, pos: int, n: nat) -> Option<(nat, int)> {
    if 0 <= pos && pos + n <= words.len() * 32 {
        Some((spec_bits_val(words, pos, n), pos + n))
    } else {
        None
    }
}

/// The second store extends the first and agrees with it on every bit
/// below `bound`.
pub open spec fn bits_agree_to(w1: Seq<u32>, w2: Seq<u32>, bound: int) -> bool {
    &&& w1.len() <= w2.len()
    &&& forall|j: int| 0 <= j < bound ==> stream_bit(w1, j) == stream_bit(w2, j)
}

/// Agreement is transitive along growing bounds.
pub proof fn lemma_bits_agree_trans(w1: Seq<u32>, w2: Seq<u32>, w3: Seq<u32>, b1: int, b2: int)
    requires
        bits_agree_to(w1, w2, b1),
        bits_agree_to(w2, w3, b2),
        b1 <= b2,
    ensures
        bits_agree_to(w1, w3, b1),
{
}

/// A unary code that ends below the agreed bound reads the same from the
/// extended store.
pub proof fn lemma_unary_stable(w1: Seq<u32>, w2: Seq<u32>, pos: int, bound: int)
    requires
        bits_agree_to(w1, w2, bound),
        0 <= pos,
        spec_unary(w1, pos) is Some,
        spec_unary(w1, pos).unwrap().1 <= bound,
    ensures
        spec_unary(w2, pos) == spec_unary(w1, pos),
        pos < spec_unary(w1, pos).unwrap().1,
{
    lemma_first_one(w1, pos);
    let i = spec_first_one(w1, pos).unwrap();
    assert forall|j: int| pos <= j < i implies !stream_bit(w2, j) by {
        assert(!stream_bit(w1, j));
    }
    assert(stream_bit(w2, i));
    assert(w1.len() * 32 <= w2.len() * 32);
    lemma_first_one_at_here(w2, pos, i);
}

/// A fixed-width read that ends below the agreed bound reads the same
/// from the extended store.
pub proof fn lemma_bits_stable(w1: Seq<u32>, w2: Seq<u32>, pos: int, n: nat, bound: int)
    requires
        bits_agree_to(w1, w2, bound),
        spec_bits(w1, pos, n) is Some,
        spec_bits(w1, pos, n).unwrap().1 <= bound,
    ensures
        spec_bits(w2, pos, n) == spec_bits(w1, pos, n),
        pos <= spec_bits(w1, pos, n).unwrap().1,
{
    assert(w1.len() * 32 <= w2.len() * 32);
    lemma_bits_val_congruent(w1, w2, pos, n);
}

/// If the bits before `i` are zero and bit `i` is one, then `i` is where
/// the first one bit stands.
pub proof fn lemma_first_one_at_here(words: Seq<u32>, pos: int, i: int)
    requires
        0 <= pos <= i,
        i < words.len() * 32,
        stream_bit(words, i),
        forall|j: int| pos <= j < i ==> !stream_bit(words, j),
    ensures
        spec_first_one(words, pos) == Some(i),
    decreases i - pos,
{
    if pos < i {
        lemma_first_one_at_here(words, pos + 1, i);
    }
}

/// A read-only bit cursor over a word buffer.
pub struct BitStreamRead {
    data: Vec<u32>,
    position: usize,
}

impl BitStreamRead {
    /// The backing words.
    pub closed spec fn words(&self) -> Seq<u32> {
        self.data@
    }

    /// The cursor, as an absolute bit offset.
    pub closed spec fn pos(&self) -> int {
        self.position as int
    }

    /// The cursor stays inside the stream and positions cannot overflow.
    pub open spec fn wf(&self) -> bool {
        &&& 0 <= self.pos() <= self.words().len() * 32
        &&& self.words().len() * 32 + 64 <= usize::MAX
    }

    /// Builds a reader over `data`; refuses a buffer so large that bit
    /// positions could not be counted in a machine word.
    pub fn new(data: Vec<u32>) -> (r: Result<Self, Error>)
        ensures
            match r {
                Ok(s) => s.words() == data@ && s.pos() == 0 && s.wf(),
                Err(_) => data@.len() * 32 + 64 > usize::MAX,
            },
    {
        if data.len() <= (usize::MAX - 64) / 32 {
            proof {
                assert(data@.len() * 32 + 64 <= usize::MAX) by (nonlinear_arith)
                    requires
                        data@.len() <= (usize::MAX - 64) / 32,
                ;
            }
            Ok(BitStreamRead { data, position: 0 })
        } else {
            Err(Error::BadInvariant)
        }
    }

    /// The total number of bits in the stream.
    pub fn bit_len(&self) -> (r: usize)
        requires
            self.wf(),
        ensures
            r == self.words().len() * 32,
    {
        self.data.len() * 32
    }

    pub fn get_position(&self) -> (r: usize)
        ensures
            r == self.pos(),
    {
        self.position
    }

    /// Seeks to an absolute bit offset; an offset past the end of the
    /// stream is refused and the position is left unchanged.
    pub fn set_position(&mut self, bit_index: usize) -> (r: Result<(), Error>)
        requires
            old(self).wf(),
        ensures
            final(self).wf(),
            final(self).words() == old(self).words(),
            bit_index <= old(self).words().len() * 32 ==> r is Ok && final(self).pos()
                == bit_index,
            bit_index > old(self).words().len() * 32 ==> r is Err && final(self).pos() == old(
                self,
            ).pos(),
    {
        if bit_index <= self.data.len() * 32 {
            self.position = bit_index;
            Ok(())
        } else {
            Err(Error::BadInvariant)
        }
    }

    /// Bit `i` of the stream.
    fn get_bit(&self, i: usize) -> (r: bool)
        requires
            self.wf(),
            i < self.words().len() * 32,
        ensures
            r == stream_bit(self.words(), i as int),
    {
        proof {
            assert(i / 32 < self.data@.len()) by (nonlinear_arith)
                requires
                    i < self.data@.len() * 32,
            ;
        }
        let w = self.data[i / 32];
        let sh: u32 = (31 - (i % 32)) as u32;
        ((w >> sh) & 1u32) == 1u32
    }

    /// Reads `n` bits, most significant first, as a value; a read past the
    /// end of the stream is a short read and moves nothing.
    pub fn read_bits(&mut self, n: usize) -> (r: Result<u64, Error>)
        requires
            old(self).wf(),
            n <= 64,
        ensures
            final(self).wf(),
            final(self).words() == old(self).words(),
            match spec_bits(old(self).words(), old(self).pos(), n as nat) {
                Some((v, p)) => r == Ok::<u64, Error>(v as u64) && final(self).pos() == p,
                None => r is Err && final(self).pos() == old(self).pos(),
            },
    {
        let bl = self.bit_len();
        if n > bl - self.position {
            return Err(Error::ShortRead);
        }
        let ghost words = self.data@;
        let ghost pos0 = self.position as int;
        let mut v: u64 = 0;
        let mut i: usize = 0;
        while i < n
            invariant
                self.wf(),
                self.data@ == words,
                self.position == pos0,
                i <= n,
                n <= 64,
                pos0 + n <= words.len() * 32,
                v == spec_bits_val(words, pos0, i as nat),
            decreases n - i,
        {
            proof {
                lemma_bits_val_bound(words, pos0, i as nat);
                assert(pow2(i as nat) <= pow2(63)) by {
                    if (i as nat) < 63 {
                        lemma_pow2_strictly_increases(i as nat, 63);
                    }
                }
                lemma2_to64();
                vstd::arithmetic::power2::lemma2_to64_rest();
            }
            let b = self.get_bit(self.position + i);
            v = 2 * v + if b {
                1u64
            } else {
                0u64
            };
            i = i + 1;
        }
        self.position = self.position + n;
        Ok(v)
    }

    /// Reads a unary code: the count of zero bits before the next one bit.
    /// A stream with no one bit left is a malformed code and moves nothing.
    pub fn read_unary(&mut self) -> (r: Result<u64, Error>)
        requires
            old(self).wf(),
        ensures
            final(self).wf(),
            final(self).words() == old(self).words(),
            match spec_unary(old(self).words(), old(self).pos()) {
                Some((v, p)) => r == Ok::<u64, Error>(v as u64) && v <= u64::MAX && final(self).pos() == p,
                None => r is Err && final(self).pos() == old(self).pos(),
            },
    {
        let bl = self.bit_len();
        let ghost words = self.data@;
        let ghost pos0 = self.position as int;
        let mut i: usize = self.position;
        while i < bl && !self.get_bit(i)
            invariant
                self.wf(),
                self.data@ == words,
                self.position == pos0,
                bl == words.len() * 32,
                pos0 <= i <= bl,
                spec_first_one(words, pos0) == spec_first_one(words, i as int),
            decreases bl - i,
        {
            proof {
                lemma_first_one_skip(words, i as int);
            }
            i = i + 1;
        }
        if i < bl {
            let r = (i - self.position) as u64;
            self.position = i + 1;
            Ok(r)
        } else {
            Err(Error::UnaryOverflow)
        }
    }
}

/// An append-only bit cursor that builds a word buffer.
pub struct BitStreamWrite {
    data: Vec<u32>,
    bit_count: usize,
}

impl BitStreamWrite {
    /// The words built so far, the last one padded with zero bits.
    pub closed spec fn words(&self) -> Seq<u32> {
        self.data@
    }

    /// How many bits have been written.
    pub closed spec fn nbits(&self) -> int {
        self.bit_count as int
    }

    /// The written bits fill the buffer but for a zero-padded tail of the
    /// last word.
    pub open spec fn wf(&self) -> bool {
        &&& 0 <= self.nbits() <= self.words().len() * 32
        &&& self.words().len() * 32 < self.nbits() + 32
        &&& forall|i: int|
            self.nbits() <= i < self.words().len() * 32 ==> !stream_bit(self.words(), i)
    }

    pub fn new() -> (r: Self)
        ensures
            r.wf(),
            r.nbits() == 0,
            r.words().len() == 0,
    {
        BitStreamWrite { data: Vec::new(), bit_count: 0 }
    }

    pub fn len(&self) -> (r: usize)
        ensures
            r == self.nbits(),
    {
        self.bit_count
    }

    /// Hands back the words and the count of bits written into them.
    pub fn into_inner(self) -> (r: (Vec<u32>, usize))
        ensures
            r.0@ == self.words(),
            r.1 == self.nbits(),
    {
        let BitStreamWrite { data, bit_count } = self;
        (data, bit_count)
    }

    /// Appends one bit; every bit already written is kept.
    pub fn push_bit(&mut self, b: bool)
        requires
            old(self).wf(),
            old(self).nbits() + 64 <= usize::MAX,
        ensures
            final(self).wf(),
            final(self).nbits() == old(self).nbits() + 1,
            stream_bit(final(self).words(), old(self).nbits()) == b,
            forall|i: int|
                0 <= i < old(self).nbits() ==> stream_bit(final(self).words(), i) == stream_bit(
                    old(self).words(),
                    i,
                ),
    {
        let ghost oldwords = self.data@;
        let ghost oldn = self.bit_count as int;
        if self.bit_count == self.data.len() * 32 {
            self.data.push(0);
            proof {
                assert forall|i: int| #![trigger stream_bit(self.data@, i)] true implies stream_bit(
                    self.data@,
                    i,
                ) == stream_bit(oldwords, i) by {
                    if 0 <= i < self.data@.len() * 32 {
                        if i >= oldwords.len() * 32 {
                            assert(i / 32 == oldwords.len() as int) by (nonlinear_arith)
                                requires
                                    oldwords.len() * 32 <= i < oldwords.len() * 32 + 32,
                            ;
                            assert(self.data@[i / 32] == 0u32);
                            let s2: u32 = (31 - (i % 32)) as u32;
                            assert(((0u32 >> s2) & 1u32) == 0u32) by (bit_vector);
                        } else {
                            assert(i / 32 < oldwords.len() && oldwords[i / 32] == self.data@[i
                                / 32]) by (nonlinear_arith)
                                requires
                                    0 <= i && i < oldwords.len() * 32,
                                    self.data@ == oldwords.push(0u32),
                            ;
                        }
                    }
                }
            }
        }
        let ghost base = self.data@;
        proof {
            assert(self.bit_count < self.data@.len() * 32);
            assert forall|i: int| oldn <= i implies !stream_bit(base, i) by {
                assert(stream_bit(base, i) == stream_bit(oldwords, i));
            }
        }
        if b {
            let wi = self.bit_count / 32;
            let ghost j = self.bit_count as int % 32;
            proof {
                assert(wi < self.data@.len() && wi * 32 + j == self.bit_count as int) by (
                nonlinear_arith)
                    requires
                        wi == self.bit_count / 32,
                        j == self.bit_count as int % 32,
                        self.bit_count < self.data@.len() * 32,
                ;
            }
            let sh: u32 = (31 - (self.bit_count % 32)) as u32;
            let w = self.data[wi];
            self.data.set(wi, w | (1u32 << sh));
            proof {
                assert(sh == (31 - j) as u32);
                assert forall|j2: int| 0 <= j2 < 32 implies word_bit(self.data@[wi as int], j2) == (
                word_bit(base[wi as int], j2) || j2 == j) by {
                    let sh2: u32 = (31 - j2) as u32;
                    assert((((w | (1u32 << sh)) >> sh2) & 1u32) == (if sh2 == sh {
                        1u32
                    } else {
                        ((w >> sh2) & 1u32)
                    })) by (bit_vector)
                        requires
                            sh2 < 32 && sh < 32,
                    ;
                    assert(sh2 == sh <==> j2 == j);
                    assert(word_bit(self.data@[wi as int], j2) == ((((w | (1u32 << sh)) >> sh2)
                        & 1u32) == 1u32));
                    assert(word_bit(base[wi as int], j2) == (((w >> sh2) & 1u32) == 1u32));
                }
                assert forall|i: int| #![trigger stream_bit(self.data@, i)] true implies stream_bit(
                    self.data@,
                    i,
                ) == (stream_bit(base, i) || i == oldn) by {
                    if 0 <= i < self.data@.len() * 32 {
                        assert(0 <= i / 32 < self.data@.len() && 0 <= i % 32 < 32 && i / 32 * 32 + i
                            % 32 == i) by (nonlinear_arith)
                            requires
                                0 <= i < self.data@.len() * 32,
                        ;
                        if i / 32 == wi as int {
                            let j2 = i % 32;
                            let sh2: u32 = (31 - j2) as u32;
                            assert((((w | (1u32 << sh)) >> sh2) & 1u32) == (if sh2 == sh {
                                1u32
                            } else {
                                ((w >> sh2) & 1u32)
                            })) by (bit_vector)
                                requires
                                    sh2 < 32 && sh < 32,
                            ;
                            assert(sh2 == sh <==> j2 == j);
                            assert(word_bit(self.data@[wi as int], j2) == (word_bit(
                                base[wi as int],
                                j2,
                            ) || j2 == j));
                            assert(i == oldn <==> i % 32 == j) by (nonlinear_arith)
                                requires
                                    i / 32 * 32 + i % 32 == i,
                                    wi * 32 + j == oldn,
                                    i / 32 == wi as int,
                                    0 <= i % 32 < 32,
                                    0 <= j < 32,
                            ;
                            assert(stream_bit(self.data@, i) == word_bit(self.data@[wi as int], i
                                % 32));
                            assert(stream_bit(base, i) == word_bit(base[wi as int], i % 32));
                        } else {
                            assert(self.data@[i / 32] == base[i / 32]);
                        }
                    } else {
                        assert(i != oldn);
                    }
                }
            }
        }
        self.bit_count = self.bit_count + 1;
        proof {
            if b {
                assert(stream_bit(self.data@, oldn));
            } else {
                assert(self.data@ == base);
                assert(!stream_bit(self.data@, oldn));
            }
            assert forall|i: int|
                self.bit_count as int <= i < self.data@.len() * 32 implies !stream_bit(
                self.data@,
                i,
            ) by {
                if b {
                    assert(stream_bit(self.data@, i) == (stream_bit(base, i) || i == oldn));
                }
                assert(!stream_bit(base, i));
            }
        }
    }

    /// Appends the `n`-bit encoding of `v`, most significant bit first.
    pub fn write_bits(&mut self, v: u64, n: usize)
        requires
            old(self).wf(),
            n <= 64,
            (v as nat) < pow2(n as nat),
            old(self).nbits() + n + 64 <= usize::MAX,
        ensures
            final(self).wf(),
            final(self).nbits() == old(self).nbits() + n,
            spec_bits_val(final(self).words(), old(self).nbits(), n as nat) == v,
            forall|i: int|
                0 <= i < old(self).nbits() ==> stream_bit(final(self).words(), i) == stream_bit(
                    old(self).words(),
                    i,
                ),
    {
        let ghost oldwords = self.data@;
        let ghost base = self.bit_count as int;
        proof {
            lemma_pow2_pos(n as nat);
            assert((v as nat) / pow2(n as nat) == 0) by {
                vstd::arithmetic::div_mod::lemma_basic_div(v as int, pow2(n as nat) as int);
            }
        }
        let mut i: usize = 0;
        while i < n
            invariant
                self.wf(),
                i <= n,
                n <= 64,
                (v as nat) < pow2(n as nat),
                self.nbits() == base + i,
                base + n + 64 <= usize::MAX,
                spec_bits_val(self.words(), base, i as nat) == (v as nat) / pow2((n - i) as nat),
                forall|k: int|
                    0 <= k < base ==> stream_bit(self.words(), k) == stream_bit(oldwords, k),
            decreases n - i,
        {
            let ghost prewords = self.data@;
            let sh: u64 = (n - 1 - i) as u64;
            let b = ((v >> sh) & 1u64) == 1u64;
            self.push_bit(b);
            proof {
                lemma_bits_val_congruent(prewords, self.data@, base, i as nat);
                assert(spec_bits_val(self.data@, base, (i + 1) as nat) == spec_bits_val(
                    self.data@,
                    base,
                    i as nat,
                ) * 2 + if stream_bit(self.data@, base + i) {
                    1nat
                } else {
                    0nat
                });
                assert(((v >> sh) & 1u64) == 0u64 || ((v >> sh) & 1u64) == 1u64) by (bit_vector);
                // the value of the first i + 1 bits is v shifted right by sh
                vstd::bits::lemma_u64_shr_is_div(v, sh);
                if sh < 63 {
                    assert((v >> sh) == 2 * (v >> (sh + 1)) + ((v >> sh) & 1u64)) by (bit_vector)
                        requires
                            sh < 63,
                    ;
                    vstd::bits::lemma_u64_shr_is_div(v, (sh + 1) as u64);
                } else {
                    assert((v >> 63u64) == 2 * 0 + ((v >> 63u64) & 1u64)) by (bit_vector);
                    assert(pow2(64) > v as nat) by {
                        lemma2_to64();
                    }
                    assert((v as nat) / pow2(64) == 0) by {
                        vstd::arithmetic::div_mod::lemma_basic_div(v as int, pow2(64) as int);
                    }
                }
            }
            i = i + 1;
        }
        proof {
            assert(pow2(0) == 1) by {
                lemma2_to64();
            }
            assert(spec_bits_val(self.data@, base, n as nat) == (v as nat) / pow2(0));
            assert((v as nat) / 1 == v as nat);
        }
    }

    /// Appends the unary code of `v`: `v` zero bits and then a one bit.
    pub fn write_unary(&mut self, v: u64)
        requires
            old(self).wf(),
            old(self).nbits() + v + 64 <= usize::MAX,
        ensures
            final(self).wf(),
            final(self).nbits() == old(self).nbits() + v + 1,
            forall|j: int|
                0 <= j < v ==> !#[trigger] stream_bit(final(self).words(), old(self).nbits() + j),
            stream_bit(final(self).words(), old(self).nbits() + v),
            forall|i: int|
                0 <= i < old(self).nbits() ==> stream_bit(final(self).words(), i) == stream_bit(
                    old(self).words(),
                    i,
                ),
    {
        let ghost oldwords = self.data@;
        let ghost base = self.bit_count as int;
        let mut j: u64 = 0;
        while j < v
            invariant
                self.wf(),
                j <= v,
                self.nbits() == base + j,
                base + v + 64 <= usize::MAX,
                forall|k: int| 0 <= k < j ==> !#[trigger] stream_bit(self.words(), base + k),
                forall|k: int|
                    0 <= k < base ==> stream_bit(self.words(), k) == stream_bit(oldwords, k),
            decreases v - j,
        {
            self.push_bit(false);
            j = j + 1;
        }
        self.push_bit(true);
    }
}

} // verus!
