//! The sequential BVGraph decoder: reads the per-node records of a
//! compressed graph in order, keeping the last `windowsize + 1` successor
//! lists in a circular back-reference window.
//!
//! The functional specification is `spec_decode_record`: a recursive
//! descent over the bit stream that names, for every position and node, the
//! successor list a well-formed record denotes and the position after it —
//! or nothing when the record is malformed (short read, bad reference, bad
//! block bounds, degree underflow or a negative start).  The iterator's
//! invariant ties its state to `spec_decode_prefix`, the fold of that
//! descent from the start of the stream.

use vstd::prelude::*;
use crate::bit_stream::{spec_unary, BitStreamRead};
use crate::codes::{
    lemma_gamma_bounds, lemma_unary_bounds, lemma_zeta_bounds, spec_gamma, spec_zeta,
};
use crate::codes_reader::DefaultCodesReader;
use crate::sorting::{sort_vec, u64_le};
use crate::{nat2int, spec_nat2int, Error};

verus! {

/// The values of `n` consecutive γ codes, and the position after them.
pub open spec fn spec_read_gammas(words: Seq<u32>, pos: int, n: nat) -> Option<(Seq<u64>, int)>
    decreases n,
{
    if n == 0 {
        Some((Seq::empty(), pos))
    } else {
        match spec_gamma(words, pos) {
            None => None,
            Some((v, p)) => match spec_read_gammas(words, p, (n - 1) as nat) {
                None => None,
                Some((vs, p2)) => Some((seq![(v as u64)] + vs, p2)),
            },
        }
    }
}

/// The part of `ref_list` kept by the blocks from index `i` on, starting
/// at offset `idx`: even-indexed blocks are copied, odd ones skipped, and
/// a tail is copied when the number of blocks is even.
pub open spec fn spec_copy_blocks(ref_list: Seq<u64>, blocks: Seq<u64>, i: int, idx: int) -> Option<
    Seq<u64>,
>
    decreases blocks.len() - i,
{
    if i >= blocks.len() {
        if blocks.len() % 2 == 0 {
            if 0 <= idx <= ref_list.len() {
                Some(ref_list.subrange(idx, ref_list.len() as int))
            } else {
                None
            }
        } else {
            Some(Seq::empty())
        }
    } else {
        let end = idx + blocks[i] + 1;
        if !(0 <= idx && end <= ref_list.len()) {
            None
        } else {
            match spec_copy_blocks(ref_list, blocks, i + 1, end) {
                None => None,
                Some(rest) => if i % 2 == 0 {
                    Some(ref_list.subrange(idx, end) + rest)
                } else {
                    Some(rest)
                },
            }
        }
    }
}

/// The part of `ref_list` kept by a block list; the first block length is
/// zero-based, later ones are one-based; no blocks means copy everything.
pub open spec fn spec_copied(ref_list: Seq<u64>, blocks: Seq<u64>) -> Option<Seq<u64>> {
    if blocks.len() == 0 {
        Some(ref_list)
    } else if blocks[0] > ref_list.len() {
        None
    } else {
        match spec_copy_blocks(ref_list, blocks, 1, blocks[0] as int) {
            None => None,
            Some(rest) => Some(ref_list.subrange(0, blocks[0] as int) + rest),
        }
    }
}

/// The copy phase of a record: nothing for a zero reference offset, else
/// the blocks applied to the referenced list.
pub open spec fn spec_copied_part(
    words: Seq<u32>,
    pos: int,
    r: nat,
    node: int,
    prev: Seq<Seq<u64>>,
    window: nat,
) -> Option<(Seq<u64>, int)> {
    if r == 0 {
        Some((Seq::empty(), pos))
    } else if r > window || r > node {
        None
    } else {
        let ref_list = prev[node - r];
        match spec_gamma(words, pos) {
            None => None,
            Some((bc, p1)) => match spec_read_gammas(words, p1, bc) {
                None => None,
                Some((blocks, p2)) => match spec_copied(ref_list, blocks) {
                    None => None,
                    Some(c) => Some((c, p2)),
                },
            },
        }
    }
}

/// The run of node ids `[start, start + len)`.
pub open spec fn spec_seq_range(start: int, len: nat) -> Seq<u64> {
    Seq::new(len, |i: int| (start + i) as u64)
}

/// The intervals after the first: each adds a gap of at least one to the
/// previous end, then a length of at least `min_len`.
pub open spec fn spec_intervals_tail(
    words: Seq<u32>,
    pos: int,
    k: nat,
    start: int,
    min_len: nat,
) -> Option<(Seq<u64>, int)>
    decreases k,
{
    if k == 0 {
        Some((Seq::empty(), pos))
    } else {
        match spec_gamma(words, pos) {
            None => None,
            Some((gap, p1)) => {
                let st = start + 1 + gap;
                match spec_gamma(words, p1) {
                    None => None,
                    Some((dl, p2)) => {
                        let len = dl + min_len;
                        if st + len > u64::MAX {
                            None
                        } else {
                            match spec_intervals_tail(words, p2, (k - 1) as nat, st + len, min_len) {
                                None => None,
                                Some((rest, p3)) => Some((spec_seq_range(st, len) + rest, p3)),
                            }
                        }
                    },
                }
            },
        }
    }
}

/// The interval phase of a record, entered only when successors are still
/// owed: a count, then the intervals, the first anchored at the node by a
/// signed offset.
pub open spec fn spec_interval_part(
    words: Seq<u32>,
    pos: int,
    left: nat,
    node: int,
    min_len: nat,
) -> Option<(Seq<u64>, int)> {
    if left == 0 {
        Some((Seq::empty(), pos))
    } else {
        match spec_gamma(words, pos) {
            None => None,
            Some((ic, p1)) => {
                if ic == 0 {
                    Some((Seq::empty(), p1))
                } else {
                    match spec_gamma(words, p1) {
                        None => None,
                        Some((off, p2)) => {
                            let st = node + spec_nat2int(off as u64);
                            if st < 0 {
                                None
                            } else {
                                match spec_gamma(words, p2) {
                                    None => None,
                                    Some((dl, p3)) => {
                                        let len = dl + min_len;
                                        if st + len > u64::MAX {
                                            None
                                        } else {
                                            match spec_intervals_tail(
                                                words,
                                                p3,
                                                (ic - 1) as nat,
                                                st + len,
                                                min_len,
                                            ) {
                                                None => None,
                                                Some((rest, p4)) => Some(
                                                    (spec_seq_range(st, len) + rest, p4),
                                                ),
                                            }
                                        }
                                    },
                                }
                            }
                        },
                    }
                }
            },
        }
    }
}

/// The residual gaps after the first: each value is the previous plus one
/// plus a ζ₃-coded gap.
pub open spec fn spec_residuals_tail(words: Seq<u32>, pos: int, k: nat, prev_val: int) -> Option<
    (Seq<u64>, int),
>
    decreases k,
{
    if k == 0 {
        Some((Seq::empty(), pos))
    } else {
        match spec_zeta(words, pos, 3) {
            None => None,
            Some((gap, p1)) => {
                let v = prev_val + 1 + gap;
                if v > u64::MAX {
                    None
                } else {
                    match spec_residuals_tail(words, p1, (k - 1) as nat, v) {
                        None => None,
                        Some((rest, p2)) => Some((seq![(v as u64)] + rest, p2)),
                    }
                }
            },
        }
    }
}

/// The residual phase of a record: the successors owed after the copy and
/// interval phases, the first anchored at the node by a signed offset.
pub open spec fn spec_residual_part(words: Seq<u32>, pos: int, left: nat, node: int) -> Option<
    (Seq<u64>, int),
> {
    if left == 0 {
        Some((Seq::empty(), pos))
    } else {
        match spec_zeta(words, pos, 3) {
            None => None,
            Some((off, p1)) => {
                let v = node + spec_nat2int(off as u64);
                if v < 0 || v > u64::MAX {
                    None
                } else {
                    match spec_residuals_tail(words, p1, (left - 1) as nat, v) {
                        None => None,
                        Some((rest, p2)) => Some((seq![(v as u64)] + rest, p2)),
                    }
                }
            },
        }
    }
}

/// One whole per-node record at `pos`: outdegree, reference copy,
/// intervals and residuals, merged and sorted ascending.
pub open spec fn spec_decode_record(
    words: Seq<u32>,
    pos: int,
    node: int,
    prev: Seq<Seq<u64>>,
    window: nat,
    min_len: nat,
) -> Option<(Seq<u64>, int)> {
    match spec_gamma(words, pos) {
        None => None,
        Some((d, p1)) => {
            if d == 0 {
                Some((Seq::empty(), p1))
            } else {
                match spec_unary(words, p1) {
                    None => None,
                    Some((r, p2)) => match spec_copied_part(words, p2, r, node, prev, window) {
                        None => None,
                        Some((copied, p3)) => {
                            if copied.len() > d {
                                None
                            } else {
                                match spec_interval_part(
                                    words,
                                    p3,
                                    (d - copied.len()) as nat,
                                    node,
                                    min_len,
                                ) {
                                    None => None,
                                    Some((ivals, p4)) => {
                                        if copied.len() + ivals.len() > d {
                                            None
                                        } else {
                                            match spec_residual_part(
                                                words,
                                                p4,
                                                (d - copied.len() - ivals.len()) as nat,
                                                node,
                                            ) {
                                                None => None,
                                                Some((resid, p5)) => Some(
                                                    (
                                                        (copied + ivals + resid).sort_by(u64_le()),
                                                        p5,
                                                    ),
                                                ),
                                            }
                                        }
                                    },
                                }
                            }
                        },
                    },
                }
            }
        },
    }
}

/// The first `n` records of the stream, decoded from position zero, and
/// the position after them.
pub open spec fn spec_decode_prefix(words: Seq<u32>, window: nat, min_len: nat, n: nat) -> Option<
    (Seq<Seq<u64>>, int),
>
    decreases n,
{
    if n == 0 {
        Some((Seq::empty(), 0))
    } else {
        match spec_decode_prefix(words, window, min_len, (n - 1) as nat) {
            None => None,
            Some((prev, pos)) => match spec_decode_record(
                words,
                pos,
                (n - 1) as int,
                prev,
                window,
                min_len,
            ) {
                None => None,
                Some((succ, p2)) => Some((prev.push(succ), p2)),
            },
        }
    }
}

/// A block-length list that ends below the agreed bound reads the same
/// from the extended store.
pub proof fn lemma_read_gammas_stable(w1: Seq<u32>, w2: Seq<u32>, pos: int, n: nat, bound: int)
    requires
        crate::bit_stream::bits_agree_to(w1, w2, bound),
        0 <= pos,
        spec_read_gammas(w1, pos, n) is Some,
        spec_read_gammas(w1, pos, n).unwrap().1 <= bound,
    ensures
        spec_read_gammas(w2, pos, n) == spec_read_gammas(w1, pos, n),
        pos <= spec_read_gammas(w1, pos, n).unwrap().1,
    decreases n,
{
    if n > 0 {
        let (v, p) = spec_gamma(w1, pos).unwrap();
        lemma_read_gammas_stable(w1, w2, p, (n - 1) as nat, bound);
        crate::codes::lemma_gamma_stable(w1, w2, pos, bound);
    }
}

/// An interval tail that ends below the agreed bound reads the same from
/// the extended store.
pub proof fn lemma_intervals_tail_stable(
    w1: Seq<u32>,
    w2: Seq<u32>,
    pos: int,
    k: nat,
    start: int,
    min_len: nat,
    bound: int,
)
    requires
        crate::bit_stream::bits_agree_to(w1, w2, bound),
        0 <= pos,
        spec_intervals_tail(w1, pos, k, start, min_len) is Some,
        spec_intervals_tail(w1, pos, k, start, min_len).unwrap().1 <= bound,
    ensures
        spec_intervals_tail(w2, pos, k, start, min_len) == spec_intervals_tail(
            w1,
            pos,
            k,
            start,
            min_len,
        ),
        pos <= spec_intervals_tail(w1, pos, k, start, min_len).unwrap().1,
    decreases k,
{
    if k > 0 {
        let (gap, p1) = spec_gamma(w1, pos).unwrap();
        let st = start + 1 + gap;
        let (dl, p2) = spec_gamma(w1, p1).unwrap();
        let len = dl + min_len;
        lemma_intervals_tail_stable(w1, w2, p2, (k - 1) as nat, st + len, min_len, bound);
        crate::codes::lemma_gamma_stable(w1, w2, p1, bound);
        crate::codes::lemma_gamma_stable(w1, w2, pos, bound);
    }
}

/// A residual tail that ends below the agreed bound reads the same from
/// the extended store.
pub proof fn lemma_residuals_tail_stable(
    w1: Seq<u32>,
    w2: Seq<u32>,
    pos: int,
    k: nat,
    prev_val: int,
    bound: int,
)
    requires
        crate::bit_stream::bits_agree_to(w1, w2, bound),
        0 <= pos,
        spec_residuals_tail(w1, pos, k, prev_val) is Some,
        spec_residuals_tail(w1, pos, k, prev_val).unwrap().1 <= bound,
    ensures
        spec_residuals_tail(w2, pos, k, prev_val) == spec_residuals_tail(w1, pos, k, prev_val),
        pos <= spec_residuals_tail(w1, pos, k, prev_val).unwrap().1,
    decreases k,
{
    if k > 0 {
        let (gap, p1) = spec_zeta(w1, pos, 3).unwrap();
        let v = prev_val + 1 + gap;
        lemma_residuals_tail_stable(w1, w2, p1, (k - 1) as nat, v, bound);
        crate::codes::lemma_zeta_stable(w1, w2, pos, 3, bound);
    }
}

/// Every read moves the cursor forward: end-position facts for the
/// repeated-code helpers and record phases.
pub proof fn lemma_read_gammas_ends(words: Seq<u32>, pos: int, n: nat)
    requires
        0 <= pos,
        spec_read_gammas(words, pos, n) is Some,
    ensures
        pos <= spec_read_gammas(words, pos, n).unwrap().1,
    decreases n,
{
    if n > 0 {
        let (v, p) = spec_gamma(words, pos).unwrap();
        crate::codes::lemma_gamma_bounds(words, pos);
        lemma_read_gammas_ends(words, p, (n - 1) as nat);
    }
}

/// See `lemma_read_gammas_ends`.
pub proof fn lemma_intervals_tail_ends(words: Seq<u32>, pos: int, k: nat, start: int, min_len: nat)
    requires
        0 <= pos,
        spec_intervals_tail(words, pos, k, start, min_len) is Some,
    ensures
        pos <= spec_intervals_tail(words, pos, k, start, min_len).unwrap().1,
    decreases k,
{
    if k > 0 {
        let (gap, p1) = spec_gamma(words, pos).unwrap();
        let st = start + 1 + gap;
        let (dl, p2) = spec_gamma(words, p1).unwrap();
        crate::codes::lemma_gamma_bounds(words, pos);
        crate::codes::lemma_gamma_bounds(words, p1);
        lemma_intervals_tail_ends(words, p2, (k - 1) as nat, st + dl + min_len, min_len);
    }
}

/// See `lemma_read_gammas_ends`.
pub proof fn lemma_residuals_tail_ends(words: Seq<u32>, pos: int, k: nat, prev_val: int)
    requires
        0 <= pos,
        spec_residuals_tail(words, pos, k, prev_val) is Some,
    ensures
        pos <= spec_residuals_tail(words, pos, k, prev_val).unwrap().1,
    decreases k,
{
    if k > 0 {
        let (gap, p1) = spec_zeta(words, pos, 3).unwrap();
        crate::codes::lemma_zeta_bounds(words, pos, 3);
        lemma_residuals_tail_ends(words, p1, (k - 1) as nat, prev_val + 1 + gap);
    }
}

/// See `lemma_read_gammas_ends`.
pub proof fn lemma_copied_part_ends(
    words: Seq<u32>,
    pos: int,
    r: nat,
    node: int,
    prev: Seq<Seq<u64>>,
    window: nat,
)
    requires
        0 <= pos,
        spec_copied_part(words, pos, r, node, prev, window) is Some,
    ensures
        pos <= spec_copied_part(words, pos, r, node, prev, window).unwrap().1,
{
    if r > 0 {
        let (bc, q1) = spec_gamma(words, pos).unwrap();
        crate::codes::lemma_gamma_bounds(words, pos);
        lemma_read_gammas_ends(words, q1, bc);
    }
}

/// See `lemma_read_gammas_ends`.
pub proof fn lemma_interval_part_ends(
    words: Seq<u32>,
    pos: int,
    left: nat,
    node: int,
    min_len: nat,
)
    requires
        0 <= pos,
        spec_interval_part(words, pos, left, node, min_len) is Some,
    ensures
        pos <= spec_interval_part(words, pos, left, node, min_len).unwrap().1,
{
    if left > 0 {
        let (ic, q1) = spec_gamma(words, pos).unwrap();
        crate::codes::lemma_gamma_bounds(words, pos);
        if ic != 0 {
            let (off, q2) = spec_gamma(words, q1).unwrap();
            let st = node + crate::spec_nat2int(off as u64);
            let (dl, q3) = spec_gamma(words, q2).unwrap();
            crate::codes::lemma_gamma_bounds(words, q1);
            crate::codes::lemma_gamma_bounds(words, q2);
            lemma_intervals_tail_ends(words, q3, (ic - 1) as nat, st + dl + min_len, min_len);
        }
    }
}

/// See `lemma_read_gammas_ends`.
pub proof fn lemma_residual_part_ends(words: Seq<u32>, pos: int, left: nat, node: int)
    requires
        0 <= pos,
        spec_residual_part(words, pos, left, node) is Some,
    ensures
        pos <= spec_residual_part(words, pos, left, node).unwrap().1,
{
    if left > 0 {
        let (off, q1) = spec_zeta(words, pos, 3).unwrap();
        crate::codes::lemma_zeta_bounds(words, pos, 3);
        lemma_residuals_tail_ends(words, q1, (left - 1) as nat, node + crate::spec_nat2int(
            off as u64,
        ));
    }
}

/// The residual phase, when it ends below the agreed bound, reads the
/// same from the extended store.
pub proof fn lemma_residual_part_stable(
    w1: Seq<u32>,
    w2: Seq<u32>,
    pos: int,
    left: nat,
    node: int,
    bound: int,
)
    requires
        crate::bit_stream::bits_agree_to(w1, w2, bound),
        0 <= pos,
        spec_residual_part(w1, pos, left, node) is Some,
        spec_residual_part(w1, pos, left, node).unwrap().1 <= bound,
    ensures
        spec_residual_part(w2, pos, left, node) == spec_residual_part(w1, pos, left, node),
        pos <= spec_residual_part(w1, pos, left, node).unwrap().1,
{
    if left > 0 {
        let (off, q1) = spec_zeta(w1, pos, 3).unwrap();
        let v0 = node + crate::spec_nat2int(off as u64);
        lemma_residuals_tail_stable(w1, w2, q1, (left - 1) as nat, v0, bound);
        crate::codes::lemma_zeta_stable(w1, w2, pos, 3, bound);
    }
}

/// The interval phase, when it ends below the agreed bound, reads the
/// same from the extended store.
pub proof fn lemma_interval_part_stable(
    w1: Seq<u32>,
    w2: Seq<u32>,
    pos: int,
    left: nat,
    node: int,
    min_len: nat,
    bound: int,
)
    requires
        crate::bit_stream::bits_agree_to(w1, w2, bound),
        0 <= pos,
        spec_interval_part(w1, pos, left, node, min_len) is Some,
        spec_interval_part(w1, pos, left, node, min_len).unwrap().1 <= bound,
    ensures
        spec_interval_part(w2, pos, left, node, min_len) == spec_interval_part(
            w1,
            pos,
            left,
            node,
            min_len,
        ),
        pos <= spec_interval_part(w1, pos, left, node, min_len).unwrap().1,
{
    if left > 0 {
        let (ic, q1) = spec_gamma(w1, pos).unwrap();
        if ic == 0 {
            crate::codes::lemma_gamma_stable(w1, w2, pos, bound);
        } else {
            let (off, q2) = spec_gamma(w1, q1).unwrap();
            let st = node + crate::spec_nat2int(off as u64);
            let (dl, q3) = spec_gamma(w1, q2).unwrap();
            let len = dl + min_len;
            lemma_intervals_tail_stable(w1, w2, q3, (ic - 1) as nat, st + len, min_len, bound);
            crate::codes::lemma_gamma_stable(w1, w2, q2, bound);
            crate::codes::lemma_gamma_stable(w1, w2, q1, bound);
            crate::codes::lemma_gamma_stable(w1, w2, pos, bound);
        }
    }
}

/// The copy phase, when it ends below the agreed bound, reads the same
/// from the extended store.
pub proof fn lemma_copied_part_stable(
    w1: Seq<u32>,
    w2: Seq<u32>,
    pos: int,
    r: nat,
    node: int,
    prev: Seq<Seq<u64>>,
    window: nat,
    bound: int,
)
    requires
        crate::bit_stream::bits_agree_to(w1, w2, bound),
        0 <= pos,
        spec_copied_part(w1, pos, r, node, prev, window) is Some,
        spec_copied_part(w1, pos, r, node, prev, window).unwrap().1 <= bound,
    ensures
        spec_copied_part(w2, pos, r, node, prev, window) == spec_copied_part(
            w1,
            pos,
            r,
            node,
            prev,
            window,
        ),
        pos <= spec_copied_part(w1, pos, r, node, prev, window).unwrap().1,
{
    if r > 0 {
        let (bc, q1) = spec_gamma(w1, pos).unwrap();
        lemma_read_gammas_stable(w1, w2, q1, bc, bound);
        crate::codes::lemma_gamma_stable(w1, w2, pos, bound);
    }
}

/// A record always moves the cursor strictly forward.
pub proof fn lemma_record_ends(
    words: Seq<u32>,
    pos: int,
    node: int,
    prev: Seq<Seq<u64>>,
    window: nat,
    min_len: nat,
)
    requires
        0 <= pos,
        spec_decode_record(words, pos, node, prev, window, min_len) is Some,
    ensures
        pos < spec_decode_record(words, pos, node, prev, window, min_len).unwrap().1,
{
    let (d, p1) = spec_gamma(words, pos).unwrap();
    crate::codes::lemma_gamma_bounds(words, pos);
    if d != 0 {
        let (r, p2) = spec_unary(words, p1).unwrap();
        crate::codes::lemma_unary_bounds(words, p1);
        let (copied, p3) = spec_copied_part(words, p2, r, node, prev, window).unwrap();
        lemma_copied_part_ends(words, p2, r, node, prev, window);
        let left1 = (d - copied.len()) as nat;
        let (ivals, p4) = spec_interval_part(words, p3, left1, node, min_len).unwrap();
        lemma_interval_part_ends(words, p3, left1, node, min_len);
        let left2 = (d - copied.len() - ivals.len()) as nat;
        lemma_residual_part_ends(words, p4, left2, node);
    }
}

/// A decoded prefix never ends before the start of the stream.
pub proof fn lemma_prefix_ends(words: Seq<u32>, window: nat, min_len: nat, t: nat)
    requires
        spec_decode_prefix(words, window, min_len, t) is Some,
    ensures
        0 <= spec_decode_prefix(words, window, min_len, t).unwrap().1,
    decreases t,
{
    if t > 0 {
        let (prev, pos) = spec_decode_prefix(words, window, min_len, (t - 1) as nat).unwrap();
        lemma_prefix_ends(words, window, min_len, (t - 1) as nat);
        lemma_record_ends(words, pos, (t - 1) as int, prev, window, min_len);
    }
}

/// A whole record that ends below the agreed bound reads the same from
/// the extended store.
#[verifier::rlimit(100)]
pub proof fn lemma_record_stable(
    w1: Seq<u32>,
    w2: Seq<u32>,
    pos: int,
    node: int,
    prev: Seq<Seq<u64>>,
    window: nat,
    min_len: nat,
    bound: int,
)
    requires
        crate::bit_stream::bits_agree_to(w1, w2, bound),
        0 <= pos,
        spec_decode_record(w1, pos, node, prev, window, min_len) is Some,
        spec_decode_record(w1, pos, node, prev, window, min_len).unwrap().1 <= bound,
    ensures
        spec_decode_record(w2, pos, node, prev, window, min_len) == spec_decode_record(
            w1,
            pos,
            node,
            prev,
            window,
            min_len,
        ),
        pos < spec_decode_record(w1, pos, node, prev, window, min_len).unwrap().1,
{
    let (d, p1) = spec_gamma(w1, pos).unwrap();
    if d == 0 {
        crate::codes::lemma_gamma_stable(w1, w2, pos, bound);
    } else {
        let (r, p2) = spec_unary(w1, p1).unwrap();
        let (copied, p3) = spec_copied_part(w1, p2, r, node, prev, window).unwrap();
        let left1 = (d - copied.len()) as nat;
        let (ivals, p4) = spec_interval_part(w1, p3, left1, node, min_len).unwrap();
        let left2 = (d - copied.len() - ivals.len()) as nat;
        let (resid, p5) = spec_residual_part(w1, p4, left2, node).unwrap();
        crate::codes::lemma_gamma_bounds(w1, pos);
        crate::codes::lemma_unary_bounds(w1, p1);
        lemma_copied_part_ends(w1, p2, r, node, prev, window);
        lemma_interval_part_ends(w1, p3, left1, node, min_len);
        lemma_residual_part_ends(w1, p4, left2, node);
        lemma_residual_part_stable(w1, w2, p4, left2, node, bound);
        lemma_interval_part_stable(w1, w2, p3, left1, node, min_len, bound);
        lemma_copied_part_stable(w1, w2, p2, r, node, prev, window, bound);
        crate::bit_stream::lemma_unary_stable(w1, w2, p1, bound);
        crate::codes::lemma_gamma_stable(w1, w2, pos, bound);
        assert(spec_gamma(w2, pos) == spec_gamma(w1, pos));
        assert(spec_unary(w2, p1) == spec_unary(w1, p1));
        assert(spec_copied_part(w2, p2, r, node, prev, window) == Some((copied, p3)));
        assert(spec_interval_part(w2, p3, left1, node, min_len) == Some((ivals, p4)));
        assert(spec_residual_part(w2, p4, left2, node) == Some((resid, p5)));
    }
}

/// A decoded prefix that ends below the agreed bound reads the same from
/// the extended store.
#[verifier::rlimit(100)]
pub proof fn lemma_prefix_stable(
    w1: Seq<u32>,
    w2: Seq<u32>,
    window: nat,
    min_len: nat,
    t: nat,
    bound: int,
)
    requires
        crate::bit_stream::bits_agree_to(w1, w2, bound),
        spec_decode_prefix(w1, window, min_len, t) is Some,
        spec_decode_prefix(w1, window, min_len, t).unwrap().1 <= bound,
        0 <= bound,
    ensures
        spec_decode_prefix(w2, window, min_len, t) == spec_decode_prefix(w1, window, min_len, t),
        0 <= spec_decode_prefix(w1, window, min_len, t).unwrap().1,
    decreases t,
{
    if t > 0 {
        let (prev, pos) = spec_decode_prefix(w1, window, min_len, (t - 1) as nat).unwrap();
        lemma_prefix_ends(w1, window, min_len, (t - 1) as nat);
        lemma_record_ends(w1, pos, (t - 1) as int, prev, window, min_len);
        lemma_prefix_stable(w1, w2, window, min_len, (t - 1) as nat, bound);
        lemma_record_stable(w1, w2, pos, (t - 1) as int, prev, window, min_len, bound);
    }
}

/// A residual tail holds one value per gap read.
pub proof fn lemma_residuals_tail_len(words: Seq<u32>, pos: int, k: nat, prev_val: int)
    requires
        spec_residuals_tail(words, pos, k, prev_val) is Some,
    ensures
        spec_residuals_tail(words, pos, k, prev_val).unwrap().0.len() == k,
    decreases k,
{
    if k > 0 {
        let (gap, p1) = spec_zeta(words, pos, 3).unwrap();
        lemma_residuals_tail_len(words, p1, (k - 1) as nat, prev_val + 1 + gap);
    }
}

/// Reading one more gap extends a residual tail by the value it denotes.
#[verifier::rlimit(100)]
pub proof fn lemma_residuals_tail_snoc(
    words: Seq<u32>,
    pos: int,
    k: nat,
    prev_val: int,
    lv: int,
    gap: nat,
)
    requires
        0 <= prev_val,
        spec_residuals_tail(words, pos, k, prev_val) is Some,
        ({
            let (s, q) = spec_residuals_tail(words, pos, k, prev_val).unwrap();
            &&& (k == 0 ==> lv == prev_val)
            &&& (k > 0 ==> s.len() == k && lv == s.last())
            &&& spec_zeta(words, q, 3) is Some
            &&& spec_zeta(words, q, 3).unwrap().0 == gap
            &&& lv + 1 + gap <= u64::MAX
        }),
    ensures
        ({
            let (s, q) = spec_residuals_tail(words, pos, k, prev_val).unwrap();
            let q2 = spec_zeta(words, q, 3).unwrap().1;
            spec_residuals_tail(words, pos, (k + 1) as nat, prev_val) == Some(
                (s.push(((lv + 1 + gap) as u64)), q2),
            )
        }),
    decreases k,
{
    let (s, q) = spec_residuals_tail(words, pos, k, prev_val).unwrap();
    let q2 = spec_zeta(words, q, 3).unwrap().1;
    if k == 0 {
        assert(s =~= Seq::<u64>::empty());
        let v = prev_val + 1 + gap;
        assert(spec_residuals_tail(words, q2, 0, v) == Some((Seq::<u64>::empty(), q2)));
        assert(seq![(v as u64)] + Seq::<u64>::empty() =~= s.push((v as u64)));
    } else {
        let (g0, p1) = spec_zeta(words, pos, 3).unwrap();
        let v0 = prev_val + 1 + g0;
        let (s1, _q1) = spec_residuals_tail(words, p1, (k - 1) as nat, v0).unwrap();
        assert(_q1 == q);
        lemma_residuals_tail_len(words, p1, (k - 1) as nat, v0);
        if k == 1 {
            assert(s1 =~= Seq::<u64>::empty());
            assert(s.last() == (v0 as u64));
        } else {
            assert(s =~= seq![(v0 as u64)] + s1);
            assert(s.last() == s1.last());
        }
        lemma_residuals_tail_snoc(words, p1, (k - 1) as nat, v0, lv, gap);
        assert(seq![(v0 as u64)] + s1.push(((lv + 1 + gap) as u64)) =~= s.push(
            ((lv + 1 + gap) as u64),
        ));
    }
}

/// Every decoded successor list is in ascending order (the record ends
/// with a sort); duplicate freedom is guaranteed for streams written by
/// the encoder, whose contract returns exactly a graph's strictly
/// increasing lists.
pub proof fn lemma_record_sorted(
    words: Seq<u32>,
    pos: int,
    node: int,
    prev: Seq<Seq<u64>>,
    window: nat,
    min_len: nat,
)
    requires
        spec_decode_record(words, pos, node, prev, window, min_len) is Some,
    ensures
        vstd::relations::sorted_by(
            spec_decode_record(words, pos, node, prev, window, min_len).unwrap().0,
            crate::sorting::u64_le(),
        ),
{
    let (d, p1) = spec_gamma(words, pos).unwrap();
    if d == 0 {
    } else {
        let (r, p2) = spec_unary(words, p1).unwrap();
        let (copied, p3) = spec_copied_part(words, p2, r, node, prev, window).unwrap();
        let left1 = (d - copied.len()) as nat;
        let (ivals, p4) = spec_interval_part(words, p3, left1, node, min_len).unwrap();
        let left2 = (d - copied.len() - ivals.len()) as nat;
        let merged = (copied + ivals) + spec_residual_part(
            words,
            p4,
            left2,
            node,
        ).unwrap().0;
        crate::sorting::lemma_u64_le_total();
        merged.lemma_sort_by_ensures(crate::sorting::u64_le());
    }
}

/// Reads `n` consecutive γ codes.
fn read_gammas_vec(cr: &mut DefaultCodesReader, n: u64) -> (r: Result<Vec<u64>, Error>)
    requires
        old(cr).wf(),
    ensures
        final(cr).wf(),
        final(cr).words() == old(cr).words(),
        match spec_read_gammas(old(cr).words(), old(cr).pos(), n as nat) {
            Some((vs, p)) => r is Ok && r.unwrap()@ == vs && final(cr).pos() == p,
            None => r is Err,
        },
    decreases n,
{
    if n == 0 {
        let out: Vec<u64> = Vec::new();
        proof {
            assert(out@ =~= Seq::<u64>::empty());
        }
        Ok(out)
    } else {
        let ghost words = cr.words();
        let ghost pos0 = cr.pos();
        let v = match cr.read_blocks() {
            Ok(v) => v,
            Err(e) => {
                return Err(e);
            },
        };
        proof {
            lemma_gamma_bounds(words, pos0);
        }
        let mut rest = match read_gammas_vec(cr, n - 1) {
            Ok(v) => v,
            Err(e) => {
                return Err(e);
            },
        };
        let ghost rest0 = rest@;
        rest.insert(0, v);
        proof {
            assert(rest@ =~= seq![v] + rest0);
        }
        Ok(rest)
    }
}

/// Copies the range `[a, b)` of a list into a fresh vector.
fn subvec(src: &Vec<u64>, a: usize, b: usize) -> (r: Vec<u64>)
    requires
        a <= b <= src@.len(),
    ensures
        r@ == src@.subrange(a as int, b as int),
{
    let mut out: Vec<u64> = Vec::new();
    let mut i: usize = a;
    while i < b
        invariant
            a <= i <= b <= src@.len(),
            out@ == src@.subrange(a as int, i as int),
        decreases b - i,
    {
        out.push(src[i]);
        proof {
            assert(src@.subrange(a as int, i + 1) =~= src@.subrange(a as int, i as int).push(
                src@[i as int],
            ));
        }
        i = i + 1;
    }
    out
}

/// Applies a block list to a referenced successor list, keeping the
/// even-indexed blocks, from block `i` at offset `idx`.
fn copy_blocks_from(ref_list: &Vec<u64>, blocks: &Vec<u64>, i: usize, idx: usize) -> (r: Result<
    Vec<u64>,
    Error,
>)
    requires
        i >= 1,
        idx <= ref_list@.len(),
    ensures
        match spec_copy_blocks(ref_list@, blocks@, i as int, idx as int) {
            Some(c) => r is Ok && r.unwrap()@ == c,
            None => r is Err,
        },
    decreases blocks@.len() - i,
{
    if i >= blocks.len() {
        if blocks.len() % 2 == 0 {
            Ok(subvec(ref_list, idx, ref_list.len()))
        } else {
            let out: Vec<u64> = Vec::new();
            proof {
                assert(out@ =~= Seq::<u64>::empty());
            }
            Ok(out)
        }
    } else {
        let b = blocks[i];
        let room = (ref_list.len() - idx) as u64;
        if b >= room {
            return Err(Error::BadBlock);
        }
        let end = idx + (b as usize) + 1;
        let rest = match copy_blocks_from(ref_list, blocks, i + 1, end) {
            Ok(v) => v,
            Err(e) => {
                return Err(e);
            },
        };
        if i % 2 == 0 {
            let mut out = subvec(ref_list, idx, end);
            let mut rest_m = rest;
            let ghost out0 = out@;
            let ghost rest0 = rest_m@;
            out.append(&mut rest_m);
            proof {
                assert(out@ == out0 + rest0);
            }
            Ok(out)
        } else {
            Ok(rest)
        }
    }
}

/// Applies a whole block list to a referenced successor list.
fn copy_blocks_top(ref_list: &Vec<u64>, blocks: &Vec<u64>) -> (r: Result<Vec<u64>, Error>)
    ensures
        match spec_copied(ref_list@, blocks@) {
            Some(c) => r is Ok && r.unwrap()@ == c,
            None => r is Err,
        },
{
    if blocks.len() == 0 {
        let mut out: Vec<u64> = Vec::new();
        let mut i: usize = 0;
        while i < ref_list.len()
            invariant
                i <= ref_list@.len(),
                out@ == ref_list@.subrange(0, i as int),
            decreases ref_list@.len() - i,
        {
            out.push(ref_list[i]);
            proof {
                assert(ref_list@.subrange(0, i + 1) =~= ref_list@.subrange(0, i as int).push(
                    ref_list@[i as int],
                ));
            }
            i = i + 1;
        }
        proof {
            assert(ref_list@.subrange(0, ref_list@.len() as int) =~= ref_list@);
        }
        Ok(out)
    } else {
        let b0 = blocks[0];
        if b0 > ref_list.len() as u64 {
            return Err(Error::BadBlock);
        }
        let rest = match copy_blocks_from(ref_list, blocks, 1, b0 as usize) {
            Ok(v) => v,
            Err(e) => {
                return Err(e);
            },
        };
        let mut out = subvec(ref_list, 0, b0 as usize);
        let mut rest_m = rest;
        let ghost out0 = out@;
        let ghost rest0 = rest_m@;
        out.append(&mut rest_m);
        proof {
            assert(out@ == out0 + rest0);
        }
        Ok(out)
    }
}

/// Builds the run of node ids `[start, start + len)`.
fn range_vec(start: u64, len: u64) -> (r: Vec<u64>)
    requires
        start + len <= u64::MAX,
    ensures
        r@ == spec_seq_range(start as int, len as nat),
{
    let mut out: Vec<u64> = Vec::new();
    let mut i: u64 = 0;
    while i < len
        invariant
            i <= len,
            start + len <= u64::MAX,
            out@.len() == i,
            forall|j: int| 0 <= j < i ==> out@[j] == (start + j) as u64,
        decreases len - i,
    {
        out.push(start + i);
        i = i + 1;
    }
    proof {
        assert(out@ =~= spec_seq_range(start as int, len as nat));
    }
    out
}

/// Decodes the intervals after the first.
fn decode_intervals_tail(cr: &mut DefaultCodesReader, k: u64, start: u64, min_len: u64) -> (r:
    Result<Vec<u64>, Error>)
    requires
        old(cr).wf(),
    ensures
        final(cr).wf(),
        final(cr).words() == old(cr).words(),
        match spec_intervals_tail(
            old(cr).words(),
            old(cr).pos(),
            k as nat,
            start as int,
            min_len as nat,
        ) {
            Some((vs, p)) => r is Ok && r.unwrap()@ == vs && final(cr).pos() == p,
            None => r is Err,
        },
    decreases k,
{
    if k == 0 {
        let out: Vec<u64> = Vec::new();
        proof {
            assert(out@ =~= Seq::<u64>::empty());
        }
        return Ok(out);
    }
    let ghost words = cr.words();
    let ghost pos0 = cr.pos();
    let gap = match cr.read_interval_start() {
        Ok(v) => v,
        Err(e) => {
            return Err(e);
        },
    };
    proof {
        lemma_gamma_bounds(words, pos0);
        vstd::arithmetic::power2::lemma2_to64();
        vstd::arithmetic::power2::lemma2_to64_rest();
    }
    let ghost p1 = cr.pos();
    let dl = match cr.read_interval_len() {
        Ok(v) => v,
        Err(e) => {
            return Err(e);
        },
    };
    proof {
        lemma_gamma_bounds(words, p1);
    }
    // the whole interval must stay within node-id range
    let tot: u128 = start as u128 + 1 + gap as u128 + dl as u128 + min_len as u128;
    if tot > u64::MAX as u128 {
        return Err(Error::NegativeStart);
    }
    let st = (start as u128 + 1 + gap as u128) as u64;
    let len = (dl as u128 + min_len as u128) as u64;
    let first = range_vec(st, len);
    let rest = match decode_intervals_tail(cr, k - 1, st + len, min_len) {
        Ok(v) => v,
        Err(e) => {
            return Err(e);
        },
    };
    let mut out = first;
    let mut rest_m = rest;
    let ghost out0 = out@;
    let ghost rest0 = rest_m@;
    out.append(&mut rest_m);
    proof {
        assert(out@ == out0 + rest0);
    }
    Ok(out)
}

/// Decodes the residuals after the first.
fn decode_residuals_tail(cr: &mut DefaultCodesReader, k: u64, prev_val: u64) -> (r: Result<
    Vec<u64>,
    Error,
>)
    requires
        old(cr).wf(),
    ensures
        final(cr).wf(),
        final(cr).words() == old(cr).words(),
        match spec_residuals_tail(old(cr).words(), old(cr).pos(), k as nat, prev_val as int) {
            Some((vs, p)) => r is Ok && r.unwrap()@ == vs && final(cr).pos() == p,
            None => r is Err,
        },
    decreases k,
{
    if k == 0 {
        let out: Vec<u64> = Vec::new();
        proof {
            assert(out@ =~= Seq::<u64>::empty());
        }
        return Ok(out);
    }
    let ghost words = cr.words();
    let ghost pos0 = cr.pos();
    let gap = match cr.read_residual() {
        Ok(v) => v,
        Err(e) => {
            return Err(e);
        },
    };
    proof {
        lemma_zeta_bounds(words, pos0, 3);
        vstd::arithmetic::power2::lemma2_to64();
        vstd::arithmetic::power2::lemma2_to64_rest();
    }
    let v128: u128 = prev_val as u128 + 1 + gap as u128;
    if v128 > u64::MAX as u128 {
        return Err(Error::NegativeStart);
    }
    let v = v128 as u64;
    let mut rest = match decode_residuals_tail(cr, k - 1, v) {
        Ok(v) => v,
        Err(e) => {
            return Err(e);
        },
    };
    let ghost rest0 = rest@;
    rest.insert(0, v);
    proof {
        assert(rest@ =~= seq![v] + rest0);
    }
    Ok(rest)
}

/// Decodes one per-node record against the back-reference window `bufs`,
/// whose slot `m % (window + 1)` holds the successors of each node `m` in
/// reach of the window.
/// The copy phase of a record, after the reference offset has been read.
fn decode_copied_part(
    cr: &mut DefaultCodesReader,
    r_off: u64,
    node: usize,
    window: usize,
    bufs: &Vec<Vec<u64>>,
    Ghost(prev): Ghost<Seq<Seq<u64>>>,
) -> (r: Result<Vec<u64>, Error>)
    requires
        old(cr).wf(),
        window + 1 <= usize::MAX,
        bufs@.len() == window + 1,
        prev.len() == node,
        forall|j: int|
            1 <= j <= node && j <= window ==> #[trigger] bufs@[((node - j) % ((window
                + 1) as int))]@ == prev[node - j],
    ensures
        final(cr).wf(),
        final(cr).words() == old(cr).words(),
        match spec_copied_part(
            old(cr).words(),
            old(cr).pos(),
            r_off as nat,
            node as int,
            prev,
            window as nat,
        ) {
            Some((c, p)) => r is Ok && r.unwrap()@ == c && final(cr).pos() == p,
            None => r is Err,
        },
{
    let ghost words = cr.words();
    let ghost pos0 = cr.pos();
    if r_off == 0 {
        let out: Vec<u64> = Vec::new();
        proof {
            assert(out@ =~= Seq::<u64>::empty());
        }
        return Ok(out);
    }
    if r_off > window as u64 || r_off > node as u64 {
        return Err(Error::BadReference);
    }
    let bc = match cr.read_block_count() {
        Ok(v) => v,
        Err(e) => {
            return Err(e);
        },
    };
    proof {
        lemma_gamma_bounds(words, pos0);
        vstd::arithmetic::power2::lemma2_to64();
        vstd::arithmetic::power2::lemma2_to64_rest();
    }
    let blocks = match read_gammas_vec(cr, bc) {
        Ok(v) => v,
        Err(e) => {
            return Err(e);
        },
    };
    let ref_idx = (node - r_off as usize) % (window + 1);
    let rl = &bufs[ref_idx];
    proof {
        assert(bufs@[((node - r_off as int) % ((window + 1) as int))]@ == prev[node - r_off
            as int]);
    }
    copy_blocks_top(rl, &blocks)
}

/// The interval phase of a record, entered with the count of successors
/// still owed.
fn decode_interval_part(cr: &mut DefaultCodesReader, left: u64, node: usize, min_len: u64) -> (r:
    Result<Vec<u64>, Error>)
    requires
        old(cr).wf(),
    ensures
        final(cr).wf(),
        final(cr).words() == old(cr).words(),
        match spec_interval_part(
            old(cr).words(),
            old(cr).pos(),
            left as nat,
            node as int,
            min_len as nat,
        ) {
            Some((vs, p)) => r is Ok && r.unwrap()@ == vs && final(cr).pos() == p,
            None => r is Err,
        },
{
    let ghost words = cr.words();
    let ghost pos0 = cr.pos();
    if left == 0 {
        let out: Vec<u64> = Vec::new();
        proof {
            assert(out@ =~= Seq::<u64>::empty());
        }
        return Ok(out);
    }
    let ic = match cr.read_interval_count() {
        Ok(v) => v,
        Err(e) => {
            return Err(e);
        },
    };
    proof {
        lemma_gamma_bounds(words, pos0);
        vstd::arithmetic::power2::lemma2_to64();
        vstd::arithmetic::power2::lemma2_to64_rest();
    }
    if ic == 0 {
        let out: Vec<u64> = Vec::new();
        proof {
            assert(out@ =~= Seq::<u64>::empty());
        }
        return Ok(out);
    }
    let ghost p2 = cr.pos();
    let off = match cr.read_interval_start() {
        Ok(v) => v,
        Err(e) => {
            return Err(e);
        },
    };
    proof {
        lemma_gamma_bounds(words, p2);
    }
    let st128: i128 = node as i128 + nat2int(off) as i128;
    if st128 < 0 || st128 > u64::MAX as i128 {
        return Err(Error::NegativeStart);
    }
    let st = st128 as u64;
    let ghost p3 = cr.pos();
    let dl = match cr.read_interval_len() {
        Ok(v) => v,
        Err(e) => {
            return Err(e);
        },
    };
    proof {
        lemma_gamma_bounds(words, p3);
    }
    let len128: u128 = dl as u128 + min_len as u128;
    if st as u128 + len128 > u64::MAX as u128 {
        return Err(Error::NegativeStart);
    }
    let len = len128 as u64;
    let first = range_vec(st, len);
    let rest = match decode_intervals_tail(cr, ic - 1, st + len, min_len) {
        Ok(v) => v,
        Err(e) => {
            return Err(e);
        },
    };
    let mut out = first;
    let mut rest_m = rest;
    let ghost out0 = out@;
    let ghost rest0 = rest_m@;
    out.append(&mut rest_m);
    proof {
        assert(out@ == out0 + rest0);
    }
    Ok(out)
}

/// The residual phase of a record, entered with the count of successors
/// still owed.
fn decode_residual_part(cr: &mut DefaultCodesReader, left: u64, node: usize) -> (r: Result<
    Vec<u64>,
    Error,
>)
    requires
        old(cr).wf(),
    ensures
        final(cr).wf(),
        final(cr).words() == old(cr).words(),
        match spec_residual_part(old(cr).words(), old(cr).pos(), left as nat, node as int) {
            Some((vs, p)) => r is Ok && r.unwrap()@ == vs && final(cr).pos() == p,
            None => r is Err,
        },
{
    let ghost words = cr.words();
    let ghost pos0 = cr.pos();
    if left == 0 {
        let out: Vec<u64> = Vec::new();
        proof {
            assert(out@ =~= Seq::<u64>::empty());
        }
        return Ok(out);
    }
    let off = match cr.read_first_residual() {
        Ok(v) => v,
        Err(e) => {
            return Err(e);
        },
    };
    proof {
        lemma_zeta_bounds(words, pos0, 3);
        vstd::arithmetic::power2::lemma2_to64();
        vstd::arithmetic::power2::lemma2_to64_rest();
    }
    let v128: i128 = node as i128 + nat2int(off) as i128;
    if v128 < 0 || v128 > u64::MAX as i128 {
        return Err(Error::NegativeStart);
    }
    let first_v = v128 as u64;
    let mut rest = match decode_residuals_tail(cr, left - 1, first_v) {
        Ok(v) => v,
        Err(e) => {
            return Err(e);
        },
    };
    let ghost rest0 = rest@;
    rest.insert(0, first_v);
    proof {
        assert(rest@ =~= seq![first_v] + rest0);
    }
    Ok(rest)
}

/// Decodes one per-node record against the back-reference window `bufs`,
/// whose slot `m % (window + 1)` holds the successors of each node `m` in
/// reach of the window.
#[verifier::rlimit(100)]
pub fn decode_record(
    cr: &mut DefaultCodesReader,
    node: usize,
    window: usize,
    min_len: u64,
    bufs: &Vec<Vec<u64>>,
    Ghost(prev): Ghost<Seq<Seq<u64>>>,
) -> (r: Result<Vec<u64>, Error>)
    requires
        old(cr).wf(),
        window + 1 <= usize::MAX,
        bufs@.len() == window + 1,
        prev.len() == node,
        forall|j: int|
            1 <= j <= node && j <= window ==> #[trigger] bufs@[((node - j) % ((window
                + 1) as int))]@ == prev[node - j],
    ensures
        final(cr).wf(),
        final(cr).words() == old(cr).words(),
        match spec_decode_record(
            old(cr).words(),
            old(cr).pos(),
            node as int,
            prev,
            window as nat,
            min_len as nat,
        ) {
            Some((succ, p)) => r is Ok && r.unwrap()@ == succ && final(cr).pos() == p,
            None => r is Err,
        },
{
    let ghost words = cr.words();
    let ghost pos0 = cr.pos();
    let d = match cr.read_outdegree() {
        Ok(v) => v,
        Err(e) => {
            return Err(e);
        },
    };
    proof {
        lemma_gamma_bounds(words, pos0);
        vstd::arithmetic::power2::lemma2_to64();
        vstd::arithmetic::power2::lemma2_to64_rest();
    }
    if d == 0 {
        let out: Vec<u64> = Vec::new();
        proof {
            assert(out@ =~= Seq::<u64>::empty());
        }
        return Ok(out);
    }
    let ghost p1 = cr.pos();
    let r_off = match cr.read_reference_offset() {
        Ok(v) => v,
        Err(e) => {
            return Err(e);
        },
    };
    proof {
        lemma_unary_bounds(words, p1);
    }
    let ghost spec_res = spec_decode_record(
        words,
        pos0,
        node as int,
        prev,
        window as nat,
        min_len as nat,
    );
    let ghost p2 = cr.pos();
    let copied = match decode_copied_part(cr, r_off, node, window, bufs, Ghost(prev)) {
        Ok(v) => v,
        Err(e) => {
            proof {
                assert(spec_res is None);
            }
            return Err(e);
        },
    };
    if copied.len() as u64 > d {
        proof {
            assert(spec_res is None);
        }
        return Err(Error::DegreeUnderflow);
    }
    let left1 = d - copied.len() as u64;
    let ghost p3 = cr.pos();
    let ivals = match decode_interval_part(cr, left1, node, min_len) {
        Ok(v) => v,
        Err(e) => {
            proof {
                assert(spec_res is None);
            }
            return Err(e);
        },
    };
    if copied.len() as u128 + ivals.len() as u128 > d as u128 {
        proof {
            assert(spec_res is None);
        }
        return Err(Error::DegreeUnderflow);
    }
    let left2 = d - copied.len() as u64 - ivals.len() as u64;
    let ghost p4 = cr.pos();
    let resid = match decode_residual_part(cr, left2, node) {
        Ok(v) => v,
        Err(e) => {
            proof {
                assert(spec_res is None);
            }
            return Err(e);
        },
    };
    proof {
        assert(spec_res == Some(
            (((copied@ + ivals@) + resid@).sort_by(u64_le()), cr.pos()),
        ));
    }
    let mut total = copied;
    let mut ivals_m = ivals;
    let mut resid_m = resid;
    let ghost t0 = total@;
    let ghost iv0 = ivals_m@;
    let ghost rs0 = resid_m@;
    total.append(&mut ivals_m);
    total.append(&mut resid_m);
    proof {
        assert(total@ == (t0 + iv0) + rs0);
    }
    let sorted = sort_vec(&total);
    Ok(sorted)
}

/// A sequential iterator over the nodes of a compressed graph and their
/// successors; it needs no offsets.
pub struct WebgraphSequentialIter {
    codes_reader: DefaultCodesReader,
    backrefs: Vec<Vec<u64>>,
    node_id: usize,
    min_interval_length: u64,
    compression_window: usize,
    number_of_nodes: usize,
    decoded: Ghost<Seq<Seq<u64>>>,
}

impl WebgraphSequentialIter {
    /// All successor lists decoded so far, one per node already passed.
    pub closed spec fn decoded_lists(&self) -> Seq<Seq<u64>> {
        self.decoded@
    }

    pub closed spec fn words(&self) -> Seq<u32> {
        self.codes_reader.words()
    }

    pub closed spec fn next_node(&self) -> int {
        self.node_id as int
    }

    pub closed spec fn num_nodes(&self) -> int {
        self.number_of_nodes as int
    }

    pub closed spec fn window(&self) -> nat {
        self.compression_window as nat
    }

    pub closed spec fn min_len(&self) -> nat {
        self.min_interval_length as nat
    }

    /// The iterator's state is exactly the fold of the record decoder over
    /// the stream: `decoded_lists` and the cursor agree with
    /// `spec_decode_prefix`, and the window slots in reach hold the lists
    /// of the last `window` nodes.
    pub closed spec fn wf(&self) -> bool {
        &&& self.codes_reader.wf()
        &&& self.backrefs@.len() == self.compression_window + 1
        &&& self.compression_window + 1 <= usize::MAX
        &&& self.decoded@.len() == self.node_id
        &&& self.node_id <= self.number_of_nodes
        &&& spec_decode_prefix(self.words(), self.window(), self.min_len(), self.node_id as nat)
            == Some((self.decoded@, self.codes_reader.pos()))
        &&& forall|j: int|
            1 <= j <= self.node_id && j <= self.compression_window
                ==> #[trigger] self.backrefs@[((self.node_id - j) % ((self.compression_window
                + 1) as int))]@ == self.decoded@[self.node_id - j]
    }

    /// Builds an iterator at the start of the stream.
    pub fn new(
        codes_reader: DefaultCodesReader,
        min_interval_length: u64,
        compression_window: usize,
        number_of_nodes: usize,
    ) -> (r: Result<Self, Error>)
        requires
            codes_reader.wf(),
        ensures
            compression_window < usize::MAX ==> r is Ok,
            match r {
                Ok(it) => it.wf() && it.next_node() == 0 && it.num_nodes() == number_of_nodes
                    && it.window() == compression_window && it.min_len() == min_interval_length
                    && it.words() == codes_reader.words() && it.decoded_lists() == Seq::<
                    Seq<u64>,
                >::empty(),
                Err(_) => true,
            },
    {
        if compression_window >= usize::MAX {
            return Err(Error::BadInvariant);
        }
        let mut cr = codes_reader;
        match cr.set_position(0) {
            Ok(()) => (),
            Err(e) => {
                return Err(e);
            },
        }
        let mut backrefs: Vec<Vec<u64>> = Vec::new();
        let mut i: usize = 0;
        while i < compression_window + 1
            invariant
                compression_window < usize::MAX,
                i <= compression_window + 1,
                backrefs@.len() == i,
            decreases compression_window + 1 - i,
        {
            backrefs.push(Vec::new());
            i = i + 1;
        }
        Ok(
            WebgraphSequentialIter {
                codes_reader: cr,
                backrefs,
                node_id: 0,
                min_interval_length,
                compression_window,
                number_of_nodes,
                decoded: Ghost(Seq::empty()),
            },
        )
    }

    /// The cursor, as an absolute bit offset.
    pub closed spec fn pos(&self) -> int {
        self.codes_reader.pos()
    }

    /// Returns the cursor; on a well-formed iterator this is exactly the
    /// end position of the decoded prefix, so collecting the positions
    /// before each record yields the `.offsets` contents.
    pub fn get_position(&self) -> (r: usize)
        ensures
            r == self.pos(),
            self.wf() ==> spec_decode_prefix(
                self.words(),
                self.window(),
                self.min_len(),
                self.next_node() as nat,
            ) == Some((self.decoded_lists(), r as int)),
    {
        self.codes_reader.get_position()
    }

    pub fn get_number_of_nodes(&self) -> (r: usize)
        ensures
            r == self.num_nodes(),
    {
        self.number_of_nodes
    }

    /// Decodes the successors of the next node in the stream; a malformed
    /// record is a decode error, and the iterator must not be used again.
    #[verifier::rlimit(100)]
    pub fn next_successors(&mut self) -> (r: Result<Vec<u64>, Error>)
        requires
            old(self).wf(),
            old(self).next_node() < old(self).num_nodes(),
        ensures
            match spec_decode_record(
                old(self).words(),
                spec_decode_prefix(
                    old(self).words(),
                    old(self).window(),
                    old(self).min_len(),
                    old(self).next_node() as nat,
                ).unwrap().1,
                old(self).next_node(),
                old(self).decoded_lists(),
                old(self).window(),
                old(self).min_len(),
            ) {
                Some((succ, p)) => {
                    &&& r is Ok
                    &&& r.unwrap()@ == succ
                    &&& final(self).wf()
                    &&& final(self).next_node() == old(self).next_node() + 1
                    &&& final(self).decoded_lists() == old(self).decoded_lists().push(succ)
                    &&& final(self).words() == old(self).words()
                    &&& final(self).num_nodes() == old(self).num_nodes()
                    &&& final(self).window() == old(self).window()
                    &&& final(self).min_len() == old(self).min_len()
                },
                None => r is Err,
            },
    {
        let ghost words = self.codes_reader.words();
        let ghost prev = self.decoded@;
        let node = self.node_id;
        let succ = match decode_record(
            &mut self.codes_reader,
            node,
            self.compression_window,
            self.min_interval_length,
            &self.backrefs,
            Ghost(prev),
        ) {
            Ok(v) => v,
            Err(e) => {
                return Err(e);
            },
        };
        let ghost oldbufs = self.backrefs@;
        let slot = node % (self.compression_window + 1);
        let stored = clone_vec(&succ);
        self.backrefs.set(slot, stored);
        proof {
            self.decoded@ = prev.push(succ@);
        }
        self.node_id = node + 1;
        proof {
            let m = (self.compression_window + 1) as int;
            let nid = self.node_id as int;
            assert(0 <= (node as int) % m < m) by (nonlinear_arith)
                requires
                    m >= 1,
                    node >= 0,
            ;
            assert forall|j: int|
                1 <= j <= nid && j <= self.compression_window implies #[trigger] self.backrefs@[((
            nid - j) % m)]@ == self.decoded@[nid - j] by {
                let sl = (nid - j) % m;
                assert(0 <= (nid - j) % m < m) by (nonlinear_arith)
                    requires
                        m >= 1,
                        nid - j >= 0,
                ;
                if j == 1 {
                    assert((nid - 1) % m == (node as int) % m);
                    assert(self.backrefs@[sl]@ == succ@);
                } else {
                    let jj = j - 1;
                    assert(nid - j == node - jj);
                    if sl == (node as int) % m {
                        lemma_mod_distinct(node - jj, node as int, m);
                        assert(false);
                    } else {
                        assert(self.backrefs@[sl] == oldbufs[sl]);
                        assert(oldbufs[((node - jj) % m)]@ == prev[node - jj]);
                    }
                }
            }
        }
        Ok(succ)
    }
}

/// Two non-negative numbers less than a modulus apart and with the same
/// remainder are equal.
pub proof fn lemma_mod_distinct(a: int, b: int, m: int)
    requires
        0 <= a <= b,
        b - a < m,
        a % m == b % m,
    ensures
        a == b,
{
    vstd::arithmetic::div_mod::lemma_fundamental_div_mod(a, m);
    vstd::arithmetic::div_mod::lemma_fundamental_div_mod(b, m);
    let qa = a / m;
    let qb = b / m;
    assert(b - a == m * (qb - qa)) by (nonlinear_arith)
        requires
            a == m * qa + a % m,
            b == m * qb + b % m,
            a % m == b % m,
    ;
    if qb > qa {
        assert(m * (qb - qa) >= m * 1) by (nonlinear_arith)
            requires
                qb - qa >= 1,
                m >= 1,
        ;
    }
    if qb < qa {
        assert(m * (qb - qa) <= m * (-1)) by (nonlinear_arith)
            requires
                qb - qa <= -1,
                m >= 1,
        ;
    }
}

/// Copies a vector of words.
fn clone_vec(v: &Vec<u64>) -> (r: Vec<u64>)
    ensures
        r@ == v@,
{
    let mut out: Vec<u64> = Vec::new();
    let mut i: usize = 0;
    while i < v.len()
        invariant
            i <= v@.len(),
            out@ == v@.subrange(0, i as int),
        decreases v@.len() - i,
    {
        out.push(v[i]);
        proof {
            assert(v@.subrange(0, i + 1) =~= v@.subrange(0, i as int).push(v@[i as int]));
        }
        i = i + 1;
    }
    proof {
        assert(v@.subrange(0, v@.len() as int) =~= v@);
    }
    out
}

} // verus!
