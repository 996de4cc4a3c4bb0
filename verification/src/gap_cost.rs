//! The log-gap cost of a graph: for each node, the sum of the bit lengths
//! of the gaps between consecutive successors, the first gap taken from
//! the node id through the zigzag mapping.

use vstd::prelude::*;
use crate::codes::{lemma_floor_log2, spec_floor_log2, floor_log2};
use crate::spec_int2nat;

verus! {

/// The number of bits needed for a positive value: the ceiling of the
/// base-two logarithm.
pub open spec fn spec_ceil_log2(x: nat) -> nat {
    if x <= 1 {
        0
    } else {
        spec_floor_log2((x - 1) as nat) + 1
    }
}

/// The cost of the gaps from position `i` on, each relative to its left
/// neighbour.
pub open spec fn spec_rest_cost(l: Seq<u64>, i: int) -> nat
    decreases l.len() - i,
{
    if i < 1 || i >= l.len() {
        0
    } else {
        (if l[i] >= l[i - 1] {
            spec_ceil_log2((1 + l[i] - l[i - 1]) as nat)
        } else {
            0
        }) + spec_rest_cost(l, i + 1)
    }
}

/// The cost of one node's successor list.
pub open spec fn spec_node_cost(v: int, l: Seq<u64>) -> nat {
    if l.len() == 0 {
        0
    } else {
        spec_ceil_log2((1 + spec_int2nat(l[0] - v)) as nat) + spec_rest_cost(l, 1)
    }
}

/// The cost of the lists from node `i` on.
pub open spec fn spec_graph_cost(lists: Seq<Seq<u64>>, i: int) -> nat
    decreases lists.len() - i,
{
    if i < 0 || i >= lists.len() {
        0
    } else {
        spec_node_cost(i, lists[i]) + spec_graph_cost(lists, i + 1)
    }
}

/// The total cost is at least the cost of any tail of the node list.
pub proof fn lemma_graph_cost_mono(lists: Seq<Seq<u64>>, a: int, b: int)
    requires
        0 <= a <= b,
    ensures
        spec_graph_cost(lists, a) >= spec_graph_cost(lists, b),
    decreases b - a,
{
    if a < b {
        lemma_graph_cost_mono(lists, a + 1, b);
    }
}

/// Pins the floor of the logarithm of a value known to lie between two
/// consecutive powers of two.
proof fn lemma_floor_log2_pin(x: nat, e: nat)
    requires
        vstd::arithmetic::power2::pow2(e) <= x,
        x < vstd::arithmetic::power2::pow2(e + 1),
    ensures
        spec_floor_log2(x) == e,
{
    vstd::arithmetic::power2::lemma_pow2_pos(e);
    lemma_floor_log2(x);
    let f = spec_floor_log2(x);
    if f < e {
        vstd::arithmetic::power2::lemma_pow2_strictly_increases(f, e);
        if f + 1 < e {
            vstd::arithmetic::power2::lemma_pow2_strictly_increases(f + 1, e);
        }
        assert(false);
    }
    if f > e {
        if f > e + 1 {
            vstd::arithmetic::power2::lemma_pow2_strictly_increases(e + 1, f);
        }
        assert(false);
    }
}

/// The ceiling of the base-two logarithm.
pub fn ceil_log2(x: u64) -> (r: u64)
    ensures
        r == spec_ceil_log2(x as nat),
        r <= 64,
{
    if x <= 1 {
        0
    } else {
        proof {
            lemma_floor_log2((x - 1) as nat);
            if spec_floor_log2((x - 1) as nat) >= 64 {
                vstd::arithmetic::power2::lemma2_to64();
                if spec_floor_log2((x - 1) as nat) > 64 {
                    vstd::arithmetic::power2::lemma_pow2_strictly_increases(
                        64,
                        spec_floor_log2((x - 1) as nat),
                    );
                }
                assert(false);
            }
        }
        floor_log2(x - 1) + 1
    }
}

/// Computes the log-gap cost of a set of successor lists, in bits (the
/// undivided total; ranking candidates by it orders them as the per-arc
/// average would, since the arc count is the same for all).  The call is
/// refused only when the node count or a list length exceeds `2^32`, or
/// the total cost overflows the stated accumulator bound.
pub fn compute_log_gap_cost(lists: &Vec<Vec<u64>>) -> (r: Result<u128, crate::Error>)
    ensures
        match r {
            Ok(c) => c == spec_graph_cost(lists@.map_values(|l: Vec<u64>| l@), 0),
            Err(_) => lists@.len() > 0x1_0000_0000 || (exists|i: int|
                0 <= i < lists@.len() && (#[trigger] lists@[i])@.len() > 0x1_0000_0000)
                || spec_graph_cost(lists@.map_values(|l: Vec<u64>| l@), 0)
                > 0x1_0000_0000_0000_0000_0000,
        },
{
    let ghost view = lists@.map_values(|l: Vec<u64>| l@);
    let n = lists.len();
    if n as u64 > 0x1_0000_0000u64 {
        return Err(crate::Error::BadInvariant);
    }
    proof {
        assert(spec_graph_cost(view, n as int) == 0);
    }
    let mut rsum: u128 = 0;
    // walk the lists from the back so the partial sum is a tail of the spec
    let mut k: usize = n;
    while k > 0
        invariant
            n == lists@.len(),
            n <= 0x1_0000_0000,
            view == lists@.map_values(|l: Vec<u64>| l@),
            k <= n,
            rsum == spec_graph_cost(view, k as int),
            rsum <= 0x100_0000_0000_0000_0000_0000,
        decreases k,
    {
        let v = k - 1;
        let list = &lists[v];
        if list.len() as u64 > 0x1_0000_0000u64 {
            proof {
                assert(lists@[v as int]@.len() > 0x1_0000_0000);
            }
            return Err(crate::Error::BadInvariant);
        }
        let mut node_cost: u128 = 0;
        if list.len() > 0 {
            let d: i128 = list[0] as i128 - v as i128;
            let zig: u128 = if d >= 0 {
                2 * (d as u128)
            } else {
                (-d) as u128 * 2 - 1
            };
            proof {
                assert(zig == spec_int2nat(list@[0] - v));
            }
            let first: u64 = if zig > u64::MAX as u128 - 1 {
                // the gap needs 64 bits and one more: its logarithm is
                // exactly 64, since it lies between 2^64 and 2^65
                proof {
                    vstd::arithmetic::power2::lemma2_to64();
                    vstd::arithmetic::power2::lemma2_to64_rest();
                    assert(vstd::arithmetic::power2::pow2(65) == 2
                        * vstd::arithmetic::power2::pow2(64)) by {
                        vstd::arithmetic::power2::lemma_pow2_adds(64, 1);
                        vstd::arithmetic::power2::lemma2_to64();
                    }
                    lemma_floor_log2_pin(zig as nat, 64);
                }
                65
            } else {
                ceil_log2((zig + 1) as u64)
            };
            node_cost = first as u128;
            // gaps between consecutive successors, from the back
            let mut j: usize = list.len();
            let mut tail: u128 = 0;
            while j > 1
                invariant
                    1 <= j <= list@.len(),
                    list@.len() <= 0x1_0000_0000,
                    tail == spec_rest_cost(list@, j as int),
                    tail <= 64 * (list@.len() - j),
                decreases j,
            {
                let jj = j - 1;
                let term: u64 = if list[jj] >= list[jj - 1] {
                    let g = list[jj] - list[jj - 1];
                    if g == u64::MAX {
                        proof {
                            vstd::arithmetic::power2::lemma2_to64();
                            vstd::arithmetic::power2::lemma2_to64_rest();
                            lemma_floor_log2_pin((u64::MAX) as nat, 63);
                        }
                        64
                    } else {
                        ceil_log2(g + 1)
                    }
                } else {
                    0
                };
                tail = tail + term as u128;
                j = jj;
            }
            node_cost = node_cost + tail;
        }
        proof {
            assert(spec_node_cost(v as int, view[v as int]) == node_cost);
            assert(spec_graph_cost(view, v as int) == spec_node_cost(v as int, view[v as int])
                + spec_graph_cost(view, v + 1));
        }
        if node_cost > 0x1_0000_0000_0000_0000_0000 {
            proof {
                lemma_graph_cost_mono(view, 0, v as int);
            }
            return Err(crate::Error::BadInvariant);
        }
        rsum = rsum + node_cost;
        if rsum > 0x100_0000_0000_0000_0000_0000 {
            proof {
                lemma_graph_cost_mono(view, 0, v as int);
            }
            return Err(crate::Error::BadInvariant);
        }
        k = v;
    }
    Ok(rsum)
}

} // verus!
