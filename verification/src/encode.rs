//! A simple BVGraph encoder: writes each node's successors as residuals
//! only, without back-references or intervals.  Its contract is the round
//! trip: the stream it returns decodes, record for record, to exactly the
//! graph's successor lists — for every window size and minimum interval
//! length, since the records it writes use neither.

use vstd::arithmetic::power2::{lemma2_to64, lemma2_to64_rest, pow2};
use vstd::prelude::*;
use crate::bit_stream::{
    bits_agree_to, lemma_bits_agree_trans, lemma_first_one_at_here, lemma_unary_stable,
    spec_unary, BitStreamWrite,
};
use crate::codes::{lemma_gamma_stable, lemma_zeta_stable, spec_gamma, spec_zeta};
use crate::graphs::VecGraph;
use crate::reader_sequential::{
    lemma_prefix_stable, lemma_residuals_tail_snoc, lemma_residuals_tail_stable,
    spec_decode_prefix, spec_decode_record, spec_residuals_tail,
};
use crate::sorting::{lemma_sort_id, u64_le};
use crate::{int2nat, lemma_nat2int_int2nat, spec_int2nat, Error};

verus! {

/// The ascending order of a word list, spelled out for the sort step.
pub open spec fn sorted_by_ascending(l: Seq<u64>) -> bool {
    vstd::relations::sorted_by(l, u64_le())
}

/// A stream that spells outdegree, zero reference, zero interval count
/// and the full residual run decodes, at that position, to exactly the
/// residual values — whatever window, minimum interval length and
/// history the decoder carries.
#[verifier::rlimit(100)]
proof fn lemma_residual_record(
    words: Seq<u32>,
    nb0: int,
    v: int,
    n: int,
    succ: Seq<u64>,
    p_d: int,
    p_ic: int,
    p_z: int,
    off: u64,
    nbf: int,
)
    requires
        0 < v + 1 <= n <= 0x4000_0000,
        1 <= succ.len() <= n,
        forall|k: int| 0 <= k < succ.len() ==> (#[trigger] succ[k]) < n,
        forall|a: int, b: int| 0 <= a < b < succ.len() ==> succ[a] < succ[b],
        off as int == spec_int2nat(succ[0] as int - v),
        spec_gamma(words, nb0) == Some((succ.len() as nat, p_d)),
        spec_unary(words, p_d) == Some((0nat, p_d + 1)),
        spec_gamma(words, p_d + 1) == Some((0nat, p_ic)),
        spec_zeta(words, p_ic, 3) == Some((off as nat, p_z)),
        spec_residuals_tail(words, p_z, (succ.len() - 1) as nat, succ[0] as int) == Some(
            (succ.subrange(1, succ.len() as int), nbf),
        ),
    ensures
        forall|win: nat, ml: nat, prev: Seq<Seq<u64>>|
            #[trigger] spec_decode_record(words, nb0, v, prev, win, ml) == Some((succ, nbf)),
{
    assert(succ.subrange(1, succ.len() as int) =~= succ.drop_first());
    assert(seq![succ[0]] + succ.drop_first() =~= succ);
    assert(sorted_by_ascending(succ));
    lemma_sort_id(succ);
    lemma_nat2int_int2nat(succ[0] as int - v);
    assert forall|win: nat, ml: nat, prev: Seq<Seq<u64>>|
        #[trigger] spec_decode_record(words, nb0, v, prev, win, ml) == Some((succ, nbf)) by {
        assert((Seq::<u64>::empty() + Seq::<u64>::empty()) + succ =~= succ);
    }
}

/// One gap append: carries every decoding fact across the new bits and
/// extends the residual tail by the successor the gap denotes.
#[verifier::rlimit(100)]
proof fn lemma_gap_step(
    words0: Seq<u32>,
    wpre: Seq<u32>,
    w2: Seq<u32>,
    nb0: int,
    p_d: int,
    p_ic: int,
    p_z: int,
    succ: Seq<u64>,
    j: int,
    off: u64,
    nbpre: int,
    nbnew: int,
    gap: u64,
)
    requires
        1 <= j < succ.len(),
        forall|a: int, b: int| 0 <= a < b < succ.len() ==> succ[a] < succ[b],
        gap as int == succ[j] - succ[j - 1] - 1,
        0 <= nb0 && nb0 < p_d && p_d + 1 < p_ic && p_ic < p_z && p_z <= nbpre,
        bits_agree_to(words0, wpre, nb0),
        bits_agree_to(wpre, w2, nbpre),
        spec_gamma(wpre, nb0) == Some((succ.len() as nat, p_d)),
        spec_unary(wpre, p_d) == Some((0nat, p_d + 1)),
        spec_gamma(wpre, p_d + 1) == Some((0nat, p_ic)),
        spec_zeta(wpre, p_ic, 3) == Some((off as nat, p_z)),
        spec_residuals_tail(wpre, p_z, (j - 1) as nat, succ[0] as int) == Some(
            (succ.subrange(1, j), nbpre),
        ),
        spec_zeta(w2, nbpre, 3) == Some((gap as nat, nbnew)),
    ensures
        bits_agree_to(words0, w2, nb0),
        spec_gamma(w2, nb0) == Some((succ.len() as nat, p_d)),
        spec_unary(w2, p_d) == Some((0nat, p_d + 1)),
        spec_gamma(w2, p_d + 1) == Some((0nat, p_ic)),
        spec_zeta(w2, p_ic, 3) == Some((off as nat, p_z)),
        spec_residuals_tail(w2, p_z, j as nat, succ[0] as int) == Some(
            (succ.subrange(1, j + 1), nbnew),
        ),
        p_z <= nbnew,
{
    lemma_gamma_stable(wpre, w2, nb0, nbpre);
    lemma_unary_stable(wpre, w2, p_d, nbpre);
    lemma_gamma_stable(wpre, w2, p_d + 1, nbpre);
    lemma_zeta_stable(wpre, w2, p_ic, 3, nbpre);
    lemma_residuals_tail_stable(wpre, w2, p_z, (j - 1) as nat, succ[0] as int, nbpre);
    lemma_bits_agree_trans(words0, wpre, w2, nb0, nbpre);
    lemma_residuals_tail_snoc(w2, p_z, (j - 1) as nat, succ[0] as int, succ[j - 1] as int, gap as nat);
    assert(succ.subrange(1, j).push(succ[j]) =~= succ.subrange(1, j + 1));
    crate::codes::lemma_zeta_bounds(w2, nbpre, 3);
}

/// Appends the residual-only record of node `v` with successor list
/// `succ`: whatever window, minimum interval length and history a decoder
/// carries, the appended bits decode to exactly `succ`.
#[verifier::rlimit(100)]
fn encode_record(w: &mut BitStreamWrite, succ: &Vec<u64>, v: usize, n: usize) -> (r: Result<
    (),
    Error,
>)
    requires
        old(w).wf(),
        v < n,
        n <= 0x4000_0000,
        succ@.len() <= n,
        forall|k: int| 0 <= k < succ@.len() ==> (#[trigger] succ@[k]) < n,
        forall|a: int, b: int| 0 <= a < b < succ@.len() ==> succ@[a] < succ@[b],
    ensures
        final(w).wf(),
        match r {
            Ok(()) => {
                &&& old(w).nbits() < final(w).nbits()
                &&& bits_agree_to(old(w).words(), final(w).words(), old(w).nbits())
                &&& forall|win: nat, ml: nat, prev: Seq<Seq<u64>>|
                    #[trigger] spec_decode_record(
                        final(w).words(),
                        old(w).nbits(),
                        v as int,
                        prev,
                        win,
                        ml,
                    ) == Some((succ@, final(w).nbits() as int))
            },
            Err(_) => true,
        },
{
    if w.len() > usize::MAX / 2 {
        return Err(Error::BadInvariant);
    }
    let ghost words0 = w.words();
    let ghost nb0 = w.nbits();
    proof {
        lemma2_to64();
        lemma2_to64_rest();
    }
    let d = succ.len() as u64;
    w.write_gamma(d);
    let ghost p_d = w.nbits();
    if d == 0 {
        proof {
            assert forall|win: nat, ml: nat, prev: Seq<Seq<u64>>|
                #[trigger] spec_decode_record(w.words(), nb0, v as int, prev, win, ml) == Some(
                (succ@, w.nbits() as int),
            ) by {
                assert(succ@ =~= Seq::<u64>::empty());
            }
        }
        return Ok(());
    }
    let ghost w_1 = w.words();
    w.write_unary(0);
    let ghost w_2 = w.words();
    proof {
        assert(bits_agree_to(w_1, w_2, p_d));
        lemma_gamma_stable(w_1, w_2, nb0, p_d);
        lemma_first_one_at_here(w_2, p_d, p_d);
        assert(spec_unary(w_2, p_d) == Some((0nat, p_d + 1)));
    }
    w.write_gamma(0);
    let ghost p_ic = w.nbits();
    let ghost w_3 = w.words();
    proof {
        assert(bits_agree_to(w_2, w_3, p_d + 1));
        lemma_gamma_stable(w_2, w_3, nb0, p_d);
        lemma_unary_stable(w_2, w_3, p_d, p_d + 1);
        assert(spec_gamma(w_3, p_d + 1) == Some((0nat, p_ic)));
    }
    let first = succ[0];
    let off = int2nat((first as i64) - (v as i64));
    w.write_zeta(off, 3);
    let ghost p_z = w.nbits();
    let ghost w_4 = w.words();
    proof {
        assert(bits_agree_to(w_3, w_4, p_ic));
        lemma_gamma_stable(w_3, w_4, nb0, p_d);
        lemma_unary_stable(w_3, w_4, p_d, p_ic);
        lemma_gamma_stable(w_3, w_4, p_d + 1, p_ic);
        assert(spec_zeta(w_4, p_ic, 3) == Some((off as nat, p_z)));
        lemma_bits_agree_trans(words0, w_1, w_2, nb0, p_d);
        lemma_bits_agree_trans(words0, w_2, w_3, nb0, p_d + 1);
        lemma_bits_agree_trans(words0, w_3, w_4, nb0, p_ic);
        assert(succ@.subrange(1, 1) =~= Seq::<u64>::empty());
    }
    let mut j: usize = 1;
    while j < succ.len()
        invariant
            v < n,
            n <= 0x4000_0000,
            1 <= j <= succ@.len(),
            d == succ@.len(),
            first == succ@[0],
            off as int == spec_int2nat(first as int - v as int),
            forall|k: int| 0 <= k < succ@.len() ==> (#[trigger] succ@[k]) < n,
            forall|a: int, b: int| 0 <= a < b < succ@.len() ==> succ@[a] < succ@[b],
            w.wf(),
            0 <= nb0 && nb0 < p_d && p_d + 1 < p_ic && p_ic < p_z && p_z <= w.nbits(),
            bits_agree_to(words0, w.words(), nb0),
            spec_gamma(w.words(), nb0) == Some((succ@.len() as nat, p_d)),
            spec_unary(w.words(), p_d) == Some((0nat, p_d + 1)),
            spec_gamma(w.words(), p_d + 1) == Some((0nat, p_ic)),
            spec_zeta(w.words(), p_ic, 3) == Some((off as nat, p_z)),
            spec_residuals_tail(w.words(), p_z, (j - 1) as nat, first as int) == Some(
                (succ@.subrange(1, j as int), w.nbits() as int),
            ),
        decreases succ@.len() - j,
    {
        if w.len() > usize::MAX / 2 {
            return Err(Error::BadInvariant);
        }
        let prev = succ[j - 1];
        let cur = succ[j];
        let gap = cur - prev - 1;
        proof {
            lemma2_to64();
            lemma2_to64_rest();
        }
        let ghost wpre = w.words();
        let ghost nbpre = w.nbits();
        w.write_zeta(gap, 3);
        proof {
            assert(bits_agree_to(wpre, w.words(), nbpre));
            lemma_gap_step(
                words0,
                wpre,
                w.words(),
                nb0,
                p_d,
                p_ic,
                p_z,
                succ@,
                j as int,
                off,
                nbpre,
                w.nbits() as int,
                gap,
            );
        }
        j = j + 1;
    }
    proof {
        lemma_residual_record(
            w.words(),
            nb0,
            v as int,
            n as int,
            succ@,
            p_d,
            p_ic,
            p_z,
            off,
            w.nbits() as int,
        );
    }
    Ok(())
}

/// Encodes a graph as a BVGraph bit stream with residual-only records:
/// each node writes its outdegree (γ), a zero reference offset (unary), a
/// zero interval count (γ), and its successors as ζ₃-coded gaps.  On
/// success the packed words decode back to the graph's successor lists;
/// the call is refused only when the stream would outgrow half the
/// address space in bits.
#[verifier::rlimit(100)]
pub fn encode_graph(graph: &VecGraph) -> (r: Result<(Vec<u32>, usize), Error>)
    requires
        graph.wf(),
        graph.view().len() <= 0x4000_0000,
    ensures
        match r {
            Ok(p) => forall|win: nat, ml: nat|
                #[trigger] spec_decode_prefix(p.0@, win, ml, graph.view().len() as nat) == Some(
                    (graph.view(), p.1 as int),
                ),
            Err(_) => true,
        },
{
    let ghost gview = graph.view();
    let n = graph.num_nodes();
    let mut w = BitStreamWrite::new();
    let mut v: usize = 0;
    proof {
        assert(gview.subrange(0, 0) =~= Seq::<Seq<u64>>::empty());
    }
    while v < n
        invariant
            graph.wf(),
            n == gview.len(),
            gview == graph.view(),
            n <= 0x4000_0000,
            v <= n,
            w.wf(),
            forall|win: nat, ml: nat|
                #[trigger] spec_decode_prefix(w.words(), win, ml, v as nat) == Some(
                    (gview.subrange(0, v as int), w.nbits() as int),
                ),
        decreases n - v,
    {
        let ghost words0 = w.words();
        let ghost nb0 = w.nbits();
        let succ = graph.successors(v);
        proof {
            crate::graphs::lemma_succ_list_len(succ@, n as int);
        }
        match encode_record(&mut w, &succ, v, n) {
            Ok(()) => (),
            Err(e) => {
                return Err(e);
            },
        }
        proof {
            let wf_ = w.words();
            let nbf = w.nbits() as int;
            assert forall|win: nat, ml: nat|
                #[trigger] spec_decode_prefix(wf_, win, ml, (v + 1) as nat) == Some(
                (gview.subrange(0, (v + 1) as int), nbf),
            ) by {
                lemma_prefix_stable(words0, wf_, win, ml, v as nat, nb0);
                assert(spec_decode_record(wf_, nb0, v as int, gview.subrange(0, v as int), win, ml)
                    == Some((succ@, nbf)));
                assert(gview.subrange(0, v as int).push(succ@) =~= gview.subrange(
                    0,
                    (v + 1) as int,
                ));
            }
        }
        v = v + 1;
    }
    proof {
        assert(gview.subrange(0, n as int) =~= gview);
    }
    Ok(w.into_inner())
}

} // verus!
