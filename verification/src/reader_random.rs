//! Random access to a compressed graph: given the bit offset of every
//! node's record, the successors of an arbitrary node are decoded by
//! seeking there and rebuilding the back-reference window from the
//! node's predecessors, recursively.
//!
//! The contract names the same record specification as the sequential
//! reader: on valid offsets, `random_successors` returns exactly the list
//! that sequential iteration decodes for that node — the two access paths
//! agree node for node.

use vstd::prelude::*;
use crate::codes_reader::DefaultCodesReader;
use crate::reader_sequential::{
    decode_record, lemma_mod_distinct, spec_decode_prefix, spec_decode_record,
};
use crate::Error;

verus! {

/// The offsets list marks, for every node up to `v`, the position where
/// sequential decoding from the start of the stream reaches that node.
pub open spec fn offsets_valid(
    words: Seq<u32>,
    offsets: Seq<usize>,
    v: int,
    window: nat,
    min_len: nat,
) -> bool {
    forall|i: nat|
        i <= v ==> (#[trigger] spec_decode_prefix(words, window, min_len, i)) is Some && offsets[i
            as int] == spec_decode_prefix(words, window, min_len, i).unwrap().1
}

/// Decoding one more record extends the decoded prefix by that record's
/// list and leaves the earlier lists alone.
pub proof fn lemma_prefix_extends(words: Seq<u32>, window: nat, min_len: nat, m: nat, n: nat)
    requires
        m <= n,
        spec_decode_prefix(words, window, min_len, n) is Some,
    ensures
        spec_decode_prefix(words, window, min_len, m) is Some,
        spec_decode_prefix(words, window, min_len, n).unwrap().0.len() == n,
        spec_decode_prefix(words, window, min_len, n).unwrap().0.subrange(0, m as int)
            =~= spec_decode_prefix(words, window, min_len, m).unwrap().0,
    decreases n,
{
    if n > 0 {
        if m <= n - 1 {
            lemma_prefix_extends(words, window, min_len, m, (n - 1) as nat);
            let pn = spec_decode_prefix(words, window, min_len, n).unwrap().0;
            let pn1 = spec_decode_prefix(words, window, min_len, (n - 1) as nat).unwrap().0;
            assert(pn.subrange(0, m as int) =~= pn1.subrange(0, m as int));
        } else {
            lemma_prefix_extends(words, window, min_len, (n - 1) as nat, (n - 1) as nat);
        }
    }
}

/// In a decodable prefix, the record decoded at node `u`'s own position
/// is exactly the list that the prefix holds for `u`.
pub proof fn lemma_prefix_record(words: Seq<u32>, window: nat, min_len: nat, u: nat, n: nat)
    requires
        u < n,
        spec_decode_prefix(words, window, min_len, n) is Some,
    ensures
        ({
            let pu = spec_decode_prefix(words, window, min_len, u);
            let rec = spec_decode_record(
                words,
                pu.unwrap().1,
                u as int,
                pu.unwrap().0,
                window,
                min_len,
            );
            &&& pu is Some
            &&& rec is Some
            &&& rec.unwrap().0 == spec_decode_prefix(words, window, min_len, n).unwrap().0[u as int]
        }),
{
    lemma_prefix_extends(words, window, min_len, (u + 1) as nat, n);
    lemma_prefix_extends(words, window, min_len, u, (u + 1) as nat);
    let pu = spec_decode_prefix(words, window, min_len, u);
    let pu1 = spec_decode_prefix(words, window, min_len, (u + 1) as nat);
    let pn = spec_decode_prefix(words, window, min_len, n);
    assert((((u + 1) as nat) - 1) as nat == u);
    assert(pu1 == (match pu {
        None => None,
        Some((prevv, pos)) => match spec_decode_record(words, pos, u as int, prevv, window, min_len) {
            None => None,
            Some((succ, p2)) => Some::<(Seq<Seq<u64>>, int)>((prevv.push(succ), p2)),
        },
    }));
    assert(pu1.unwrap().0[u as int] == pn.unwrap().0[u as int]) by {
        assert(pn.unwrap().0.subrange(0, (u + 1) as int) =~= pu1.unwrap().0);
    }
}

/// Decodes the successors of node `v` through the offset list, rebuilding
/// the back-reference window from the predecessors in reach.  On valid
/// offsets the result is the list that the sequential pass decodes for
/// `v`: sequential and random access agree.
/// Rebuilds the back-reference window for node `v`: slot `u % (window+1)`
/// gets the successors of each predecessor `u` in reach.
#[verifier::rlimit(100)]
fn build_window(
    cr: &mut DefaultCodesReader,
    offsets: &Vec<usize>,
    v: usize,
    window: usize,
    min_len: u64,
) -> (r: Result<Vec<Vec<u64>>, Error>)
    requires
        old(cr).wf(),
        v < offsets@.len(),
        window + 1 <= usize::MAX,
        offsets_valid(old(cr).words(), offsets@, v as int, window as nat, min_len as nat),
    ensures
        final(cr).wf(),
        final(cr).words() == old(cr).words(),
        match r {
            Ok(bufs) => bufs@.len() == window + 1 && spec_decode_prefix(
                old(cr).words(),
                window as nat,
                min_len as nat,
                v as nat,
            ) is Some && forall|j: int|
                1 <= j <= v && j <= window ==> #[trigger] bufs@[((v - j) % ((window
                    + 1) as int))]@ == spec_decode_prefix(
                    old(cr).words(),
                    window as nat,
                    min_len as nat,
                    v as nat,
                ).unwrap().0[v - j],
            Err(_) => false,
        },
    decreases v, 0int,
{
    let ghost words = cr.words();
    let ghost prev = spec_decode_prefix(words, window as nat, min_len as nat, v as nat).unwrap().0;
    proof {
        assert(spec_decode_prefix(words, window as nat, min_len as nat, v as nat) is Some);
        lemma_prefix_extends(words, window as nat, min_len as nat, v as nat, v as nat);
    }
    let mut bufs: Vec<Vec<u64>> = Vec::new();
    let mut bi: usize = 0;
    while bi < window + 1
        invariant
            window + 1 <= usize::MAX,
            bi <= window + 1,
            bufs@.len() == bi,
        decreases window + 1 - bi,
    {
        bufs.push(Vec::new());
        bi = bi + 1;
    }
    let lim = if v < window {
        v
    } else {
        window
    };
    let mut j: usize = lim;
    while j > 0
        invariant
            cr.wf(),
            cr.words() == words,
            words == old(cr).words(),
            v < offsets@.len(),
            window + 1 <= usize::MAX,
            lim <= v && lim <= window,
            j <= lim,
            bufs@.len() == window + 1,
            offsets_valid(words, offsets@, v as int, window as nat, min_len as nat),
            prev == spec_decode_prefix(
                words,
                window as nat,
                min_len as nat,
                v as nat,
            ).unwrap().0,
            prev.len() == v,
            forall|jj: int|
                j < jj <= lim ==> #[trigger] bufs@[((v - jj) % ((window + 1) as int))]@ == prev[v
                    - jj],
        decreases j,
    {
        let u = v - j;
        proof {
            // the record at u's offset is in the decodable prefix, so the
            // recursive decode cannot fail
            lemma_prefix_record(words, window as nat, min_len as nat, u as nat, v as nat);
        }
        let l = match random_successors(cr, offsets, u, window, min_len) {
            Ok(l) => l,
            Err(e) => {
                proof {
                    assert(false);
                }
                return Err(e);
            },
        };
        proof {
            assert(l@ == prev[u as int]);
        }
        let slot = u % (window + 1);
        let ghost oldbufs = bufs@;
        bufs.set(slot, l);
        proof {
            let m = (window + 1) as int;
            assert forall|jj: int|
                j - 1 < jj <= lim implies #[trigger] bufs@[((v - jj) % m)]@ == prev[v - jj] by {
                if jj == j {
                    assert((v - jj) % m == slot as int);
                } else {
                    let a = v - jj;
                    let b = v - j;
                    if a % m == b % m {
                        lemma_mod_distinct(a, b, m);
                        assert(false);
                    }
                    assert(bufs@[a % m] == oldbufs[a % m]);
                }
            }
        }
        j = j - 1;
    }
    proof {
        assert forall|j2: int|
            1 <= j2 <= v && j2 <= window implies #[trigger] bufs@[((v - j2) % ((window
                + 1) as int))]@ == prev[v - j2] by {
            assert(0 < j2 <= lim);
        }
    }
    Ok(bufs)
}

/// Decodes the successors of node `v` through the offset list, rebuilding
/// the back-reference window from the predecessors in reach.  On valid
/// offsets the result is the list that the sequential pass decodes for
/// `v`: sequential and random access agree.
#[verifier::rlimit(100)]
pub fn random_successors(
    cr: &mut DefaultCodesReader,
    offsets: &Vec<usize>,
    v: usize,
    window: usize,
    min_len: u64,
) -> (r: Result<Vec<u64>, Error>)
    requires
        old(cr).wf(),
        v < offsets@.len(),
        window + 1 <= usize::MAX,
        offsets_valid(old(cr).words(), offsets@, v as int, window as nat, min_len as nat),
    ensures
        final(cr).wf(),
        final(cr).words() == old(cr).words(),
        match spec_decode_record(
            old(cr).words(),
            offsets@[v as int] as int,
            v as int,
            spec_decode_prefix(
                old(cr).words(),
                window as nat,
                min_len as nat,
                v as nat,
            ).unwrap().0,
            window as nat,
            min_len as nat,
        ) {
            Some((succ, p)) => r is Ok && r.unwrap()@ == succ,
            None => r is Err,
        },
    decreases v, 1int,
{
    let ghost words = cr.words();
    let ghost prev = spec_decode_prefix(words, window as nat, min_len as nat, v as nat).unwrap().0;
    proof {
        assert(spec_decode_prefix(words, window as nat, min_len as nat, v as nat) is Some);
        lemma_prefix_extends(words, window as nat, min_len as nat, v as nat, v as nat);
    }
    let bufs = match build_window(cr, offsets, v, window, min_len) {
        Ok(b) => b,
        Err(e) => {
            proof {
                assert(false);
            }
            return Err(e);
        },
    };
    match cr.set_position(offsets[v]) {
        Ok(()) => (),
        Err(_) => {
            // the offset lies past the stream, where no record can start
            proof {
                crate::bit_stream::lemma_first_one(words, offsets@[v as int] as int);
            }
            return Err(Error::ShortRead);
        },
    }
    decode_record(cr, v, window, min_len, &bufs, Ghost(prev))
}

} // verus!
