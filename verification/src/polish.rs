//! Windowed consensus polishing.
//!
//! The polishing model sits behind a small capability: fit on a window,
//! polish a window draft against its pileup, and draft a consensus from
//! scratch. Any implementation meeting the contract is substitutable; the
//! contract is exactly the alignment bookkeeping the stitching relies on.

use crate::align::{global_align, MAX_ALIGN_LEN};
use crate::util::seq_sorted;
use crate::ops::{query_len, ref_len, repeat_op, Op};
use vstd::prelude::*;

verus! {

/// How often one window is re-polished and the model re-fitted per round.
pub const FIX_TIME: usize = 1;

#[derive(Debug, Clone)]
pub struct PolishConfig {
    pub seed: u64,
    pub min_coverage: usize,
    pub window_size: usize,
    pub radius: usize,
    pub round_num: usize,
}

impl PolishConfig {
    pub fn new(seed: u64, min_coverage: usize, window_size: usize, radius: usize, round_num: usize)
        -> (r: PolishConfig)
        ensures
            r.seed == seed,
            r.min_coverage == min_coverage,
            r.window_size == window_size,
            r.radius == radius,
            r.round_num == round_num,
    {
        PolishConfig { seed, min_coverage, window_size, radius, round_num }
    }
}

impl Default for PolishConfig {
    fn default() -> (r: Self)
        ensures
            r.seed == 0,
            r.min_coverage == 3,
            r.window_size == 2000,
            r.radius == 100,
            r.round_num == 2,
    {
        PolishConfig { seed: 0, min_coverage: 3, window_size: 2000, radius: 100, round_num: 2 }
    }
}

/// A window polishing model: a pair-HMM in the full pipeline. Whatever the
/// model, a polished window must keep every query spelled by its ops and
/// every op row spanning the new draft.
pub trait Polisher: Sized {
    /// Train the model on one window pileup.
    fn fit(&mut self, draft: &Vec<u8>, seqs: &Vec<Vec<u8>>, opss: &Vec<Vec<Op>>, radius: usize);

    /// Polish one window draft against its pileup, re-fitting the ops.
    fn polish_window(
        &self,
        draft: &Vec<u8>,
        seqs: &Vec<Vec<u8>>,
        opss: &mut Vec<Vec<Op>>,
        radius: usize,
    ) -> (r: Vec<u8>)
        requires
            old(opss)@.len() == seqs@.len(),
            draft@.len() <= MAX_ALIGN_LEN,
            forall|i: int| 0 <= i < seqs@.len() ==> (#[trigger] seqs@[i])@.len() <= MAX_ALIGN_LEN,
            forall|i: int|
                0 <= i < seqs@.len() ==> query_len((#[trigger] old(opss)@[i])@)
                    == seqs@[i]@.len() && ref_len(old(opss)@[i]@) == draft@.len(),
        ensures
            final(opss)@.len() == seqs@.len(),
            r@.len() <= MAX_ALIGN_LEN,
            forall|i: int|
                0 <= i < seqs@.len() ==> query_len((#[trigger] final(opss)@[i])@)
                    == seqs@[i]@.len() && ref_len(final(opss)@[i]@) == r@.len(),
    ;

    /// Draft a consensus of the pileup from scratch.
    fn consensus(&self, seqs: &Vec<Vec<u8>>, radius: usize) -> (r: Vec<u8>)
        ensures
            r@.len() <= MAX_ALIGN_LEN,
    ;
}

/// The identity model: it keeps every draft as it is and re-derives the ops
/// by plain alignment. Zero polishing rounds and this model leave a contig
/// byte-for-byte unchanged.
#[derive(Debug, Clone)]
pub struct IdentityPolisher;

impl Polisher for IdentityPolisher {
    fn fit(&mut self, draft: &Vec<u8>, seqs: &Vec<Vec<u8>>, opss: &Vec<Vec<Op>>, radius: usize) {
    }

    fn polish_window(
        &self,
        draft: &Vec<u8>,
        seqs: &Vec<Vec<u8>>,
        opss: &mut Vec<Vec<Op>>,
        radius: usize,
    ) -> (r: Vec<u8>) {
        let r = crate::util::vec_slice(draft, 0, draft.len());
        proof {
            assert(r@ =~= draft@);
        }
        let mut out: Vec<Vec<Op>> = Vec::new();
        let mut i: usize = 0;
        while i < seqs.len()
            invariant
                i <= seqs@.len(),
                out@.len() == i,
                r@ == draft@,
                draft@.len() <= MAX_ALIGN_LEN,
                forall|k: int|
                    0 <= k < seqs@.len() ==> (#[trigger] seqs@[k])@.len() <= MAX_ALIGN_LEN,
                forall|k: int|
                    0 <= k < i ==> query_len((#[trigger] out@[k])@) == seqs@[k]@.len() && ref_len(
                        out@[k]@,
                    ) == r@.len(),
            decreases seqs@.len() - i,
        {
            let ops = global_align(&seqs[i], &r);
            out.push(ops);
            i += 1;
        }
        *opss = out;
        r
    }

    fn consensus(&self, seqs: &Vec<Vec<u8>>, radius: usize) -> (r: Vec<u8>) {
        if seqs.len() > 0 && seqs[0].len() <= MAX_ALIGN_LEN {
            let r = crate::util::vec_slice(&seqs[0], 0, seqs[0].len());
            r
        } else {
            Vec::new()
        }
    }
}

/// The lengths of a pileup's queries, in order.
pub open spec fn lens_of(seqs: Seq<Vec<u8>>) -> Seq<usize> {
    Seq::new(seqs.len(), |i: int| seqs[i]@.len() as usize)
}

/// The middle value of a pileup's query lengths, by rank.
pub open spec fn median_of(seqs: Seq<Vec<u8>>) -> usize {
    crate::util::sorted_of(lens_of(seqs))[seqs.len() as int / 2]
}

/// The middle element of the lengths of `seqs`, by rank.
pub fn length_median(seqs: &Vec<Vec<u8>>) -> (r: usize)
    requires
        seqs@.len() > 0,
    ensures
        r == median_of(seqs@),
        exists|i: int| 0 <= i < seqs@.len() && r == (#[trigger] seqs@[i])@.len(),
{
    let mut lens: Vec<usize> = Vec::new();
    let mut i: usize = 0;
    while i < seqs.len()
        invariant
            i <= seqs@.len(),
            lens@.len() == i,
            forall|k: int| 0 <= k < i ==> (#[trigger] lens@[k]) == seqs@[k]@.len(),
        decreases seqs@.len() - i,
    {
        lens.push(seqs[i].len());
        i += 1;
    }
    let sorted = crate::util::sort_usize(&lens);
    let idx = seqs.len() / 2;
    let r = sorted[idx];
    proof {
        broadcast use vstd::seq_lib::group_to_multiset_ensures;

        assert(sorted@.to_multiset().count(r) > 0) by {
            assert(sorted@.contains(r));
        }
        assert(lens@.contains(r));
        let j = choose|j: int| 0 <= j < lens@.len() && lens@[j] == r;
        assert(seqs@[j]@.len() == r);
        // the exec sort realizes the unique sorted arrangement
        assert(lens@ =~= lens_of(seqs@));
        assert(seq_sorted(sorted@) && sorted@.to_multiset() == lens_of(seqs@).to_multiset());
        let t = crate::util::sorted_of(lens_of(seqs@));
        assert(crate::util::seq_sorted(t) && t.to_multiset() == lens_of(seqs@).to_multiset());
        crate::util::lemma_sorted_unique(sorted@, t);
    }
    r
}

/// Whether `len` lies within twenty percent of `median`.
pub fn within_range(median: usize, len: usize) -> (r: bool)
    ensures
        r <==> 5 * (if median >= len {
            median - len
        } else {
            len - median
        }) < median,
{
    let diff = if median >= len {
        median - len
    } else {
        len - median
    };
    if median == 0 {
        return false;
    }
    let ok = diff <= (median - 1) / 5;
    proof {
        vstd::arithmetic::div_mod::lemma_fundamental_div_mod((median - 1) as int, 5int);
        assert(diff <= (median - 1) / 5 <==> 5 * diff < median) by (nonlinear_arith)
            requires
                median >= 1,
                (median - 1) as int == 5int * ((median - 1) as int / 5int) + (median - 1) as int
                    % 5int,
                0 <= (median - 1) as int % 5int < 5,
        ;
    }
    ok
}

/// Replace every op row by pure insertions: the window is dropped from the
/// reference, its queries keep their bases.
pub fn remove_reference(opss: &mut Vec<Vec<Op>>, seqs: &Vec<Vec<u8>>)
    requires
        old(opss)@.len() == seqs@.len(),
    ensures
        final(opss)@.len() == seqs@.len(),
        forall|i: int|
            0 <= i < seqs@.len() ==> (#[trigger] final(opss)@[i])@ == repeat_op(
                Op::Ins,
                seqs@[i]@.len() as int,
            ),
        forall|i: int|
            0 <= i < seqs@.len() ==> query_len((#[trigger] final(opss)@[i])@) == seqs@[i]@.len()
                && ref_len(final(opss)@[i]@) == 0,
{
    let mut out: Vec<Vec<Op>> = Vec::new();
    let mut i: usize = 0;
    while i < seqs.len()
        invariant
            i <= seqs@.len(),
            out@.len() == i,
            forall|k: int|
                0 <= k < i ==> (#[trigger] out@[k])@ == repeat_op(Op::Ins, seqs@[k]@.len() as int),
            forall|k: int|
                0 <= k < i ==> query_len((#[trigger] out@[k])@) == seqs@[k]@.len() && ref_len(
                    out@[k]@,
                ) == 0,
        decreases seqs@.len() - i,
    {
        let mut ops: Vec<Op> = Vec::new();
        crate::ops::extend_repeat(&mut ops, Op::Ins, seqs[i].len());
        proof {
            crate::ops::lemma_spans_repeat(Op::Ins, seqs@[i as int]@.len() as int);
            assert(ops@ =~= repeat_op(Op::Ins, seqs@[i as int]@.len() as int));
        }
        out.push(ops);
        i += 1;
    }
    *opss = out;
}

/// Queries within twenty percent of the median length are kept for the
/// model; the rest are set aside and re-aligned afterwards.
#[verifier::loop_isolation(false)]
#[verifier::spinoff_prover]
#[verifier::rlimit(60)]
pub fn split_sequences(
    seqs: &Vec<Vec<u8>>,
    opss: &Vec<Vec<Op>>,
    median: usize,
    dlen: usize,
) -> (r: (Vec<Vec<u8>>, Vec<Vec<Op>>, Vec<usize>, Vec<bool>))
    requires
        opss@.len() == seqs@.len(),
        forall|i: int| 0 <= i < seqs@.len() ==> (#[trigger] seqs@[i])@.len() <= MAX_ALIGN_LEN,
        forall|i: int|
            0 <= i < seqs@.len() ==> query_len((#[trigger] opss@[i])@) == seqs@[i]@.len()
                && ref_len(opss@[i]@) == dlen,
    ensures
        forall|j: int|
            0 <= j < r.0@.len() ==> (#[trigger] r.0@[j])@.len() <= MAX_ALIGN_LEN && query_len(
                r.1@[j]@,
            ) == r.0@[j]@.len() && ref_len(r.1@[j]@) == dlen,
        r.2@.len() == seqs@.len(),
        r.3@.len() == seqs@.len(),
        r.0@.len() == r.1@.len(),
        forall|i: int|
            0 <= i < seqs@.len() ==> ((#[trigger] r.3@[i]) <==> 5 * (if median
                >= seqs@[i]@.len() {
                median - seqs@[i]@.len()
            } else {
                seqs@[i]@.len() - median
            }) < median),
        forall|i: int|
            0 <= i < seqs@.len() && r.3@[i] ==> (#[trigger] r.2@[i]) < r.0@.len()
                && r.0@[r.2@[i] as int]@ == seqs@[i]@ && r.1@[r.2@[i] as int]@ == opss@[i]@,
{
    let mut use_seqs: Vec<Vec<u8>> = Vec::new();
    let mut use_opss: Vec<Vec<Op>> = Vec::new();
    let mut pos: Vec<usize> = Vec::new();
    let mut in_band: Vec<bool> = Vec::new();
    let mut i: usize = 0;
    while i < seqs.len()
        invariant
            i <= seqs@.len(),
            opss@.len() == seqs@.len(),
            pos@.len() == i,
            in_band@.len() == i,
            use_seqs@.len() == use_opss@.len(),
            forall|j: int|
                0 <= j < use_seqs@.len() ==> (#[trigger] use_seqs@[j])@.len() <= MAX_ALIGN_LEN
                    && query_len(use_opss@[j]@) == use_seqs@[j]@.len() && ref_len(use_opss@[j]@)
                    == dlen,
            forall|k: int|
                0 <= k < i ==> ((#[trigger] in_band@[k]) <==> 5 * (if median
                    >= seqs@[k]@.len() {
                    median - seqs@[k]@.len()
                } else {
                    seqs@[k]@.len() - median
                }) < median),
            forall|k: int|
                0 <= k < i && in_band@[k] ==> (#[trigger] pos@[k]) < use_seqs@.len()
                    && use_seqs@[pos@[k] as int]@ == seqs@[k]@ && use_opss@[pos@[k] as int]@
                    == opss@[k]@,
        decreases seqs@.len() - i,
    {
        let keep = within_range(median, seqs[i].len());
        if keep {
            let ghost old_use_seqs = use_seqs@;
            let ghost old_use_opss = use_opss@;
            pos.push(use_seqs.len());
            use_seqs.push(crate::util::vec_slice(&seqs[i], 0, seqs[i].len()));
            use_opss.push(crate::util::vec_slice(&opss[i], 0, opss[i].len()));
            proof {
                assert(use_seqs@.last()@ =~= seqs@[i as int]@);
                assert(use_opss@.last()@ =~= opss@[i as int]@);
                assert forall|j: int| 0 <= j < use_seqs@.len() implies (#[trigger] use_seqs@[j])@.len()
                    <= MAX_ALIGN_LEN && query_len(use_opss@[j]@) == use_seqs@[j]@.len() && ref_len(
                    use_opss@[j]@,
                ) == dlen by {
                    if j < use_seqs@.len() - 1 {
                        assert(use_seqs@[j] == old_use_seqs[j]);
                        assert(use_opss@[j] == old_use_opss[j]);
                        assert(old_use_seqs[j]@.len() <= MAX_ALIGN_LEN);
                        assert(query_len(old_use_opss[j]@) == old_use_seqs[j]@.len());
                        assert(ref_len(old_use_opss[j]@) == dlen);
                    } else {
                        assert(use_seqs@[j]@ == seqs@[i as int]@);
                        assert(use_opss@[j]@ == opss@[i as int]@);
                        assert(seqs@[i as int]@.len() <= MAX_ALIGN_LEN);
                        assert(query_len(opss@[i as int]@) == seqs@[i as int]@.len());
                        assert(ref_len(opss@[i as int]@) == dlen);
                    }
                }
            }
        } else {
            pos.push(0);
        }
        in_band.push(keep);
        i += 1;
    }
    (use_seqs, use_opss, pos, in_band)
}

/// Polish one window: keep the in-band queries, polish against them (with a
/// fresh consensus when the draft is far from the median length), re-fit the
/// model, and re-align the out-of-band queries to the result.
pub fn polish_seg<P: Polisher + Clone>(
    model: &P,
    draft: &Vec<u8>,
    seqs: &Vec<Vec<u8>>,
    opss: Vec<Vec<Op>>,
    radius: usize,
) -> (r: (Vec<u8>, Vec<Vec<Op>>))
    requires
        seqs@.len() > 0,
        opss@.len() == seqs@.len(),
        draft@.len() <= MAX_ALIGN_LEN,
        forall|i: int| 0 <= i < seqs@.len() ==> (#[trigger] seqs@[i])@.len() <= MAX_ALIGN_LEN,
        forall|i: int|
            0 <= i < seqs@.len() ==> query_len((#[trigger] opss@[i])@) == seqs@[i]@.len()
                && ref_len(opss@[i]@) == draft@.len(),
    ensures
        r.1@.len() == seqs@.len(),
        r.0@.len() <= MAX_ALIGN_LEN,
        forall|i: int|
            0 <= i < seqs@.len() ==> query_len((#[trigger] r.1@[i])@) == seqs@[i]@.len()
                && ref_len(r.1@[i]@) == r.0@.len(),
        median_of(seqs@) == 0 ==> r.0@.len() == 0 && (forall|i: int|
            0 <= i < seqs@.len() ==> (#[trigger] r.1@[i])@ == repeat_op(
                Op::Ins,
                seqs@[i]@.len() as int,
            )),
        // out-of-band queries are re-aligned directly against the result
        median_of(seqs@) > 0 ==> (forall|i: int|
            0 <= i < seqs@.len() && !(5 * (if median_of(seqs@) >= seqs@[i]@.len() {
                median_of(seqs@) - seqs@[i]@.len()
            } else {
                seqs@[i]@.len() - median_of(seqs@)
            }) < median_of(seqs@)) ==> (#[trigger] r.1@[i])@ == crate::align::global_spec(
                seqs@[i]@,
                r.0@,
            )),
{
    let median = length_median(seqs);
    if median == 0 {
        let mut opss = opss;
        remove_reference(&mut opss, seqs);
        let empty: Vec<u8> = Vec::new();
        return (empty, opss);
    }
    let (use_seqs, mut use_opss, pos, in_band) = split_sequences(seqs, &opss, median, draft.len());
    let draft2 = if within_range(draft.len(), median) {
        model.polish_window(draft, &use_seqs, &mut use_opss, radius)
    } else {
        let cons = model.consensus(&use_seqs, radius);
        let mut fresh: Vec<Vec<Op>> = Vec::new();
        let mut i: usize = 0;
        while i < use_seqs.len()
            invariant
                i <= use_seqs@.len(),
                fresh@.len() == i,
                cons@.len() <= MAX_ALIGN_LEN,
                forall|k: int|
                    0 <= k < use_seqs@.len() ==> (#[trigger] use_seqs@[k])@.len()
                        <= MAX_ALIGN_LEN,
                forall|k: int|
                    0 <= k < i ==> query_len((#[trigger] fresh@[k])@) == use_seqs@[k]@.len()
                        && ref_len(fresh@[k]@) == cons@.len(),
            decreases use_seqs@.len() - i,
        {
            fresh.push(global_align(&use_seqs[i], &cons));
            i += 1;
        }
        use_opss = fresh;
        model.polish_window(&cons, &use_seqs, &mut use_opss, radius)
    };
    let mut fitted = model.clone();
    let mut polished = draft2;
    let mut t: usize = 0;
    while t < FIX_TIME
        invariant
            use_opss@.len() == use_seqs@.len(),
            polished@.len() <= MAX_ALIGN_LEN,
            forall|k: int|
                0 <= k < use_seqs@.len() ==> (#[trigger] use_seqs@[k])@.len() <= MAX_ALIGN_LEN,
            forall|k: int|
                0 <= k < use_seqs@.len() ==> query_len((#[trigger] use_opss@[k])@)
                    == use_seqs@[k]@.len() && ref_len(use_opss@[k]@) == polished@.len(),
        decreases FIX_TIME - t,
    {
        polished = fitted.polish_window(&polished, &use_seqs, &mut use_opss, radius);
        fitted.fit(&polished, &use_seqs, &use_opss, radius);
        t += 1;
    }
    // reassemble the op rows in the original query order
    let mut out: Vec<Vec<Op>> = Vec::new();
    let mut i: usize = 0;
    while i < seqs.len()
        invariant
            i <= seqs@.len(),
            out@.len() == i,
            opss@.len() == seqs@.len(),
            pos@.len() == seqs@.len(),
            in_band@.len() == seqs@.len(),
            use_opss@.len() == use_seqs@.len(),
            polished@.len() <= MAX_ALIGN_LEN,
            forall|k: int|
                0 <= k < seqs@.len() ==> (#[trigger] seqs@[k])@.len() <= MAX_ALIGN_LEN,
            forall|k: int|
                0 <= k < use_seqs@.len() ==> query_len((#[trigger] use_opss@[k])@)
                    == use_seqs@[k]@.len() && ref_len(use_opss@[k]@) == polished@.len(),
            forall|k: int|
                0 <= k < seqs@.len() && in_band@[k] ==> (#[trigger] pos@[k]) < use_seqs@.len()
                    && use_seqs@[pos@[k] as int]@ == seqs@[k]@,
            forall|k: int|
                0 <= k < i ==> query_len((#[trigger] out@[k])@) == seqs@[k]@.len() && ref_len(
                    out@[k]@,
                ) == polished@.len(),
            forall|k: int|
                0 <= k < i && !in_band@[k] ==> (#[trigger] out@[k])@ == crate::align::global_spec(
                    seqs@[k]@,
                    polished@,
                ),
        decreases seqs@.len() - i,
    {
        if in_band[i] {
            let p = pos[i];
            let row = crate::util::vec_slice(&use_opss[p], 0, use_opss[p].len());
            proof {
                assert(row@ =~= use_opss@[p as int]@);
            }
            out.push(row);
        } else {
            out.push(global_align(&seqs[i], &polished));
        }
        i += 1;
    }
    (polished, out)
}

/// The contig cut into windows: all of length `window` but the last.
pub fn chop_windows(contig: &Vec<u8>, window: usize) -> (r: Vec<Vec<u8>>)
    requires
        window >= 1,
        contig@.len() + window <= usize::MAX,
    ensures
        contig@.len() <= r@.len() * window,
        r@.len() >= 1 ==> contig@.len() > (r@.len() - 1) * window,
        contig@.len() == 0 ==> r@.len() == 0,
        r@.len() * window <= contig@.len() + window,
        forall|i: int|
            0 <= i < r@.len() ==> (#[trigger] r@[i])@.len() == crate::splitjoin::win_len(
                contig@.len() as int,
                window as int,
                i,
            ),
        forall|i: int|
            0 <= i < r@.len() ==> (#[trigger] r@[i])@ == contig@.subrange(
                i * window,
                i * window + crate::splitjoin::win_len(contig@.len() as int, window as int, i),
            ),
    decreases contig@.len(),
{
    let len = contig.len();
    let mut r: Vec<Vec<u8>> = Vec::new();
    let mut lo: usize = 0;
    while lo < len
        invariant
            window >= 1,
            len == contig@.len(),
            len + window <= usize::MAX,
            lo <= len,
            lo == r@.len() * window || (lo == len && r@.len() >= 1 && len <= r@.len() * window),
            r@.len() >= 1 ==> len > (r@.len() - 1) * window,
            lo >= r@.len() ==> lo == r@.len() * window || lo == len,
            (r@.len() - 1) * window < len || r@.len() == 0,
            forall|i: int|
                0 <= i < r@.len() ==> (#[trigger] r@[i])@.len() == crate::splitjoin::win_len(
                    len as int,
                    window as int,
                    i,
                ),
            forall|i: int|
                0 <= i < r@.len() ==> (#[trigger] r@[i])@ == contig@.subrange(
                    i * window,
                    i * window + crate::splitjoin::win_len(len as int, window as int, i),
                ),
        decreases len - lo,
    {
        proof {
            assert(lo == r@.len() * window);
        }
        let hi = if lo + window <= len {
            lo + window
        } else {
            len
        };
        let piece = crate::util::vec_slice(contig, lo, hi);
        let ghost n = r@.len() as int;
        r.push(piece);
        proof {
            assert((n + 1) * window == n * window + window) by (nonlinear_arith);
            assert(r@[n]@.len() == hi - lo);
            assert(crate::splitjoin::win_len(len as int, window as int, n) == hi - lo);
            assert(forall|i: int| 0 <= i < n ==> r@[i] == r@.subrange(0, n)[i]);
        }
        lo = hi;
    }
    proof {
        if r@.len() >= 1 {
            assert(len <= r@.len() * window);
            assert(r@.len() * window <= len + window) by (nonlinear_arith)
                requires
                    (r@.len() - 1) * window < len,
                    window >= 1,
            ;
        }
    }
    r
}

/// Total query bases of the pileup slices named by an allocation list.
pub open spec fn alloc_seqlen(alloc: Seq<(usize, usize)>, seqs: Seq<Vec<Vec<u8>>>) -> int
    decreases alloc.len(),
{
    if alloc.len() == 0 {
        0
    } else {
        alloc_seqlen(alloc.drop_last(), seqs) + seqs[alloc.last().0 as int]@[alloc.last().1 as int]@.len()
    }
}

/// Slots an allocation list names exist in the pileup.
pub open spec fn alloc_in_bounds(alloc: Seq<(usize, usize)>, seqs: Seq<Vec<Vec<u8>>>) -> bool {
    forall|k: int|
        0 <= k < alloc.len() ==> (#[trigger] alloc[k]).0 < seqs.len() && alloc[k].1
            < seqs[alloc[k].0 as int]@.len()
}

/// One pileup extends another: same window count, rows only grow.
pub open spec fn rows_extend(s1: Seq<Vec<Vec<u8>>>, s2: Seq<Vec<Vec<u8>>>) -> bool {
    &&& s1.len() == s2.len()
    &&& forall|w: int|
        0 <= w < s1.len() ==> (#[trigger] s1[w])@.len() <= s2[w]@.len() && (forall|s: int|
            0 <= s < s1[w]@.len() ==> (#[trigger] s1[w]@[s])@ == s2[w]@[s]@)
}

/// Growing the pileup moves no slice an allocation list names.
pub proof fn lemma_alloc_seqlen_stable(
    alloc: Seq<(usize, usize)>,
    s1: Seq<Vec<Vec<u8>>>,
    s2: Seq<Vec<Vec<u8>>>,
)
    requires
        alloc_in_bounds(alloc, s1),
        rows_extend(s1, s2),
    ensures
        alloc_seqlen(alloc, s2) == alloc_seqlen(alloc, s1),
        alloc_in_bounds(alloc, s2),
    decreases alloc.len(),
{
    if alloc.len() > 0 {
        assert(alloc_in_bounds(alloc.drop_last(), s1)) by {
            assert(forall|k: int|
                0 <= k < alloc.len() - 1 ==> alloc.drop_last()[k] == alloc[k]);
        }
        lemma_alloc_seqlen_stable(alloc.drop_last(), s1, s2);
        let w = alloc.last().0 as int;
        let sl = alloc.last().1 as int;
        assert(s1[w]@[sl]@ == s2[w]@[sl]@);
    }
}

/// When every named slot spells its slice, the ops and the slices cover the
/// same number of query bases.
pub proof fn lemma_alloc_qlen_from_seqlen(
    alloc: Seq<(usize, usize)>,
    seqs: Seq<Vec<Vec<u8>>>,
    opss: Seq<Vec<Vec<Op>>>,
)
    requires
        alloc_in_bounds(alloc, seqs),
        opss.len() == seqs.len(),
        forall|w: int| 0 <= w < seqs.len() ==> (#[trigger] opss[w])@.len() == seqs[w]@.len(),
        forall|w: int, s: int|
            0 <= w < seqs.len() && 0 <= s < seqs[w]@.len() ==> query_len(
                (#[trigger] opss[w]@[s])@,
            ) == seqs[w]@[s]@.len(),
    ensures
        crate::splitjoin::alloc_qlen(alloc, opss) == alloc_seqlen(alloc, seqs),
    decreases alloc.len(),
{
    if alloc.len() > 0 {
        assert(alloc_in_bounds(alloc.drop_last(), seqs)) by {
            assert(forall|k: int|
                0 <= k < alloc.len() - 1 ==> alloc.drop_last()[k] == alloc[k]);
        }
        lemma_alloc_qlen_from_seqlen(alloc.drop_last(), seqs, opss);
        let w = alloc.last().0 as int;
        let sl = alloc.last().1 as int;
        assert(query_len(opss[w]@[sl]@) == seqs[w]@[sl]@.len());
    }
}

/// Where one alignment's pieces went: the two tip records and, per piece,
/// the (window, slot) it occupies in the pileup.
pub struct AlnPlan {
    pub st: (usize, usize),
    pub alloc: Vec<(usize, usize)>,
    pub en: (usize, usize),
}

/// A plan is sound against a pileup: its slots exist, cover the query range
/// between the tips, and run over consecutive windows.
pub open spec fn plan_wf(
    st: (usize, usize),
    alloc: Seq<(usize, usize)>,
    en: (usize, usize),
    qtotal: int,
    seqs: Seq<Vec<Vec<u8>>>,
    window_num: int,
) -> bool {
    &&& st.0 <= en.0 <= qtotal
    &&& st.1 <= window_num
    &&& en.1 <= window_num
    &&& (st.0 > 0 ==> st.1 + 1 <= window_num)
    &&& seqs.len() == window_num
    &&& alloc_in_bounds(alloc, seqs)
    &&& alloc_seqlen(alloc, seqs) == en.0 - st.0
    &&& (forall|i: int|
        0 <= i < alloc.len() ==> (#[trigger] alloc[i]).0 == crate::splitjoin::first_window(st) + i)
    &&& (alloc.len() > 0 ==> crate::splitjoin::first_window(st) + alloc.len() <= window_num
        && en.1 == crate::splitjoin::first_window(st) + alloc.len())
    &&& (alloc.len() == 0 ==> en.0 == st.0 && (en.1 == st.1 || en.1
        == crate::splitjoin::first_window(st)))
}

/// Rows of a window pileup in lockstep: the op rows mirror the slice rows
/// and every op row spans its window of a contig of `contig_len` bases.
pub open spec fn pileup_wf(
    seqs: Seq<Vec<Vec<u8>>>,
    opss: Seq<Vec<Vec<Op>>>,
    contig_len: int,
    window: int,
) -> bool {
    &&& opss.len() == seqs.len()
    &&& (forall|w: int| 0 <= w < seqs.len() ==> (#[trigger] opss[w])@.len() == seqs[w]@.len())
    &&& (forall|w: int, sl: int|
        0 <= w < seqs.len() && 0 <= sl < seqs[w]@.len() ==> query_len((#[trigger] opss[w]@[sl])@)
            == seqs[w]@[sl]@.len() && ref_len(opss[w]@[sl]@) == crate::splitjoin::win_len(
            contig_len,
            window,
            w,
        ) && seqs[w]@[sl]@.len() <= MAX_ALIGN_LEN)
}

proof fn lemma_chunks_qlen_prefix(chunks: Seq<crate::splitjoin::ChunkPiece>, i: int)
    requires
        0 <= i < chunks.len(),
    ensures
        crate::splitjoin::chunks_qlen(chunks.subrange(0, i + 1)) == crate::splitjoin::chunks_qlen(
            chunks.subrange(0, i),
        ) + chunks[i].seq@.len(),
{
    assert(chunks.subrange(0, i + 1).drop_last() =~= chunks.subrange(0, i));
    assert(chunks.subrange(0, i + 1).last() == chunks[i]);
}

/// Drop one alignment's pieces into the pileup, row by window, and record
/// where each went.
#[verifier::loop_isolation(false)]
#[verifier::rlimit(60)]
pub fn place_chunks(
    chunks: &Vec<crate::splitjoin::ChunkPiece>,
    pileup_seqs: &mut Vec<Vec<Vec<u8>>>,
    pileup_ops: &mut Vec<Vec<Vec<Op>>>,
    Ghost(contig_len): Ghost<int>,
    Ghost(window): Ghost<int>,
) -> (alloc: Vec<(usize, usize)>)
    requires
        pileup_wf(old(pileup_seqs)@, old(pileup_ops)@, contig_len, window),
        forall|i: int|
            0 <= i < chunks@.len() ==> (#[trigger] chunks@[i]).window < old(pileup_seqs)@.len(),
        forall|i: int|
            0 <= i < chunks@.len() ==> query_len((#[trigger] chunks@[i]).ops@)
                == chunks@[i].seq@.len() && ref_len(chunks@[i].ops@) == crate::splitjoin::win_len(
                contig_len,
                window,
                chunks@[i].window as int,
            ) && chunks@[i].seq@.len() <= MAX_ALIGN_LEN,
    ensures
        pileup_wf(final(pileup_seqs)@, final(pileup_ops)@, contig_len, window),
        rows_extend(old(pileup_seqs)@, final(pileup_seqs)@),
        alloc@.len() == chunks@.len(),
        forall|k: int| 0 <= k < alloc@.len() ==> (#[trigger] alloc@[k]).0 == chunks@[k].window,
        alloc_in_bounds(alloc@, final(pileup_seqs)@),
        alloc_seqlen(alloc@, final(pileup_seqs)@) == crate::splitjoin::chunks_qlen(chunks@),
        // every piece's slice sits in the pileup at the slot recorded for it
        forall|k: int|
            0 <= k < alloc@.len() ==> final(pileup_seqs)@[(#[trigger] alloc@[k]).0 as int]@[
                alloc@[k].1 as int]@ == chunks@[k].seq@,
        forall|k: int|
            0 <= k < alloc@.len() ==> final(pileup_ops)@[(#[trigger] alloc@[k]).0 as int]@[
                alloc@[k].1 as int]@ == chunks@[k].ops@,
{
    let mut alloc: Vec<(usize, usize)> = Vec::new();
    let mut c: usize = 0;
    proof {
        assert(chunks@.subrange(0, 0) =~= Seq::<crate::splitjoin::ChunkPiece>::empty());
        assert(alloc@ =~= Seq::<(usize, usize)>::empty());
    }
    while c < chunks.len()
        invariant
            c <= chunks@.len(),
            pileup_wf(pileup_seqs@, pileup_ops@, contig_len, window),
            rows_extend(old(pileup_seqs)@, pileup_seqs@),
            alloc@.len() == c,
            forall|k: int| 0 <= k < c ==> (#[trigger] alloc@[k]).0 == chunks@[k].window,
            alloc_in_bounds(alloc@, pileup_seqs@),
            alloc_seqlen(alloc@, pileup_seqs@) == crate::splitjoin::chunks_qlen(
                chunks@.subrange(0, c as int),
            ),
            pileup_ops@.len() == pileup_seqs@.len(),
            forall|k: int|
                0 <= k < alloc@.len() ==> pileup_seqs@[(#[trigger] alloc@[k]).0 as int]@[
                    alloc@[k].1 as int]@ == chunks@[k].seq@,
            forall|k: int|
                0 <= k < alloc@.len() ==> pileup_ops@[(#[trigger] alloc@[k]).0 as int]@[
                    alloc@[k].1 as int]@ == chunks@[k].ops@,
        decreases chunks@.len() - c,
    {
        let w = chunks[c].window;
        let ghost pre_seqs = pileup_seqs@;
        let ghost pre_ops = pileup_ops@;
        let ghost pre_alloc = alloc@;
        let mut row_s = pileup_seqs.remove(w);
        let slot = row_s.len();
        row_s.push(crate::util::vec_slice(&chunks[c].seq, 0, chunks[c].seq.len()));
        pileup_seqs.insert(w, row_s);
        let mut row_o = pileup_ops.remove(w);
        row_o.push(crate::util::vec_slice(&chunks[c].ops, 0, chunks[c].ops.len()));
        pileup_ops.insert(w, row_o);
        alloc.push((w, slot));
        proof {
            assert(pileup_seqs@ =~= pre_seqs.update(
                w as int,
                pileup_seqs@[w as int],
            ));
            assert(pileup_ops@ =~= pre_ops.update(w as int, pileup_ops@[w as int]));
            assert(pileup_seqs@[w as int]@ =~= pre_seqs[w as int]@.push(
                pileup_seqs@[w as int]@.last(),
            ));
            assert(pileup_ops@[w as int]@ =~= pre_ops[w as int]@.push(
                pileup_ops@[w as int]@.last(),
            ));
            assert(pileup_seqs@[w as int]@.last()@ =~= chunks@[c as int].seq@);
            assert(pileup_ops@[w as int]@.last()@ =~= chunks@[c as int].ops@);
            assert(rows_extend(pre_seqs, pileup_seqs@));
            assert(rows_extend(old(pileup_seqs)@, pileup_seqs@));
            lemma_alloc_seqlen_stable(pre_alloc, pre_seqs, pileup_seqs@);
            assert(alloc@.drop_last() =~= pre_alloc);
            lemma_chunks_qlen_prefix(chunks@, c as int);
            assert(chunks@.subrange(0, c as int + 1) =~= chunks@.subrange(0, c as int).push(
                chunks@[c as int],
            ));
            assert(alloc_seqlen(alloc@, pileup_seqs@) == alloc_seqlen(pre_alloc, pileup_seqs@)
                + pileup_seqs@[w as int]@[slot as int]@.len());
            assert forall|k: int| 0 <= k < alloc@.len() implies pileup_seqs@[(
            #[trigger] alloc@[k]).0 as int]@[alloc@[k].1 as int]@ == chunks@[k].seq@
                && pileup_ops@[alloc@[k].0 as int]@[alloc@[k].1 as int]@ == chunks@[k].ops@ by {
                if k < pre_alloc.len() {
                    assert(alloc@[k] == pre_alloc[k]);
                    assert(pre_seqs[alloc@[k].0 as int]@[alloc@[k].1 as int]@ == chunks@[k].seq@);
                    assert(pre_ops[alloc@[k].0 as int]@[alloc@[k].1 as int]@ == chunks@[k].ops@);
                    if alloc@[k].0 == w as int {
                        assert(pileup_seqs@[w as int]@[alloc@[k].1 as int]
                            == pre_seqs[w as int]@[alloc@[k].1 as int]);
                        assert(pileup_ops@[w as int]@[alloc@[k].1 as int]
                            == pre_ops[w as int]@[alloc@[k].1 as int]);
                    }
                } else {
                    assert(alloc@[k] == (w, slot));
                }
            }
            assert(pileup_wf(pileup_seqs@, pileup_ops@, contig_len, window)) by {
                assert forall|w2: int, sl: int|
                    0 <= w2 < pileup_seqs@.len() && 0 <= sl < pileup_seqs@[w2]@.len() implies
                    query_len((#[trigger] pileup_ops@[w2]@[sl])@) == pileup_seqs@[w2]@[sl]@.len()
                        && ref_len(pileup_ops@[w2]@[sl]@) == crate::splitjoin::win_len(
                        contig_len,
                        window,
                        w2,
                    ) && pileup_seqs@[w2]@[sl]@.len() <= MAX_ALIGN_LEN by {
                    if w2 == w as int && sl == slot as int {
                        assert(pileup_ops@[w2]@[sl]@ == chunks@[c as int].ops@);
                        assert(pileup_seqs@[w2]@[sl]@ == chunks@[c as int].seq@);
                    } else {
                        assert(pileup_ops@[w2]@[sl] == pre_ops[w2]@[sl]);
                        assert(pileup_seqs@[w2]@[sl] == pre_seqs[w2]@[sl]);
                    }
                }
            }
        }
        c += 1;
    }
    proof {
        assert(chunks@.subrange(0, chunks@.len() as int) =~= chunks@);
    }
    alloc
}

/// Polish every window against its pileup; a window below the coverage floor
/// keeps its draft and its ops.
#[verifier::loop_isolation(false)]
pub fn polish_windows<P: Polisher + Clone>(
    model: &P,
    windows: &Vec<Vec<u8>>,
    pileup_seqs: &Vec<Vec<Vec<u8>>>,
    pileup_ops: Vec<Vec<Vec<Op>>>,
    min_coverage: usize,
    radius: usize,
    Ghost(contig_len): Ghost<int>,
    Ghost(window): Ghost<int>,
) -> (r: (Vec<Vec<u8>>, Vec<Vec<Vec<Op>>>))
    requires
        windows@.len() == pileup_seqs@.len(),
        pileup_wf(pileup_seqs@, pileup_ops@, contig_len, window),
        forall|w: int|
            0 <= w < windows@.len() ==> (#[trigger] windows@[w])@.len()
                == crate::splitjoin::win_len(contig_len, window, w) && windows@[w]@.len()
                <= MAX_ALIGN_LEN,
    ensures
        r.0@.len() == windows@.len(),
        r.1@.len() == windows@.len(),
        forall|w: int|
            0 <= w < windows@.len() ==> (#[trigger] r.1@[w])@.len() == pileup_seqs@[w]@.len()
                && r.0@[w]@.len() <= MAX_ALIGN_LEN,
        forall|w: int, sl: int|
            0 <= w < windows@.len() && 0 <= sl < pileup_seqs@[w]@.len() ==> query_len(
                (#[trigger] r.1@[w]@[sl])@,
            ) == pileup_seqs@[w]@[sl]@.len() && ref_len(r.1@[w]@[sl]@) == r.0@[w]@.len(),
        forall|w: int|
            0 <= w < windows@.len() && (pileup_seqs@[w]@.len() == 0 || pileup_seqs@[w]@.len()
                < min_coverage) ==> (#[trigger] r.0@[w])@ == windows@[w]@ && r.1@[w]
                == pileup_ops@[w],
{
    let wn = windows.len();
    // peel the op rows off in window order
    let mut rows_rev: Vec<Vec<Vec<Op>>> = Vec::new();
    let mut pileup_ops = pileup_ops;
    let ghost orig_rows = pileup_ops@;
    while pileup_ops.len() > 0
        invariant
            rows_rev@.len() + pileup_ops@.len() == wn,
            forall|j: int|
                0 <= j < rows_rev@.len() ==> (#[trigger] rows_rev@[j]) == orig_rows[wn - 1 - j],
            forall|j: int|
                0 <= j < pileup_ops@.len() ==> (#[trigger] pileup_ops@[j]) == orig_rows[j],
        decreases pileup_ops@.len(),
    {
        let row = pileup_ops.pop().unwrap();
        rows_rev.push(row);
    }
    let mut new_windows: Vec<Vec<u8>> = Vec::new();
    let mut new_ops: Vec<Vec<Vec<Op>>> = Vec::new();
    let mut w: usize = 0;
    while w < wn
        invariant
            w <= wn,
            new_windows@.len() == w,
            new_ops@.len() == w,
            rows_rev@.len() == wn - w,
            forall|j: int|
                0 <= j < rows_rev@.len() ==> (#[trigger] rows_rev@[j]) == orig_rows[wn - 1 - j],
            forall|w2: int|
                0 <= w2 < w ==> (#[trigger] new_ops@[w2])@.len() == pileup_seqs@[w2]@.len()
                    && new_windows@[w2]@.len() <= MAX_ALIGN_LEN,
            forall|w2: int, sl: int|
                0 <= w2 < w && 0 <= sl < pileup_seqs@[w2]@.len() ==> query_len(
                    (#[trigger] new_ops@[w2]@[sl])@,
                ) == pileup_seqs@[w2]@[sl]@.len() && ref_len(new_ops@[w2]@[sl]@)
                    == new_windows@[w2]@.len(),
            forall|w2: int|
                0 <= w2 < w && (pileup_seqs@[w2]@.len() == 0 || pileup_seqs@[w2]@.len()
                    < min_coverage) ==> (#[trigger] new_windows@[w2])@ == windows@[w2]@
                    && new_ops@[w2] == orig_rows[w2],
        decreases wn - w,
    {
        let row = rows_rev.pop().unwrap();
        proof {
            assert(row == orig_rows[w as int]);
        }
        let cov = pileup_seqs[w].len();
        if cov == 0 || cov < min_coverage {
            let draft = crate::util::vec_slice(&windows[w], 0, windows[w].len());
            proof {
                assert(draft@ =~= windows@[w as int]@);
                assert(orig_rows[w as int]@.len() == pileup_seqs@[w as int]@.len());
                assert forall|sl: int| 0 <= sl < pileup_seqs@[w as int]@.len() implies query_len(
                    (#[trigger] row@[sl])@,
                ) == pileup_seqs@[w as int]@[sl]@.len() && ref_len(row@[sl]@)
                    == windows@[w as int]@.len() by {
                    assert(query_len(orig_rows[w as int]@[sl]@) == pileup_seqs@[w as int]@[sl]@.len());
                }
            }
            new_windows.push(draft);
            new_ops.push(row);
        } else {
            proof {
                assert forall|sl: int| 0 <= sl < pileup_seqs@[w as int]@.len() implies (
                #[trigger] pileup_seqs@[w as int]@[sl])@.len() <= MAX_ALIGN_LEN by {
                    assert(query_len(orig_rows[w as int]@[sl]@) == pileup_seqs@[w as int]@[sl]@.len());
                }
                assert forall|sl: int| 0 <= sl < pileup_seqs@[w as int]@.len() implies query_len(
                    (#[trigger] row@[sl])@,
                ) == pileup_seqs@[w as int]@[sl]@.len() && ref_len(row@[sl]@)
                    == windows@[w as int]@.len() by {
                    assert(query_len(orig_rows[w as int]@[sl]@) == pileup_seqs@[w as int]@[sl]@.len());
                }
            }
            let (nd, nops) = polish_seg(model, &windows[w], &pileup_seqs[w], row, radius);
            new_windows.push(nd);
            new_ops.push(nops);
        }
        proof {
            assert(new_ops@[w as int]@.len() == pileup_seqs@[w as int]@.len());
            assert(new_windows@[w as int]@.len() <= MAX_ALIGN_LEN);
        }
        w += 1;
    }
    (new_windows, new_ops)
}

/// Concatenate the polished windows and compute where each starts. Nothing
/// is stitched when the result would outgrow what the aligner accepts.
#[verifier::loop_isolation(false)]
#[verifier::rlimit(60)]
pub fn stitch(new_windows: &Vec<Vec<u8>>) -> (r: Option<(Vec<u8>, Vec<usize>)>)
    ensures
        r is Some ==> {
            let (contig, acc) = r->0;
            &&& crate::splitjoin::acc_wf(acc@, contig@.len() as int)
            &&& acc@.len() == new_windows@.len() + 1
            &&& contig@.len() <= MAX_ALIGN_LEN
            &&& forall|w: int|
                0 <= w < new_windows@.len() ==> acc@[w + 1] - acc@[w]
                    == (#[trigger] new_windows@[w])@.len()
            &&& forall|w: int|
                0 <= w < new_windows@.len() ==> contig@.subrange(
                    acc@[w] as int,
                    acc@[w + 1] as int,
                ) == (#[trigger] new_windows@[w])@
        },
{
    let mut acc: Vec<usize> = Vec::new();
    let mut contig: Vec<u8> = Vec::new();
    acc.push(0);
    let mut w: usize = 0;
    while w < new_windows.len()
        invariant
            w <= new_windows@.len(),
            acc@.len() == w + 1,
            acc@[0] == 0,
            acc@.last() == contig@.len(),
            contig@.len() <= MAX_ALIGN_LEN,
            forall|i: int| 0 <= i < acc@.len() - 1 ==> (#[trigger] acc@[i]) <= acc@[i + 1],
            forall|i: int| 0 <= i < acc@.len() ==> (#[trigger] acc@[i]) <= contig@.len(),
            forall|i: int|
                0 <= i < w ==> acc@[i + 1] - acc@[i] == (#[trigger] new_windows@[i])@.len(),
            forall|i: int|
                0 <= i < w ==> contig@.subrange(acc@[i] as int, acc@[i + 1] as int) == (
                #[trigger] new_windows@[i])@,
        decreases new_windows@.len() - w,
    {
        if new_windows[w].len() > MAX_ALIGN_LEN - contig.len() {
            return None;
        }
        let ghost pre = contig@;
        crate::util::vec_extend(&mut contig, &new_windows[w]);
        acc.push(contig.len());
        proof {
            assert(contig@.subrange(pre.len() as int, contig@.len() as int) =~= new_windows@[
                w as int]@);
            assert forall|i: int| 0 <= i < w implies contig@.subrange(
                acc@[i] as int,
                acc@[i + 1] as int,
            ) == (#[trigger] new_windows@[i])@ by {
                assert(acc@[i] <= pre.len() && acc@[i + 1] <= pre.len());
                assert(contig@.subrange(acc@[i] as int, acc@[i + 1] as int) =~= pre.subrange(
                    acc@[i] as int,
                    acc@[i + 1] as int,
                ));
            }
        }
        w += 1;
    }
    Some((contig, acc))
}

/// Pick up to three windows near the median coverage and length and train
/// the model on them.
pub fn train<P: Polisher>(
    model: &mut P,
    windows: &Vec<Vec<u8>>,
    pileup_seqs: &Vec<Vec<Vec<u8>>>,
    pileup_ops: &Vec<Vec<Vec<Op>>>,
    window: usize,
    radius: usize,
)
    requires
        pileup_seqs@.len() == windows@.len(),
        pileup_ops@.len() == windows@.len(),
{
    if windows.len() == 0 || window > usize::MAX / 4 {
        return ;
    }
    let mut covs: Vec<usize> = Vec::new();
    let mut i: usize = 0;
    while i < pileup_seqs.len()
        invariant
            i <= pileup_seqs@.len(),
            covs@.len() == i,
        decreases pileup_seqs@.len() - i,
    {
        covs.push(pileup_seqs[i].len());
        i += 1;
    }
    let sorted = crate::util::sort_usize(&covs);
    let med_cov = sorted[sorted.len() / 2];
    if med_cov > usize::MAX / 4 {
        return ;
    }
    let mut taken: usize = 0;
    let mut w: usize = 0;
    while w < windows.len()
        invariant
            w <= windows@.len(),
            pileup_seqs@.len() == windows@.len(),
            pileup_ops@.len() == windows@.len(),
            window <= usize::MAX / 4,
            med_cov <= usize::MAX / 4,
        decreases windows@.len() - w,
    {
        let dlen = windows[w].len();
        let cov = pileup_seqs[w].len();
        if taken < 3 && 2 * window / 3 <= dlen && dlen < 4 * window / 3 && 2 * med_cov / 3 <= cov
            && cov < 4 * med_cov / 3 {
            model.fit(&windows[w], &pileup_seqs[w], &pileup_ops[w], radius);
            taken += 1;
        }
        w += 1;
    }
}

/// Polish a draft contig over several rounds: split every alignment into
/// window pieces, train the model near the medians, polish each window,
/// stitch, re-join every alignment against the new contig, and truncate
/// over-long inserted homopolymers. With zero rounds the draft and the
/// alignments come back untouched. Rounds stop early, keeping the last
/// contig, if the contig empties or a stitched contig would outgrow what
/// the aligner accepts.
#[verifier::rlimit(100)]
pub fn polish<P: Polisher + Clone>(
    draft: &Vec<u8>,
    alignments: &mut Vec<crate::alignment::Alignment>,
    model: &P,
    config: &PolishConfig,
) -> (r: Vec<u8>)
    requires
        config.window_size >= 1,
        config.window_size <= MAX_ALIGN_LEN,
        draft@.len() <= MAX_ALIGN_LEN,
        forall|i: int|
            0 <= i < old(alignments)@.len() ==> (#[trigger] old(alignments)@[i]).wf() && old(alignments)@[i].contig_end <= draft@.len() && 2 * old(alignments)@[i].query@.len()
                <= MAX_ALIGN_LEN,
    ensures
        r@.len() <= MAX_ALIGN_LEN,
        final(alignments)@.len() == old(alignments)@.len(),
        forall|i: int|
            0 <= i < final(alignments)@.len() ==> (#[trigger] final(alignments)@[i]).wf() && final(alignments)@[i].contig_end <= r@.len() && final(alignments)@[i].read_id == old(alignments)@[i].read_id && final(alignments)@[i].contig == old(alignments)@[i].contig && final(alignments)@[i].is_forward == old(alignments)@[i].is_forward,
        config.round_num == 0 ==> r@ == draft@ && final(alignments)@ == old(alignments)@,
{
    let window = config.window_size;
    let mut polished = crate::util::vec_slice(draft, 0, draft.len());
    proof {
        assert(polished@ =~= draft@);
    }
    let mut round: usize = 0;
    while round < config.round_num
        invariant
            round <= config.round_num,
            window == config.window_size,
            1 <= window <= MAX_ALIGN_LEN,
            draft@.len() <= MAX_ALIGN_LEN,
            polished@.len() <= MAX_ALIGN_LEN,
            alignments@.len() == old(alignments)@.len(),
            forall|i: int|
                0 <= i < alignments@.len() ==> (#[trigger] alignments@[i]).wf()
                    && alignments@[i].contig_end <= polished@.len() && 2
                    * alignments@[i].query@.len() <= MAX_ALIGN_LEN && alignments@[i].read_id
                    == old(alignments)@[i].read_id && alignments@[i].contig == old(alignments)@[i].contig && alignments@[i].is_forward == old(alignments)@[i].is_forward,
            round == 0 ==> polished@ == draft@ && alignments@ == old(alignments)@,
        ensures
            polished@.len() <= MAX_ALIGN_LEN,
            alignments@.len() == old(alignments)@.len(),
            forall|i: int|
                0 <= i < alignments@.len() ==> (#[trigger] alignments@[i]).wf()
                    && alignments@[i].contig_end <= polished@.len() && alignments@[i].read_id
                    == old(alignments)@[i].read_id && alignments@[i].contig == old(alignments)@[i].contig && alignments@[i].is_forward == old(alignments)@[i].is_forward,
            config.round_num == 0 ==> polished@ == draft@ && alignments@ == old(alignments)@,
        decreases config.round_num - round,
    {
        if polished.len() == 0 {
            break ;
        }
        let ghost contig_len = polished@.len() as int;
        let windows = chop_windows(&polished, window);
        let wn = windows.len();
        let mut pileup_seqs: Vec<Vec<Vec<u8>>> = Vec::new();
        let mut pileup_ops: Vec<Vec<Vec<Op>>> = Vec::new();
        #[verifier::loop_isolation(false)]
        while pileup_seqs.len() < wn
            invariant
                pileup_seqs@.len() == pileup_ops@.len() <= wn,
                forall|w: int|
                    0 <= w < pileup_seqs@.len() ==> (#[trigger] pileup_seqs@[w])@.len() == 0
                        && pileup_ops@[w]@.len() == 0,
            decreases wn - pileup_seqs@.len(),
        {
            pileup_seqs.push(Vec::new());
            pileup_ops.push(Vec::new());
        }
        proof {
            assert(pileup_wf(pileup_seqs@, pileup_ops@, contig_len, window as int));
        }
        let mut plans: Vec<AlnPlan> = Vec::new();
        let mut a: usize = 0;
        #[verifier::loop_isolation(false)]
        while a < alignments.len()
            invariant
                a <= alignments@.len(),
                plans@.len() == a,
                pileup_seqs@.len() == wn,
                pileup_wf(pileup_seqs@, pileup_ops@, contig_len, window as int),
                forall|p: int|
                    0 <= p < a ==> plan_wf(
                        (#[trigger] plans@[p]).st,
                        plans@[p].alloc@,
                        plans@[p].en,
                        alignments@[p].query@.len() as int,
                        pileup_seqs@,
                        wn as int,
                    ),
            decreases alignments@.len() - a,
        {
            proof {
                crate::ops::lemma_spans_len(alignments@[a as int].ops@);
            }
            let (st, chunks, en) = crate::splitjoin::split(
                &alignments[a],
                window,
                wn,
                polished.len(),
            );
            let ghost pre_seqs = pileup_seqs@;
            let alloc = place_chunks(
                &chunks,
                &mut pileup_seqs,
                &mut pileup_ops,
                Ghost(contig_len),
                Ghost(window as int),
            );
            proof {
                assert forall|p: int| 0 <= p < a implies plan_wf(
                    (#[trigger] plans@[p]).st,
                    plans@[p].alloc@,
                    plans@[p].en,
                    alignments@[p].query@.len() as int,
                    pileup_seqs@,
                    wn as int,
                ) by {
                    lemma_alloc_seqlen_stable(plans@[p].alloc@, pre_seqs, pileup_seqs@);
                }
                assert(plan_wf(
                    st,
                    alloc@,
                    en,
                    alignments@[a as int].query@.len() as int,
                    pileup_seqs@,
                    wn as int,
                )) by {
                    assert(alloc_seqlen(alloc@, pileup_seqs@) == crate::splitjoin::chunks_qlen(
                        chunks@,
                    ));
                    assert(forall|i: int|
                        0 <= i < alloc@.len() ==> (#[trigger] alloc@[i]).0
                            == crate::splitjoin::first_window(st) + i);
                }
            }
            plans.push(AlnPlan { st, alloc, en });
            a += 1;
        }
        let mut fitted = model.clone();
        train(&mut fitted, &windows, &pileup_seqs, &pileup_ops, window, config.radius);
        let (new_windows, new_ops) = polish_windows(
            &fitted,
            &windows,
            &pileup_seqs,
            pileup_ops,
            config.min_coverage,
            config.radius,
            Ghost(contig_len),
            Ghost(window as int),
        );
        let stitched = stitch(&new_windows);
        if stitched.is_none() {
            break ;
        }
        let (new_contig, acc) = stitched.unwrap();
        let ghost pre_fix = alignments@;
        let mut a2: usize = 0;
        #[verifier::loop_isolation(false)]
        while a2 < alignments.len()
            invariant
                a2 <= alignments@.len(),
                alignments@.len() == pre_fix.len(),
                plans@.len() == pre_fix.len(),
                forall|i: int| a2 <= i < alignments@.len() ==> alignments@[i] == pre_fix[i],
                forall|i: int|
                    0 <= i < a2 ==> (#[trigger] alignments@[i]).wf() && alignments@[i].contig_end
                        <= new_contig@.len() && 2 * alignments@[i].query@.len() <= MAX_ALIGN_LEN
                        && alignments@[i].read_id == pre_fix[i].read_id && alignments@[i].contig
                        == pre_fix[i].contig && alignments@[i].is_forward
                        == pre_fix[i].is_forward,
            decreases alignments@.len() - a2,
        {
            let ghost pre_row = alignments@;
            let mut aln = alignments.remove(a2);
            proof {
                assert(aln == pre_fix[a2 as int]);
                let plan = plans@[a2 as int];
                lemma_alloc_qlen_from_seqlen(plan.alloc@, pileup_seqs@, new_ops@);
                assert(crate::splitjoin::join_wf(
                    plan.st,
                    plan.alloc@,
                    plan.en,
                    aln.query@.len() as int,
                    new_ops@,
                    acc@,
                    new_contig@.len() as int,
                ));
            }
            aln.fix_alignment(plans[a2].st, &plans[a2].alloc, plans[a2].en, &new_contig, &acc, &new_ops);
            aln.truncate_long_homopolymers(crate::truncate::TRUNCATE_LEN);
            alignments.insert(a2, aln);
            proof {
                assert(forall|i: int|
                    0 <= i < alignments@.len() && i != a2 ==> alignments@[i] == pre_row[i]);
            }
            a2 += 1;
        }
        polished = new_contig;
        round += 1;
    }
    polished
}

} // verus!
