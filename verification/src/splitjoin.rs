//! Cutting an alignment into contig-window pieces, and stitching the pieces
//! back after polishing.
//!
//! `split` walks the ops of one alignment and cuts them at every multiple of
//! the window size. What does not fill a window at either end is left for the
//! tips, whose query ranges the two tip records give.

use crate::alignment::Alignment;
use crate::ops::{
    lemma_spans_bounds, lemma_spans_push, lemma_spans_split, query_len, ref_len, Op,
};
use crate::util::vec_slice;
use vstd::prelude::*;

verus! {

/// A contig tail shorter than this is absorbed into the last window piece
/// rather than re-aligned.
pub const EDGE: usize = 100;

/// One window-sized piece of an alignment.
pub struct ChunkPiece {
    pub window: usize,
    pub seq: Vec<u8>,
    pub ops: Vec<Op>,
}

/// Length of window `id` on a contig of length `contig_len`.
pub open spec fn win_len(contig_len: int, window: int, id: int) -> int {
    if contig_len - id * window < window {
        contig_len - id * window
    } else {
        window
    }
}

/// Total query bases covered by a run of pieces.
pub open spec fn chunks_qlen(chunks: Seq<ChunkPiece>) -> int
    decreases chunks.len(),
{
    if chunks.len() == 0 {
        0
    } else {
        chunks_qlen(chunks.drop_last()) + chunks.last().seq@.len()
    }
}

/// The pieces' query slices are consecutive substrings of the query,
/// starting at `from`.
pub open spec fn chunks_cover_query(chunks: Seq<ChunkPiece>, query: Seq<u8>, from: int) -> bool
    decreases chunks.len(),
{
    if chunks.len() == 0 {
        true
    } else {
        chunks[0].seq@ == query.subrange(from, from + chunks[0].seq@.len() as int)
            && chunks_cover_query(
            chunks.drop_first(),
            query,
            from + chunks[0].seq@.len() as int,
        )
    }
}

proof fn lemma_chunks_qlen_drop_first(chunks: Seq<ChunkPiece>)
    requires
        chunks.len() > 0,
    ensures
        chunks_qlen(chunks) == chunks[0].seq@.len() + chunks_qlen(chunks.drop_first()),
    decreases chunks.len(),
{
    if chunks.len() == 1 {
        assert(chunks.drop_first() =~= Seq::<ChunkPiece>::empty());
        assert(chunks.drop_last() =~= Seq::<ChunkPiece>::empty());
    } else {
        lemma_chunks_qlen_drop_first(chunks.drop_last());
        assert(chunks.drop_last().drop_first() =~= chunks.drop_first().drop_last());
        assert(chunks.drop_first().last() == chunks.last());
        assert(chunks.drop_last()[0] == chunks[0]);
    }
}

proof fn lemma_cover_push(chunks: Seq<ChunkPiece>, query: Seq<u8>, from: int, c: ChunkPiece)
    requires
        chunks_cover_query(chunks, query, from),
        c.seq@ == query.subrange(
            from + chunks_qlen(chunks),
            from + chunks_qlen(chunks) + c.seq@.len() as int,
        ),
    ensures
        chunks_cover_query(chunks.push(c), query, from),
    decreases chunks.len(),
{
    let whole = chunks.push(c);
    if chunks.len() == 0 {
        assert(whole[0] == c);
        assert(chunks_qlen(chunks) == 0);
        assert(whole.drop_first() =~= Seq::<ChunkPiece>::empty());
        assert(chunks_cover_query(whole.drop_first(), query, from + whole[0].seq@.len() as int));
    } else {
        lemma_chunks_qlen_drop_first(chunks);
        lemma_cover_push(chunks.drop_first(), query, from + chunks[0].seq@.len() as int, c);
        assert(whole.drop_first() =~= chunks.drop_first().push(c));
        assert(whole[0] == chunks[0]);
        assert(chunks_cover_query(whole.drop_first(), query, from + whole[0].seq@.len() as int));
        assert(whole[0].seq@ == query.subrange(from, from + whole[0].seq@.len() as int));
    }
}

/// The id of the first window piece implied by a leading tip record.
pub open spec fn first_window(st: (usize, usize)) -> int {
    if st.0 == 0 {
        st.1 as int
    } else {
        st.1 + 1
    }
}

/// A longer op prefix never consumes fewer reference bases.
proof fn lemma_ref_prefix_monotone(ops: Seq<Op>, a: int, b: int)
    requires
        0 <= a <= b <= ops.len(),
    ensures
        ref_len(ops.subrange(0, a)) <= ref_len(ops.subrange(0, b)),
{
    lemma_spans_split(ops.subrange(0, b), a);
    assert(ops.subrange(0, b).subrange(0, a) =~= ops.subrange(0, a));
    lemma_spans_bounds(ops.subrange(0, b).subrange(a, b));
}

/// Pieces are sound for an alignment and a windowed contig: consecutive
/// window ids, each piece spanning its window exactly and spelling its query
/// slice, and the two tips bounding the covered query range.
pub open spec fn split_wf(
    st: (usize, usize),
    chunks: Seq<ChunkPiece>,
    en: (usize, usize),
    query_total: int,
    window: int,
    window_num: int,
    contig_len: int,
) -> bool {
    &&& st.0 <= en.0 <= query_total
    &&& st.1 <= window_num
    &&& en.1 <= window_num
    &&& (st.0 > 0 ==> st.1 + 1 <= window_num)
    &&& chunks_qlen(chunks) == en.0 - st.0
    &&& (forall|i: int|
        0 <= i < chunks.len() ==> (#[trigger] chunks[i]).window == first_window(st) + i)
    &&& (forall|i: int|
        0 <= i < chunks.len() ==> query_len((#[trigger] chunks[i]).ops@) == chunks[i].seq@.len())
    &&& (forall|i: int| 0 <= i < chunks.len() ==> (#[trigger] chunks[i]).seq@.len() <= query_total)
    &&& (forall|i: int|
        0 <= i < chunks.len() ==> ref_len((#[trigger] chunks[i]).ops@) == win_len(
            contig_len,
            window,
            chunks[i].window as int,
        ))
    &&& (chunks.len() > 0 ==> first_window(st) + chunks.len() <= window_num)
    &&& (chunks.len() > 0 ==> en.1 == first_window(st) + chunks.len())
    &&& (chunks.len() == 0 ==> en.0 == st.0 && (en.1 == st.1 || en.1 == first_window(st)))
}

/// Cut `aln` into window pieces over a contig of `contig_len` bases carved
/// into `window_num` windows of `window` bases (the last may be short).
pub fn split(aln: &Alignment, window: usize, window_num: usize, contig_len: usize) -> (r: (
    (usize, usize),
    Vec<ChunkPiece>,
    (usize, usize),
))
    requires
        aln.wf(),
        window >= 1,
        aln.ops@.len() <= usize::MAX - EDGE,
        aln.contig_end <= contig_len,
        contig_len <= window_num * window,
        window_num >= 1 ==> contig_len > (window_num - 1) * window,
        window_num * window <= usize::MAX,
    ensures
        split_wf(
            r.0,
            r.1@,
            r.2,
            aln.query@.len() as int,
            window as int,
            window_num as int,
            contig_len as int,
        ),
        chunks_cover_query(r.1@, aln.query@, r.0.0 as int),
        // the plan is anchored to the alignment's contig range: the leading
        // tip names the window holding the start, the first piece is the
        // first whole window at or after the start, and no whole window the
        // alignment covers is missing from the pieces
        r.0.0 > 0 ==> r.0.1 == aln.contig_start / window,
        r.0.0 > 0 || aln.query@.len() > 0 ==> first_window(r.0) == (aln.contig_start as int
            + window - 1) / (window as int),
        (first_window(r.0) + r.1@.len() + 1) * window > aln.contig_end as int,
        r.1@.len() > 0 ==> (first_window(r.0) + r.1@.len() - 1) * window <= aln.contig_end as int,
        // the leading tip's query offset is where the ops first reach the
        // first whole window's start
        r.0.0 > 0 || aln.query@.len() > 0 ==> (exists|k: int|
            #![trigger aln.ops@.subrange(0, k)]
            {
                &&& 0 <= k <= aln.ops@.len()
                &&& r.0.0 == query_len(aln.ops@.subrange(0, k))
                &&& (aln.contig_start + ref_len(aln.ops@.subrange(0, k)) == first_window(r.0)
                    * window || (k == aln.ops@.len() && aln.contig_end < first_window(r.0)
                    * window))
                &&& forall|j: int|
                    0 <= j < k ==> aln.contig_start + ref_len(#[trigger] aln.ops@.subrange(0, j))
                        < first_window(r.0) * window
            }),
{
    let opsn = aln.ops.len();
    let qlen = aln.query.len();
    proof {
        lemma_spans_bounds(aln.ops@);
    }
    let rem = aln.contig_start % window;
    let start_chunk_id = aln.contig_start / window;
    proof {
        vstd::arithmetic::div_mod::lemma_fundamental_div_mod(
            aln.contig_start as int,
            window as int,
        );
    }
    proof {
        assert(start_chunk_id <= window_num && (rem != 0 ==> start_chunk_id + 1 <= window_num))
            by (nonlinear_arith)
            requires
                window >= 1,
                0 <= rem < window,
                aln.contig_start == window * start_chunk_id + rem,
                aln.contig_start <= contig_len <= window_num * window,
        ;
    }
    let first_w = if rem == 0 {
        start_chunk_id
    } else {
        start_chunk_id + 1
    };
    proof {
        assert(first_w * window <= window_num * window && (rem == 0 ==> first_w * window
            == aln.contig_start) && (rem != 0 ==> first_w * window == aln.contig_start - rem
            + window)) by (nonlinear_arith)
            requires
                window >= 1,
                0 <= rem < window,
                aln.contig_start == window * start_chunk_id + rem,
                aln.contig_start <= contig_len <= window_num * window,
                rem == 0 ==> first_w == start_chunk_id,
                rem != 0 ==> first_w == start_chunk_id + 1,
                first_w <= window_num,
        ;
    }
    proof {
        assert(first_w as int == (aln.contig_start as int + window - 1) / (window as int))
            by (nonlinear_arith)
            requires
                window >= 1,
                0 <= rem < window,
                aln.contig_start == window * start_chunk_id + rem,
                rem == 0 ==> first_w == start_chunk_id,
                rem != 0 ==> first_w == start_chunk_id + 1,
        ;
    }
    let start_pos = if rem == 0 {
        aln.contig_start
    } else {
        aln.contig_start - rem + window
    };
    let mut qpos: usize = 0;
    let mut cpos: usize = aln.contig_start;
    let mut k: usize = 0;
    // Seek to the first window boundary at or after the alignment start.
    while cpos < start_pos && k < opsn
        invariant
            k <= opsn == aln.ops@.len(),
            aln.wf(),
            qlen == aln.query@.len(),
            qpos == query_len(aln.ops@.subrange(0, k as int)),
            cpos == aln.contig_start + ref_len(aln.ops@.subrange(0, k as int)),
            cpos <= start_pos <= usize::MAX,
            cpos <= aln.contig_end,
            start_pos == aln.contig_start ==> k == 0,
            qpos <= qlen,
            forall|j: int|
                0 <= j < k ==> aln.contig_start + ref_len(#[trigger] aln.ops@.subrange(0, j))
                    < start_pos,
        decreases opsn - k,
    {
        proof {
            assert(aln.ops@.subrange(0, k + 1 as int).drop_last() =~= aln.ops@.subrange(
                0,
                k as int,
            ));
            lemma_spans_split(aln.ops@, k + 1 as int);
            lemma_spans_bounds(aln.ops@.subrange(0, k + 1 as int));
            lemma_spans_bounds(aln.ops@.subrange(k + 1 as int, aln.ops@.len() as int));
        }
        let op = aln.ops[k];
        if op == Op::Match || op == Op::Mismatch {
            qpos += 1;
            cpos += 1;
        } else if op == Op::Ins {
            qpos += 1;
        } else {
            cpos += 1;
        }
        k += 1;
        proof {
            assert(cpos <= aln.contig_end);
        }
    }
    if cpos < start_pos {
        let st = (qpos, start_chunk_id);
        let chunks: Vec<ChunkPiece> = Vec::new();
        proof {
            assert(chunks_qlen(chunks@) == 0);
            // the ops ran out before the first boundary: the whole query is
            // the leading tip, and no whole window is covered
            assert(k == opsn);
            assert(aln.ops@.subrange(0, opsn as int) =~= aln.ops@);
            assert(cpos == aln.contig_end);
            assert(qpos == qlen);
            assert(rem != 0);
            if qpos > 0 || qlen > 0 {
                assert(first_window(st) == first_w);
                assert(aln.contig_end < first_window(st) * window);
                assert(exists|k2: int|
                    #![trigger aln.ops@.subrange(0, k2)]
                    {
                        &&& 0 <= k2 <= aln.ops@.len()
                        &&& st.0 == query_len(aln.ops@.subrange(0, k2))
                        &&& (aln.contig_start + ref_len(aln.ops@.subrange(0, k2))
                            == first_window(st) * window || (k2 == aln.ops@.len()
                            && aln.contig_end < first_window(st) * window))
                        &&& forall|j: int|
                            0 <= j < k2 ==> aln.contig_start + ref_len(
                                #[trigger] aln.ops@.subrange(0, j),
                            ) < first_window(st) * window
                    }) by {
                    assert(st.0 == query_len(aln.ops@.subrange(0, opsn as int)));
                }
                assert((first_window(st) + 1) * window > aln.contig_end as int)
                    by (nonlinear_arith)
                    requires
                        window >= 1,
                        first_window(st) >= 0,
                        aln.contig_end < first_window(st) * window,
                ;
            } else {
                assert(first_window(st) == st.1);
                assert((first_window(st) + 1) * window >= start_pos > aln.contig_end)
                    by (nonlinear_arith)
                    requires
                        window >= 1,
                        rem != 0,
                        first_window(st) == start_chunk_id,
                        start_pos == (start_chunk_id + 1) * window,
                        start_pos > aln.contig_end,
                ;
            }
        }
        return (st, chunks, st);
    }
    // cpos == start_pos here, and a nonzero query offset means the start was
    // not window-aligned.
    let st = if qpos == 0 {
        (0usize, first_w)
    } else {
        (qpos, start_chunk_id)
    };
    proof {
        assert(qpos > 0 ==> rem != 0);
        assert(first_window(st) == first_w);
        // the seek stopped exactly at the first whole window's start
        assert(cpos == start_pos);
        assert(exists|k2: int|
            #![trigger aln.ops@.subrange(0, k2)]
            {
                &&& 0 <= k2 <= aln.ops@.len()
                &&& st.0 == query_len(aln.ops@.subrange(0, k2))
                &&& (aln.contig_start + ref_len(aln.ops@.subrange(0, k2)) == first_window(st)
                    * window || (k2 == aln.ops@.len() && aln.contig_end < first_window(st)
                    * window))
                &&& forall|j: int|
                    0 <= j < k2 ==> aln.contig_start + ref_len(#[trigger] aln.ops@.subrange(0, j))
                        < first_window(st) * window
            }) by {
            assert(st.0 == query_len(aln.ops@.subrange(0, k as int)));
            assert(aln.contig_start + ref_len(aln.ops@.subrange(0, k as int)) == first_window(st)
                * window);
        }
    }
    let mut chunks: Vec<ChunkPiece> = Vec::new();
    let mut current: usize = first_w;
    let mut end_q: usize = qpos;
    proof {
        assert((first_w + 1) * window > first_w * window) by (nonlinear_arith)
            requires
                window >= 1,
                first_w >= 0,
        ;
    }
    proof {
        assert(first_window(st) == first_w);
    }
    while current < window_num && k < opsn
        invariant_except_break
            cpos == current * window || (chunks@.len() == 0 && cpos == start_pos),
            end_q == qpos,
            chunks@.len() == 0 ==> qpos == st.0,
        invariant
            aln.wf(),
            qlen == aln.query@.len(),
            opsn == aln.ops@.len(),
            opsn <= usize::MAX - EDGE,
            k <= opsn,
            window >= 1,
            contig_len <= window_num * window,
            window_num * window <= usize::MAX,
            window_num >= 1 ==> contig_len > (window_num - 1) * window,
            aln.contig_end <= contig_len,
            first_w == first_window(st),
            st.0 <= qlen,
            qpos == query_len(aln.ops@.subrange(0, k as int)),
            cpos == aln.contig_start + ref_len(aln.ops@.subrange(0, k as int)),
            qpos <= qlen,
            cpos <= aln.contig_end,
            st.0 <= end_q <= qpos,
            current == first_w + chunks@.len(),
            current <= window_num,
            chunks@.len() == 0 ==> end_q == st.0,
            cpos >= start_pos,
            start_pos == first_w * window,
            chunks_qlen(chunks@) == end_q - st.0,
            chunks_cover_query(chunks@, aln.query@, st.0 as int),
            forall|i: int|
                0 <= i < chunks@.len() ==> (#[trigger] chunks@[i]).window == first_w + i,
            forall|i: int|
                0 <= i < chunks@.len() ==> query_len((#[trigger] chunks@[i]).ops@)
                    == chunks@[i].seq@.len(),
            forall|i: int| 0 <= i < chunks@.len() ==> (#[trigger] chunks@[i]).seq@.len() <= qlen,
            forall|i: int|
                0 <= i < chunks@.len() ==> ref_len((#[trigger] chunks@[i]).ops@) == win_len(
                    contig_len as int,
                    window as int,
                    chunks@[i].window as int,
                ),
            chunks@.len() > 0 ==> (first_w + chunks@.len() - 1) * window <= cpos,
            current >= window_num || (current as int + 1) * window > cpos,
        ensures
            st.0 <= end_q <= qlen,
            current == first_w + chunks@.len(),
            current <= window_num,
            chunks_qlen(chunks@) == end_q - st.0,
            chunks_cover_query(chunks@, aln.query@, st.0 as int),
            chunks@.len() == 0 ==> end_q == st.0,
            forall|i: int|
                0 <= i < chunks@.len() ==> (#[trigger] chunks@[i]).window == first_w + i,
            forall|i: int|
                0 <= i < chunks@.len() ==> query_len((#[trigger] chunks@[i]).ops@)
                    == chunks@[i].seq@.len(),
            forall|i: int| 0 <= i < chunks@.len() ==> (#[trigger] chunks@[i]).seq@.len() <= qlen,
            chunks@.len() > 0 ==> (first_w + chunks@.len() - 1) * window <= cpos,
            k == opsn || current >= window_num,
            current >= window_num || (current as int + 1) * window > cpos,
            qpos == query_len(aln.ops@.subrange(0, k as int)),
            cpos == aln.contig_start + ref_len(aln.ops@.subrange(0, k as int)),
            cpos <= aln.contig_end,
            forall|i: int|
                0 <= i < chunks@.len() ==> ref_len((#[trigger] chunks@[i]).ops@) == win_len(
                    contig_len as int,
                    window as int,
                    chunks@[i].window as int,
                ),
        decreases window_num - current,
    {
        proof {
            assert((current + 1) * window <= window_num * window && current * window < (current + 1)
                * window) by (nonlinear_arith)
                requires
                    current < window_num,
                    window >= 1,
            ;
        }
        let target = (current + 1) * window;
        let chunk_start_q = qpos;
        let chunk_start_c = cpos;
        let k0 = k;
        let mut chunk_ops: Vec<Op> = Vec::new();
        while cpos < target && k < opsn
            invariant
                aln.wf(),
                qlen == aln.query@.len(),
                opsn == aln.ops@.len(),
                opsn <= usize::MAX - EDGE,
                k0 <= k <= opsn,
                chunk_ops@.len() == k - k0,
                qpos == query_len(aln.ops@.subrange(0, k as int)),
                cpos == aln.contig_start + ref_len(aln.ops@.subrange(0, k as int)),
                qpos <= qlen,
                cpos <= aln.contig_end,
                cpos <= target <= usize::MAX,
                chunk_start_q <= qpos,
                chunk_start_c <= cpos,
                query_len(chunk_ops@) == qpos - chunk_start_q,
                ref_len(chunk_ops@) == cpos - chunk_start_c,
            decreases opsn - k,
        {
            proof {
                assert(aln.ops@.subrange(0, k + 1 as int).drop_last() =~= aln.ops@.subrange(
                    0,
                    k as int,
                ));
                lemma_spans_split(aln.ops@, k + 1 as int);
                lemma_spans_bounds(aln.ops@.subrange(0, k + 1 as int));
                lemma_spans_bounds(aln.ops@.subrange(k + 1 as int, aln.ops@.len() as int));
            }
            let op = aln.ops[k];
            let ghost prev_chunk = chunk_ops@;
            if op == Op::Match || op == Op::Mismatch {
                qpos += 1;
                cpos += 1;
            } else if op == Op::Ins {
                qpos += 1;
            } else {
                cpos += 1;
            }
            chunk_ops.push(op);
            proof {
                lemma_spans_push(prev_chunk, op);
            }
            k += 1;
            proof {
                assert(cpos <= aln.contig_end);
            }
        }
        if cpos >= target {
            // a full window was covered
            let seq = vec_slice(&aln.query, chunk_start_q, qpos);
            let ghost prev_chunks = chunks@;
            chunks.push(ChunkPiece { window: current, seq, ops: chunk_ops });
            proof {
                assert(chunks@.drop_last() =~= prev_chunks);
                lemma_cover_push(prev_chunks, aln.query@, st.0 as int, chunks@.last());
                assert(chunks_cover_query(chunks@, aln.query@, st.0 as int)) by {
                    assert(chunks@ =~= prev_chunks.push(chunks@.last()));
                }
                assert(cpos == target);
                assert(chunk_start_c == current * window);
                assert(target <= aln.contig_end);
                assert(contig_len - current * window >= window && target - current * window
                    == window) by (nonlinear_arith)
                    requires
                        window >= 1,
                        target == (current + 1) * window,
                        target <= contig_len,
                ;
                assert(win_len(contig_len as int, window as int, current as int) == window);
                assert((first_w + (chunks@.len() - 1)) * window == current * window);
                assert((current + 2) * window > target) by (nonlinear_arith)
                    requires
                        window >= 1,
                        target == (current + 1) * window,
                ;
            }
            end_q = qpos;
            current += 1;
        } else {
            // ops ran out inside this window
            if current + 1 == window_num && contig_len - cpos < EDGE {
                // absorb the short contig tail: pad with deletions
                let pad = contig_len - cpos;
                let ghost prev_chunk = chunk_ops@;
                crate::ops::extend_repeat(&mut chunk_ops, Op::Del, pad);
                proof {
                    crate::ops::lemma_spans_concat(
                        prev_chunk,
                        crate::ops::repeat_op(Op::Del, pad as int),
                    );
                    crate::ops::lemma_spans_repeat(Op::Del, pad as int);
                }
                let seq = vec_slice(&aln.query, chunk_start_q, qpos);
                let ghost prev_chunks = chunks@;
                chunks.push(ChunkPiece { window: current, seq, ops: chunk_ops });
                proof {
                    assert(chunks@.drop_last() =~= prev_chunks);
                    lemma_cover_push(prev_chunks, aln.query@, st.0 as int, chunks@.last());
                    assert(chunks_cover_query(chunks@, aln.query@, st.0 as int)) by {
                        assert(chunks@ =~= prev_chunks.push(chunks@.last()));
                    }
                    assert(chunk_start_c == current * window);
                    assert(contig_len - current * window <= window && contig_len >= current
                        * window) by (nonlinear_arith)
                        requires
                            window >= 1,
                            current + 1 == window_num,
                            contig_len <= window_num * window,
                            contig_len > (window_num - 1) * window,
                    ;
                    assert(win_len(contig_len as int, window as int, current as int) == contig_len
                        - current * window);
                    assert((first_w + (chunks@.len() - 1)) * window == current * window);
                    assert((current + 2) * window > target) by (nonlinear_arith)
                        requires
                            window >= 1,
                            target == (current + 1) * window,
                    ;
                }
                end_q = qpos;
                current += 1;
                break ;
            } else {
                break ;
            }
        }
    }
    let en = (end_q, current);
    proof {
        // no whole window past the pieces is fully covered
        if k == opsn {
            assert(aln.ops@.subrange(0, opsn as int) =~= aln.ops@);
            assert(cpos == aln.contig_end);
        }
        assert((first_w + chunks@.len() + 1) * window > aln.contig_end as int) by {
            if current >= window_num {
                assert((current + 1) * window > window_num * window) by (nonlinear_arith)
                    requires
                        window >= 1,
                        current >= window_num,
                ;
            }
        }
        if chunks@.len() > 0 {
            assert((first_w + chunks@.len() - 1) * window <= aln.contig_end as int);
        }
    }
    (st, chunks, en)
}

/// The pileup rows an allocation list names, concatenated in order.
pub open spec fn alloc_ops_concat(alloc: Seq<(usize, usize)>, opss: Seq<Vec<Vec<Op>>>) -> Seq<Op>
    decreases alloc.len(),
{
    if alloc.len() == 0 {
        Seq::empty()
    } else {
        alloc_ops_concat(alloc.drop_last(), opss) + opss[alloc.last().0 as int]@[alloc.last().1 as int]@
    }
}

proof fn lemma_alloc_concat_prefix(alloc: Seq<(usize, usize)>, opss: Seq<Vec<Vec<Op>>>, i: int)
    requires
        0 <= i < alloc.len(),
    ensures
        alloc_ops_concat(alloc.subrange(0, i + 1), opss) == alloc_ops_concat(
            alloc.subrange(0, i),
            opss,
        ) + opss[alloc[i].0 as int]@[alloc[i].1 as int]@,
{
    assert(alloc.subrange(0, i + 1).drop_last() =~= alloc.subrange(0, i));
    assert(alloc.subrange(0, i + 1).last() == alloc[i]);
}

/// Prefix sums of window lengths: entry `i` is where window `i` starts on the
/// stitched contig, and the last entry is the contig length.
pub open spec fn acc_wf(acc: Seq<usize>, total: int) -> bool {
    &&& acc.len() >= 1
    &&& acc[0] == 0
    &&& acc.last() == total
    &&& forall|i: int| 0 <= i < acc.len() - 1 ==> (#[trigger] acc[i]) <= acc[i + 1]
}

pub proof fn lemma_acc_mono(acc: Seq<usize>, total: int, i: int, j: int)
    requires
        acc_wf(acc, total),
        0 <= i <= j < acc.len(),
    ensures
        acc[i] <= acc[j],
    decreases j - i,
{
    if i < j {
        lemma_acc_mono(acc, total, i + 1, j);
    }
}

/// Total query bases spelled by the pileup ops named by an allocation list.
pub open spec fn alloc_qlen(alloc: Seq<(usize, usize)>, opss: Seq<Vec<Vec<Op>>>) -> int
    decreases alloc.len(),
{
    if alloc.len() == 0 {
        0
    } else {
        alloc_qlen(alloc.drop_last(), opss) + query_len(
            opss[alloc.last().0 as int]@[alloc.last().1 as int]@,
        )
    }
}

/// An allocation list is sound for a polished contig: every named slot holds
/// ops spanning its window exactly, the windows are consecutive, and the tips
/// bound the query range the slots spell.
pub open spec fn join_wf(
    st: (usize, usize),
    alloc: Seq<(usize, usize)>,
    en: (usize, usize),
    query_total: int,
    opss: Seq<Vec<Vec<Op>>>,
    acc: Seq<usize>,
    polished_len: int,
) -> bool {
    &&& st.0 <= en.0 <= query_total
    &&& acc_wf(acc, polished_len)
    &&& opss.len() + 1 == acc.len()
    &&& st.1 < acc.len()
    &&& en.1 < acc.len()
    &&& (st.0 > 0 ==> st.1 + 1 < acc.len())
    &&& alloc_qlen(alloc, opss) == en.0 - st.0
    &&& (forall|i: int|
        0 <= i < alloc.len() ==> (#[trigger] alloc[i]).0 == first_window(st) + i)
    &&& (forall|i: int|
        0 <= i < alloc.len() ==> (#[trigger] alloc[i]).0 < opss.len() && alloc[i].1
            < opss[alloc[i].0 as int]@.len())
    &&& (forall|i: int|
        0 <= i < alloc.len() ==> ref_len(
            opss[(#[trigger] alloc[i]).0 as int]@[alloc[i].1 as int]@,
        ) == acc[alloc[i].0 + 1] - acc[alloc[i].0 as int])
    &&& (alloc.len() > 0 ==> en.1 == first_window(st) + alloc.len())
    &&& (alloc.len() == 0 ==> en.0 == st.0 && (en.1 == st.1 || en.1 == first_window(st)))
}

proof fn lemma_alloc_qlen_prefix(alloc: Seq<(usize, usize)>, opss: Seq<Vec<Vec<Op>>>, i: int)
    requires
        0 <= i < alloc.len(),
    ensures
        alloc_qlen(alloc.subrange(0, i + 1), opss) == alloc_qlen(alloc.subrange(0, i), opss)
            + query_len(opss[alloc[i].0 as int]@[alloc[i].1 as int]@),
{
    assert(alloc.subrange(0, i + 1).drop_last() =~= alloc.subrange(0, i));
    assert(alloc.subrange(0, i + 1).last() == alloc[i]);
}


impl Alignment {
    /// Re-place an alignment wholly inside window `w` by an infix alignment
    /// of its query against that window of the stitched contig.
    fn fix_contained(&mut self, w: usize, polished: &Vec<u8>, acc: &Vec<usize>)
        requires
            acc_wf(acc@, polished@.len() as int),
            w < acc@.len(),
            old(self).query@.len() <= crate::align::MAX_ALIGN_LEN,
            polished@.len() <= crate::align::MAX_ALIGN_LEN,
        ensures
            final(self).wf(),
            final(self).contig_end <= polished@.len(),
            final(self).query@ == old(self).query@,
            final(self).read_id == old(self).read_id,
            final(self).contig == old(self).contig,
            final(self).is_forward == old(self).is_forward,
    {
        let qlen = self.query.len();
        proof {
            lemma_acc_mono(acc@, polished@.len() as int, w as int, acc@.len() - 1);
        }
        if qlen == 0 {
            self.ops = Vec::new();
            let p = acc[w];
            self.contig_start = p;
            self.contig_end = p;
            return ;
        }
        if w >= acc.len() - 1 {
            // the start sat at the very end of the contig
            let mut ops: Vec<Op> = Vec::new();
            crate::ops::extend_repeat(&mut ops, Op::Ins, qlen);
            proof {
                crate::ops::lemma_spans_repeat(Op::Ins, qlen as int);
                assert(Seq::<Op>::empty() + crate::ops::repeat_op(Op::Ins, qlen as int)
                    =~= crate::ops::repeat_op(Op::Ins, qlen as int));
            }
            self.ops = ops;
            let p = acc[acc.len() - 1];
            self.contig_start = p;
            self.contig_end = p;
            return ;
        }
        let lo = acc[w];
        let hi = acc[w + 1];
        proof {
            lemma_acc_mono(acc@, polished@.len() as int, w + 1, acc@.len() - 1);
        }
        let seg = vec_slice(polished, lo, hi);
        if seg.len() == 0 {
            let mut ops: Vec<Op> = Vec::new();
            crate::ops::extend_repeat(&mut ops, Op::Ins, qlen);
            proof {
                crate::ops::lemma_spans_repeat(Op::Ins, qlen as int);
                assert(Seq::<Op>::empty() + crate::ops::repeat_op(Op::Ins, qlen as int)
                    =~= crate::ops::repeat_op(Op::Ins, qlen as int));
            }
            self.ops = ops;
            self.contig_start = lo;
            self.contig_end = lo;
            return ;
        }
        let query = vec_slice(&self.query, 0, qlen);
        proof {
            assert(query@ =~= self.query@);
        }
        let (s, ops, e) = crate::align::align_infix(&query, &seg);
        self.ops = ops;
        self.contig_start = lo + s;
        self.contig_end = lo + e;
    }
}

/// Ops assembled as a leading tip, a middle, and a trailing tip, the tips
/// spelling exactly the query outside `[qfrom, qto)` and absent when that
/// range touches the query's ends.
pub open spec fn joined_shape(
    ops: Seq<Op>,
    lead: Seq<Op>,
    middle: Seq<Op>,
    tail: Seq<Op>,
    qfrom: int,
    qto: int,
    qtotal: int,
) -> bool {
    &&& ops == lead + middle + tail
    &&& query_len(lead) == qfrom
    &&& query_len(tail) == qtotal - qto
    &&& (qfrom == 0 ==> lead == Seq::<Op>::empty())
    &&& (qto == qtotal ==> tail == Seq::<Op>::empty())
}

impl Alignment {
    /// Rebuild this alignment against a freshly stitched contig: re-align the
    /// leading tip into the windows before the first piece, splice the
    /// per-window ops, and re-align the trailing tip after the last piece.
    #[verifier::rlimit(100)]
    #[verifier::loop_isolation(false)]
    pub fn fix_alignment(
        &mut self,
        st: (usize, usize),
        alloc: &Vec<(usize, usize)>,
        en: (usize, usize),
        polished: &Vec<u8>,
        acc: &Vec<usize>,
        opss: &Vec<Vec<Vec<Op>>>,
    )
        requires
            join_wf(
                st,
                alloc@,
                en,
                old(self).query@.len() as int,
                opss@,
                acc@,
                polished@.len() as int,
            ),
            2 * old(self).query@.len() <= crate::align::MAX_ALIGN_LEN,
            polished@.len() <= crate::align::MAX_ALIGN_LEN,
        ensures
            final(self).wf(),
            final(self).contig_end <= polished@.len(),
            final(self).query@ == old(self).query@,
            final(self).read_id == old(self).read_id,
            final(self).contig == old(self).contig,
            final(self).is_forward == old(self).is_forward,
            // away from the contained case, the new ops are the leading-tip
            // alignment, the named pileup rows in window order, and the
            // trailing-tip alignment
            !(st.0 == en.0 && st.1 == en.1) ==> (exists|lead: Seq<Op>, tail: Seq<Op>|
                joined_shape(
                    final(self).ops@,
                    lead,
                    alloc_ops_concat(alloc@, opss@),
                    tail,
                    st.0 as int,
                    en.0 as int,
                    old(self).query@.len() as int,
                )),
    {
        let ghost qtotal = self.query@.len() as int;
        let qlen = self.query.len();
        proof {
            lemma_acc_mono(acc@, polished@.len() as int, 0, st.1 as int);
            lemma_acc_mono(acc@, polished@.len() as int, st.1 as int, acc@.len() - 1);
            lemma_acc_mono(acc@, polished@.len() as int, en.1 as int, acc@.len() - 1);
        }
        if st.0 == en.0 && st.1 == en.1 {
            self.fix_contained(st.1, polished, acc);
            return ;
        }
        // the alignment crosses window boundaries
        let ghost first_w = first_window(st);
        let ghost mut g_tail: Seq<Op> = Seq::empty();
        let mut ops: Vec<Op> = Vec::new();
        let contig_start: usize;
        if st.0 != 0 {
            let first_pos_bp = acc[st.1 + 1];
            proof {
                lemma_acc_mono(acc@, polished@.len() as int, st.1 + 1, acc@.len() - 1);
            }
            let lead_q = vec_slice(&self.query, 0, st.0);
            let seg = vec_slice(polished, 0, first_pos_bp);
            let (lops, clen) = crate::align::align_leading(&lead_q, &seg);
            contig_start = first_pos_bp - clen;
            proof {
                assert(ops@ + lops@ =~= lops@);
            }
            ops = lops;
        } else {
            contig_start = acc[st.1];
        }
        proof {
            assert(acc@[first_w] >= contig_start);
            assert(ref_len(ops@) == acc@[first_w] - contig_start);
            assert(query_len(ops@) == st.0);
            crate::ops::lemma_spans_len(ops@);
        }
        proof {
            crate::ops::lemma_spans_len(ops@);
            if alloc@.len() > 0 {
                assert(alloc@[alloc@.len() - 1].0 == first_w + alloc@.len() - 1);
            }
        }
        let ghost g_lead = ops@;
        splice_middle(&mut ops, alloc, opss, acc, Ghost(first_w), Ghost(en.0 - st.0));
        proof {
            lemma_acc_mono(acc@, polished@.len() as int, first_w, en.1 as int);
            lemma_acc_mono(acc@, polished@.len() as int, first_w, acc@.len() - 1);
        }
        proof {
            assert(alloc@.subrange(0, alloc@.len() as int) =~= alloc@);
            if alloc@.len() > 0 {
                assert(first_w + alloc@.len() == en.1);
                assert(ref_len(ops@) == acc@[en.1 as int] - contig_start);
            } else {
                assert(en.1 == first_w || en.1 == st.1);
                if st.0 == 0 {
                    assert(first_w == st.1);
                }
                assert(acc@[en.1 as int] == acc@[first_w]);
                assert(ref_len(ops@) == acc@[en.1 as int] - contig_start);
            }
            assert(query_len(ops@) == st.0 + (en.0 - st.0));
            crate::ops::lemma_spans_len(ops@);
        }
        let contig_end: usize;
        if en.0 != qlen {
            let last_bp = acc[en.1];
            proof {
                lemma_acc_mono(acc@, polished@.len() as int, en.1 as int, acc@.len() - 1);
            }
            let tail_q = vec_slice(&self.query, en.0, qlen);
            let seg = vec_slice(polished, last_bp, polished.len());
            let (tops, clen) = crate::align::align_trailing(&tail_q, &seg);
            let ghost prev = ops@;
            proof {
                crate::ops::lemma_spans_len(tops@);
                crate::ops::lemma_spans_len(prev);
                g_tail = tops@;
            }
            crate::util::vec_extend(&mut ops, &tops);
            proof {
                crate::ops::lemma_spans_concat(prev, tops@);
            }
            contig_end = last_bp + clen;
        } else {
            contig_end = acc[en.1];
        }
        self.ops = ops;
        self.contig_start = contig_start;
        self.contig_end = contig_end;
        proof {
            let middle = alloc_ops_concat(alloc@, opss@);
            assert(self.ops@ =~= g_lead + middle + g_tail);
            if st.0 == 0 {
                assert(g_lead =~= Seq::<Op>::empty());
            }
            assert(joined_shape(
                self.ops@,
                g_lead,
                middle,
                g_tail,
                st.0 as int,
                en.0 as int,
                qtotal,
            ));
            assert(exists|lead: Seq<Op>, tail: Seq<Op>|
                joined_shape(self.ops@, lead, middle, tail, st.0 as int, en.0 as int, qtotal));
        }
    }
}

/// Concatenate onto `ops` the per-window pileup ops named by `alloc`, in
/// window order.
#[verifier::rlimit(60)]
#[verifier::loop_isolation(false)]
fn splice_middle(
    ops: &mut Vec<Op>,
    alloc: &Vec<(usize, usize)>,
    opss: &Vec<Vec<Vec<Op>>>,
    acc: &Vec<usize>,
    Ghost(first_w): Ghost<int>,
    Ghost(qcap): Ghost<int>,
)
    requires
        first_w >= 0,
        opss@.len() + 1 == acc@.len(),
        forall|i: int| 0 <= i < acc@.len() - 1 ==> (#[trigger] acc@[i]) <= acc@[i + 1],
        forall|i: int| 0 <= i < alloc@.len() ==> (#[trigger] alloc@[i]).0 == first_w + i,
        forall|i: int|
            0 <= i < alloc@.len() ==> (#[trigger] alloc@[i]).0 < opss@.len() && alloc@[i].1
                < opss@[alloc@[i].0 as int]@.len(),
        forall|i: int|
            0 <= i < alloc@.len() ==> ref_len(
                opss@[(#[trigger] alloc@[i]).0 as int]@[alloc@[i].1 as int]@,
            ) == acc@[alloc@[i].0 + 1] - acc@[alloc@[i].0 as int],
        alloc_qlen(alloc@, opss@) == qcap,
        query_len(old(ops)@) + ref_len(old(ops)@) + qcap + acc@.last() <= usize::MAX,
    ensures
        final(ops)@ == old(ops)@ + alloc_ops_concat(alloc@, opss@),
        query_len(final(ops)@) == query_len(old(ops)@) + qcap,
        ref_len(final(ops)@) == ref_len(old(ops)@) + if alloc@.len() == 0 {
            0int
        } else {
            acc@[first_w + alloc@.len()] - acc@[first_w]
        },
        qcap >= 0,
{
    proof {
        let n = alloc@.len() as int;
        assert(alloc@.subrange(0, n) =~= alloc@);
        lemma_alloc_qlen_suffix_nonneg(alloc@, opss@, 0);
        assert(alloc@.subrange(0, 0) =~= Seq::<(usize, usize)>::empty());
    }
    let mut i: usize = 0;
    while i < alloc.len()
        invariant
            i <= alloc@.len(),
            ops@ == old(ops)@ + alloc_ops_concat(alloc@.subrange(0, i as int), opss@),
            query_len(ops@) == query_len(old(ops)@) + alloc_qlen(
                alloc@.subrange(0, i as int),
                opss@,
            ),
            ref_len(ops@) == ref_len(old(ops)@) + if i == 0 {
                0int
            } else {
                acc@[first_w + i] - acc@[first_w]
            },
            alloc_qlen(alloc@.subrange(0, i as int), opss@) >= 0,
            alloc_qlen(alloc@.subrange(0, i as int), opss@) <= qcap,
            after_borrow(ops)@.len() >= 0,
        decreases alloc@.len() - i,
    {
        let (w, slot) = (alloc[i].0, alloc[i].1);
        let ghost prev = ops@;
        proof {
            assert(alloc@[i as int].0 == first_w + i);
            crate::ops::lemma_spans_len(opss@[w as int]@[slot as int]@);
            crate::ops::lemma_spans_len(prev);
            crate::ops::lemma_spans_len(old(ops)@);
            lemma_alloc_qlen_prefix(alloc@, opss@, i as int);
            crate::ops::lemma_spans_bounds(opss@[w as int]@[slot as int]@);
            assert(alloc_qlen(alloc@.subrange(0, i + 1 as int), opss@) <= qcap) by {
                lemma_alloc_qlen_suffix_nonneg(alloc@, opss@, i + 1 as int);
                assert(alloc@.subrange(0, alloc@.len() as int) =~= alloc@);
            }
            lemma_acc_mono_free(acc@, 0, w as int);
            lemma_acc_mono_free(acc@, first_w, w as int);
            lemma_acc_mono_free(acc@, w as int, acc@.len() - 1);
            lemma_acc_mono_free(acc@, w + 1, acc@.len() - 1);
        }
        crate::util::vec_extend(ops, &opss[w][slot]);
        proof {
            crate::ops::lemma_spans_concat(prev, opss@[w as int]@[slot as int]@);
            lemma_alloc_concat_prefix(alloc@, opss@, i as int);
            assert(ops@ =~= old(ops)@ + alloc_ops_concat(alloc@.subrange(0, i + 1 as int), opss@));
        }
        i += 1;
    }
    proof {
        assert(alloc@.subrange(0, alloc@.len() as int) =~= alloc@);
        assert(alloc@.subrange(0, 0) =~= Seq::<(usize, usize)>::empty());
    }
}

/// Monotonicity of a prefix-sum vector, from the stepwise bound alone.
proof fn lemma_acc_mono_free(acc: Seq<usize>, i: int, j: int)
    requires
        forall|k: int| 0 <= k < acc.len() - 1 ==> (#[trigger] acc[k]) <= acc[k + 1],
        0 <= i <= j < acc.len(),
    ensures
        acc[i] <= acc[j],
    decreases j - i,
{
    if i < j {
        lemma_acc_mono_free(acc, i + 1, j);
    }
}

proof fn lemma_alloc_qlen_suffix_nonneg(
    alloc: Seq<(usize, usize)>,
    opss: Seq<Vec<Vec<Op>>>,
    i: int,
)
    requires
        0 <= i <= alloc.len(),
        forall|k: int|
            0 <= k < alloc.len() ==> (#[trigger] alloc[k]).0 < opss.len() && alloc[k].1
                < opss[alloc[k].0 as int]@.len(),
    ensures
        alloc_qlen(alloc.subrange(0, i), opss) <= alloc_qlen(
            alloc.subrange(0, alloc.len() as int),
            opss,
        ),
    decreases alloc.len() - i,
{
    if i < alloc.len() {
        lemma_alloc_qlen_prefix(alloc, opss, i);
        crate::ops::lemma_spans_bounds(opss[alloc[i].0 as int]@[alloc[i].1 as int]@);
        lemma_alloc_qlen_suffix_nonneg(alloc, opss, i + 1);
    }
}

} // verus!
