//! Truncation of over-long inserted homopolymers.
//!
//! After polishing, a query may carry long runs of one base inserted against
//! the contig. Any insertion that would extend a query homopolymer run past
//! `TRUNCATE_LEN` is dropped together with its base.

use crate::alignment::Alignment;
use crate::ops::{lemma_spans_push, query_len, ref_len, Op};
use vstd::prelude::*;

verus! {

/// Longest query homopolymer run an insertion may extend to.
pub const TRUNCATE_LEN: usize = 5;

/// Length of the maximal run of equal bytes ending just before `qpos`.
pub open spec fn run_ending_at(query: Seq<u8>, qpos: int) -> int
    decreases qpos,
{
    if qpos <= 0 || qpos > query.len() {
        0
    } else if qpos == 1 {
        1
    } else if query[qpos - 1] == query[qpos - 2] {
        1 + run_ending_at(query, qpos - 1)
    } else {
        1
    }
}

/// The query position consumed by the op at index `i`.
pub open spec fn qpos_at(ops: Seq<Op>, i: int) -> int {
    query_len(ops.subrange(0, i))
}

/// No insertion sits at a query homopolymer run position beyond `max`.
pub open spec fn no_overlong_ins(query: Seq<u8>, ops: Seq<Op>, max: int) -> bool {
    forall|i: int|
        0 <= i < ops.len() && (#[trigger] ops[i]) is Ins ==> run_ending_at(query, qpos_at(ops, i) + 1)
            <= max
}

/// The kept bases after walking the first `k` ops: a deletion keeps no
/// base; any other op consumes the next query base, which is dropped
/// exactly when it is an insertion extending the kept run to beyond `max`.
pub open spec fn truncated_query(query: Seq<u8>, ops: Seq<Op>, k: int, max: int) -> Seq<u8>
    decreases k,
{
    if k <= 0 {
        Seq::empty()
    } else {
        let q0 = truncated_query(query, ops, k - 1, max);
        let op = ops[k - 1];
        if op is Del {
            q0
        } else {
            let qpos = query_len(ops.subrange(0, k - 1));
            let b = query[qpos];
            let extends = q0.len() > 0 && b == q0.last();
            if op is Ins && extends && run_ending_at(q0, q0.len() as int) >= max {
                q0
            } else {
                q0.push(b)
            }
        }
    }
}

/// The kept ops after walking the first `k` ops, dropping exactly the
/// insertions `truncated_query` drops the bases of.
pub open spec fn truncated_ops(query: Seq<u8>, ops: Seq<Op>, k: int, max: int) -> Seq<Op>
    decreases k,
{
    if k <= 0 {
        Seq::empty()
    } else {
        let o0 = truncated_ops(query, ops, k - 1, max);
        let q0 = truncated_query(query, ops, k - 1, max);
        let op = ops[k - 1];
        if op is Del {
            o0.push(op)
        } else {
            let qpos = query_len(ops.subrange(0, k - 1));
            let b = query[qpos];
            let extends = q0.len() > 0 && b == q0.last();
            if op is Ins && extends && run_ending_at(q0, q0.len() as int) >= max {
                o0
            } else {
                o0.push(op)
            }
        }
    }
}

/// A run ending before `qpos` depends only on the bytes before `qpos`.
proof fn lemma_run_agree(q1: Seq<u8>, q2: Seq<u8>, qpos: int)
    requires
        0 <= qpos <= q1.len(),
        qpos <= q2.len(),
        forall|i: int| 0 <= i < qpos ==> q1[i] == q2[i],
    ensures
        run_ending_at(q1, qpos) == run_ending_at(q2, qpos),
    decreases qpos,
{
    if qpos > 1 {
        lemma_run_agree(q1, q2, qpos - 1);
    }
}

proof fn lemma_qpos_push(ops: Seq<Op>, op: Op, i: int)
    requires
        0 <= i <= ops.len(),
    ensures
        qpos_at(ops.push(op), i) == qpos_at(ops, i),
{
    assert(ops.push(op).subrange(0, i) =~= ops.subrange(0, i));
}

impl Alignment {
    /// Drop every insertion (with its query base) that would extend a query
    /// homopolymer run past `max_allowed`; the contig range is untouched and
    /// the two length invariants still hold. An alignment already free of
    /// over-long inserted runs comes back unchanged.
    pub fn truncate_long_homopolymers(&mut self, max_allowed: usize)
        requires
            old(self).wf(),
            max_allowed >= 1,
        ensures
            final(self).wf(),
            no_overlong_ins(final(self).query@, final(self).ops@, max_allowed as int),
            final(self).contig_start == old(self).contig_start,
            final(self).contig_end == old(self).contig_end,
            final(self).contig == old(self).contig,
            final(self).read_id == old(self).read_id,
            final(self).is_forward == old(self).is_forward,
            ref_len(final(self).ops@) == ref_len(old(self).ops@),
            final(self).query@.len() <= old(self).query@.len(),
            final(self).query@ == truncated_query(
                old(self).query@,
                old(self).ops@,
                old(self).ops@.len() as int,
                max_allowed as int,
            ),
            final(self).ops@ == truncated_ops(
                old(self).query@,
                old(self).ops@,
                old(self).ops@.len() as int,
                max_allowed as int,
            ),
            no_overlong_ins(old(self).query@, old(self).ops@, max_allowed as int) ==> (final(
                self).query@ == old(self).query@ && final(self).ops@ == old(self).ops@),
    {
        let ghost g_ops = self.ops@;
        let ghost g_query = self.query@;
        let mut new_query: Vec<u8> = Vec::new();
        let mut new_ops: Vec<Op> = Vec::new();
        let mut qpos: usize = 0;
        let mut run: usize = 0;
        let mut k: usize = 0;
        let ghost g_pristine = no_overlong_ins(g_query, g_ops, max_allowed as int);
        while k < self.ops.len()
            invariant
                self.ops@ == g_ops,
                self.query@ == g_query,
                self.wf(),
                k <= g_ops.len(),
                max_allowed >= 1,
                qpos == query_len(g_ops.subrange(0, k as int)),
                qpos <= g_query.len(),
                new_query@.len() <= qpos,
                query_len(new_ops@) == new_query@.len(),
                ref_len(new_ops@) == ref_len(g_ops.subrange(0, k as int)),
                run == run_ending_at(new_query@, new_query@.len() as int),
                run <= new_query@.len(),
                new_query@ == truncated_query(g_query, g_ops, k as int, max_allowed as int),
                new_ops@ == truncated_ops(g_query, g_ops, k as int, max_allowed as int),
                no_overlong_ins(new_query@, new_ops@, max_allowed as int),
                g_pristine == no_overlong_ins(g_query, g_ops, max_allowed as int),
                g_pristine ==> new_ops@ == g_ops.subrange(0, k as int) && new_query@
                    == g_query.subrange(0, qpos as int),
            decreases g_ops.len() - k,
        {
            proof {
                crate::ops::lemma_spans_bounds(g_ops.subrange(0, k as int));
                assert(g_ops.subrange(0, k + 1 as int).drop_last() =~= g_ops.subrange(0, k as int));
                crate::ops::lemma_spans_bounds(g_ops.subrange(0, k + 1 as int));
                crate::ops::lemma_spans_split(g_ops, k + 1 as int);
                crate::ops::lemma_spans_bounds(g_ops.subrange(k + 1 as int, g_ops.len() as int));
            }
            let op = self.ops[k];
            let ghost old_new_ops = new_ops@;
            let ghost old_new_query = new_query@;
            if op == Op::Del {
                new_ops.push(op);
                proof {
                    lemma_spans_push(old_new_ops, op);
                    assert forall|i: int|
                        0 <= i < new_ops@.len() && (#[trigger] new_ops@[i]) is Ins implies
                        run_ending_at(new_query@, qpos_at(new_ops@, i) + 1)
                            <= max_allowed as int by {
                        lemma_qpos_push(old_new_ops, op, i);
                    }
                    if g_pristine {
                        assert(new_ops@ =~= g_ops.subrange(0, k + 1 as int));
                    }
                }
            } else {
                let b = self.query[qpos];
                let extends = new_query.len() > 0 && b == new_query[new_query.len() - 1];
                if op == Op::Ins && extends && run >= max_allowed {
                    // drop this op and its base
                    proof {
                        if g_pristine {
                            // the kept prefix equals the original one here, so the
                            // original op would itself break the bound
                            assert(g_ops[k as int] is Ins);
                            assert(qpos_at(g_ops, k as int) == qpos);
                            assert(new_query@ == g_query.subrange(0, qpos as int));
                            assert(new_query@.len() == qpos);
                            assert(run_ending_at(g_query, qpos + 1 as int) > max_allowed as int)
                                by {
                                lemma_run_agree(new_query@.push(b), g_query, qpos + 1 as int);
                                lemma_run_agree(new_query@.push(b), new_query@, qpos as int);
                            }
                            assert(false);
                        }
                    }
                } else {
                    new_ops.push(op);
                    new_query.push(b);
                    if extends {
                        run = run + 1;
                    } else {
                        run = 1;
                    }
                    proof {
                        lemma_spans_push(old_new_ops, op);
                        lemma_run_agree(new_query@, old_new_query, old_new_query.len() as int);
                        assert(run == run_ending_at(new_query@, new_query@.len() as int));
                        assert forall|i: int|
                            0 <= i < new_ops@.len() && (#[trigger] new_ops@[i]) is Ins implies
                            run_ending_at(new_query@, qpos_at(new_ops@, i) + 1)
                                <= max_allowed as int by {
                            if i < old_new_ops.len() {
                                lemma_qpos_push(old_new_ops, op, i);
                                crate::ops::lemma_spans_split(old_new_ops, i);
                                crate::ops::lemma_spans_drop_first(
                                    old_new_ops.subrange(i, old_new_ops.len() as int),
                                );
                                crate::ops::lemma_spans_bounds(
                                    old_new_ops.subrange(i, old_new_ops.len() as int).drop_first(),
                                );
                                crate::ops::lemma_spans_bounds(old_new_ops.subrange(0, i));
                                assert(qpos_at(new_ops@, i) + 1 <= old_new_query.len());
                                lemma_run_agree(
                                    new_query@,
                                    old_new_query,
                                    qpos_at(old_new_ops, i) + 1,
                                );
                            } else {
                                assert(i == old_new_ops.len());
                                assert(qpos_at(new_ops@, i) == query_len(old_new_ops)) by {
                                    assert(new_ops@.subrange(0, i) =~= old_new_ops);
                                }
                            }
                        }
                        if g_pristine {
                            assert(new_ops@ =~= g_ops.subrange(0, k + 1 as int));
                            assert(new_query@ =~= g_query.subrange(0, qpos + 1 as int));
                        }
                    }
                }
                qpos += 1;
            }
            k += 1;
        }
        proof {
            assert(g_ops.subrange(0, g_ops.len() as int) =~= g_ops);
            if g_pristine {
                assert(new_ops@ =~= g_ops);
                assert(new_query@ =~= g_query);
            }
        }
        self.query = new_query;
        self.ops = new_ops;
    }
}

} // verus!
