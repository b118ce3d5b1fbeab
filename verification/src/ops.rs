//! Alignment operations and the two length measures every alignment obeys.
//!
//! An op sequence aligns a query against a reference: every op other than an
//! insertion consumes one reference base, and every op other than a deletion
//! consumes one query base.

use vstd::prelude::*;

verus! {

/// One alignment operation.
#[derive(Debug, Clone, Copy, PartialEq, Eq, Structural)]
pub enum Op {
    Match,
    Mismatch,
    Ins,
    Del,
}

/// Number of reference bases consumed by `ops`: the ops that are not insertions.
pub open spec fn ref_len(ops: Seq<Op>) -> int
    decreases ops.len(),
{
    if ops.len() == 0 {
        0
    } else {
        ref_len(ops.drop_last()) + if ops.last() is Ins {
            0int
        } else {
            1int
        }
    }
}

/// Number of query bases consumed by `ops`: the ops that are not deletions.
pub open spec fn query_len(ops: Seq<Op>) -> int
    decreases ops.len(),
{
    if ops.len() == 0 {
        0
    } else {
        query_len(ops.drop_last()) + if ops.last() is Del {
            0int
        } else {
            1int
        }
    }
}

pub proof fn lemma_spans_bounds(ops: Seq<Op>)
    ensures
        0 <= ref_len(ops) <= ops.len(),
        0 <= query_len(ops) <= ops.len(),
    decreases ops.len(),
{
    if ops.len() > 0 {
        lemma_spans_bounds(ops.drop_last());
    }
}

/// Every op consumes at least one base on one side.
pub proof fn lemma_spans_len(ops: Seq<Op>)
    ensures
        ops.len() <= ref_len(ops) + query_len(ops),
        ref_len(ops) + query_len(ops) <= 2 * ops.len(),
    decreases ops.len(),
{
    if ops.len() > 0 {
        lemma_spans_len(ops.drop_last());
    }
}

/// Both measures distribute over concatenation.
pub proof fn lemma_spans_concat(a: Seq<Op>, b: Seq<Op>)
    ensures
        ref_len(a + b) == ref_len(a) + ref_len(b),
        query_len(a + b) == query_len(a) + query_len(b),
    decreases b.len(),
{
    if b.len() == 0 {
        assert(a + b =~= a);
    } else {
        lemma_spans_concat(a, b.drop_last());
        assert((a + b).drop_last() =~= a + b.drop_last());
    }
}

/// Both measures split at any cut point.
pub proof fn lemma_spans_split(ops: Seq<Op>, i: int)
    requires
        0 <= i <= ops.len(),
    ensures
        ref_len(ops) == ref_len(ops.subrange(0, i)) + ref_len(ops.subrange(i, ops.len() as int)),
        query_len(ops) == query_len(ops.subrange(0, i)) + query_len(
            ops.subrange(i, ops.len() as int),
        ),
{
    let a = ops.subrange(0, i);
    let b = ops.subrange(i, ops.len() as int);
    assert(ops =~= a + b);
    lemma_spans_concat(a, b);
}

pub proof fn lemma_spans_single(op: Op)
    ensures
        ref_len(seq![op]) == if op is Ins {
            0int
        } else {
            1int
        },
        query_len(seq![op]) == if op is Del {
            0int
        } else {
            1int
        },
{
    assert(seq![op].drop_last() =~= Seq::<Op>::empty());
    assert(ref_len(Seq::<Op>::empty()) == 0);
    assert(query_len(Seq::<Op>::empty()) == 0);
}

/// Peel one op off the front of a sequence.
pub proof fn lemma_spans_drop_first(s: Seq<Op>)
    requires
        s.len() > 0,
    ensures
        ref_len(s) == ref_len(s.drop_first()) + if s[0] is Ins {
            0int
        } else {
            1int
        },
        query_len(s) == query_len(s.drop_first()) + if s[0] is Del {
            0int
        } else {
            1int
        },
{
    lemma_spans_split(s, 1);
    assert(s.subrange(0, 1) =~= seq![s[0]]);
    lemma_spans_single(s[0]);
    assert(s.subrange(1, s.len() as int) =~= s.drop_first());
}

pub proof fn lemma_spans_push(ops: Seq<Op>, op: Op)
    ensures
        ref_len(ops.push(op)) == ref_len(ops) + if op is Ins {
            0int
        } else {
            1int
        },
        query_len(ops.push(op)) == query_len(ops) + if op is Del {
            0int
        } else {
            1int
        },
{
    assert(ops.push(op).drop_last() =~= ops);
}

/// Reversal changes neither measure.
pub proof fn lemma_spans_reverse(s: Seq<Op>)
    ensures
        ref_len(s.reverse()) == ref_len(s),
        query_len(s.reverse()) == query_len(s),
    decreases s.len(),
{
    if s.len() > 0 {
        lemma_spans_reverse(s.drop_first());
        lemma_spans_drop_first(s);
        assert(s.reverse().drop_last() =~= s.drop_first().reverse());
        assert(s.reverse().last() == s[0]);
    }
}

/// A run of `n` copies of one op.
pub open spec fn repeat_op(op: Op, n: int) -> Seq<Op> {
    Seq::new(n as nat, |i: int| op)
}

pub proof fn lemma_spans_repeat(op: Op, n: int)
    requires
        0 <= n,
    ensures
        ref_len(repeat_op(op, n)) == if op is Ins {
            0int
        } else {
            n
        },
        query_len(repeat_op(op, n)) == if op is Del {
            0int
        } else {
            n
        },
    decreases n,
{
    if n > 0 {
        lemma_spans_repeat(op, n - 1);
        assert(repeat_op(op, n).drop_last() =~= repeat_op(op, n - 1));
    }
}

/// Count the ops that consume a reference base.
pub fn count_ref_len(ops: &Vec<Op>) -> (r: usize)
    ensures
        r == ref_len(ops@),
{
    proof {
        lemma_spans_bounds(ops@);
    }
    let mut r: usize = 0;
    let mut k: usize = 0;
    while k < ops.len()
        invariant
            k <= ops.len(),
            r == ref_len(ops@.subrange(0, k as int)),
            r <= k,
        decreases ops.len() - k,
    {
        proof {
            assert(ops@.subrange(0, k + 1 as int).drop_last() =~= ops@.subrange(0, k as int));
            lemma_spans_bounds(ops@.subrange(0, k + 1 as int));
        }
        if ops[k] != Op::Ins {
            r += 1;
        }
        k += 1;
    }
    proof {
        assert(ops@.subrange(0, ops@.len() as int) =~= ops@);
    }
    r
}

/// Append `n` copies of `op`.
pub fn extend_repeat(ops: &mut Vec<Op>, op: Op, n: usize)
    requires
        old(ops)@.len() + n <= usize::MAX,
    ensures
        final(ops)@ == old(ops)@ + repeat_op(op, n as int),
{
    let mut k: usize = 0;
    while k < n
        invariant
            k <= n,
            ops@.len() == old(ops)@.len() + k,
            ops@ == old(ops)@ + repeat_op(op, k as int),
        decreases n - k,
    {
        ops.push(op);
        proof {
            assert(old(ops)@ + repeat_op(op, k + 1 as int) =~= (old(ops)@ + repeat_op(
                op,
                k as int,
            )).push(op));
        }
        k += 1;
    }
}

} // verus!
