//! Base-level alignment by unit-cost edit distance.
//!
//! Three modes are used by the consensus code: global (both sequences end to
//! end), infix (the query against any window of the segment), and prefix (the
//! query against a prefix of the segment). The contracts pin the two length
//! measures of the returned ops; the distance itself only guides the choice.

use crate::ops::{
    extend_repeat, lemma_spans_bounds, lemma_spans_push, lemma_spans_repeat, query_len, ref_len,
    repeat_op, Op,
};
use vstd::prelude::*;

verus! {

/// Largest sequence length the aligner accepts; keeps every cost below
/// `usize::MAX`.
pub const MAX_ALIGN_LEN: usize = 0x1000_0000;


/// The edit-distance table value at `(i, j)`, the first row free in infix
/// mode, values capped at the working bound.
pub open spec fn edit_dp_spec(query: Seq<u8>, target: Seq<u8>, free_start: bool, i: int, j: int)
    -> int
    decreases (if i > 0 {
        i
    } else {
        0
    }) + (if j > 0 {
        j
    } else {
        0
    }),
{
    let cap = query.len() + target.len();
    if i <= 0 && j <= 0 {
        0
    } else if i <= 0 {
        if free_start {
            0
        } else if j <= cap {
            j
        } else {
            cap as int
        }
    } else if j <= 0 {
        let first = edit_dp_spec(query, target, free_start, i - 1, 0) + 1;
        if first > cap {
            cap as int
        } else {
            first
        }
    } else {
        let sub: int = if query[i - 1] == target[j - 1] {
            0
        } else {
            1
        };
        let diag = edit_dp_spec(query, target, free_start, i - 1, j - 1) + sub;
        let up = edit_dp_spec(query, target, free_start, i - 1, j) + 1;
        let left = edit_dp_spec(query, target, free_start, i, j - 1) + 1;
        let b1 = if up < diag {
            up
        } else {
            diag
        };
        let best = if left < b1 {
            left
        } else {
            b1
        };
        if best > cap {
            cap as int
        } else {
            best
        }
    }
}

/// The ops of the walk back from `(q, r)`, in the order they are shed:
/// a match when the bytes agree and the diagonal explains the cell, then a
/// mismatch, then a target gap, then a query gap.
pub open spec fn walk_ops_spec(query: Seq<u8>, target: Seq<u8>, free_start: bool, q: int, r: int)
    -> Seq<Op>
    decreases (if q > 0 {
        q
    } else {
        0
    }) + (if r > 0 {
        r
    } else {
        0
    }),
{
    if q > 0 || (!free_start && r > 0) {
        let current = edit_dp_spec(query, target, free_start, q, r);
        if q > 0 && r > 0 && query[q - 1] == target[r - 1] && current == edit_dp_spec(
            query,
            target,
            free_start,
            q - 1,
            r - 1,
        ) {
            seq![Op::Match] + walk_ops_spec(query, target, free_start, q - 1, r - 1)
        } else if q > 0 && r > 0 && query[q - 1] != target[r - 1] && current == edit_dp_spec(
            query,
            target,
            free_start,
            q - 1,
            r - 1,
        ) + 1 {
            seq![Op::Mismatch] + walk_ops_spec(query, target, free_start, q - 1, r - 1)
        } else if r > 0 && current == edit_dp_spec(query, target, free_start, q, r - 1) + 1 {
            seq![Op::Del] + walk_ops_spec(query, target, free_start, q, r - 1)
        } else if q > 0 {
            seq![Op::Ins] + walk_ops_spec(query, target, free_start, q - 1, r)
        } else {
            seq![Op::Del] + walk_ops_spec(query, target, free_start, q, r - 1)
        }
    } else {
        Seq::empty()
    }
}

/// The target position the walk back from `(q, r)` stops in.
pub open spec fn walk_start_spec(query: Seq<u8>, target: Seq<u8>, free_start: bool, q: int, r: int)
    -> int
    decreases (if q > 0 {
        q
    } else {
        0
    }) + (if r > 0 {
        r
    } else {
        0
    }),
{
    if q > 0 || (!free_start && r > 0) {
        let current = edit_dp_spec(query, target, free_start, q, r);
        if q > 0 && r > 0 && query[q - 1] == target[r - 1] && current == edit_dp_spec(
            query,
            target,
            free_start,
            q - 1,
            r - 1,
        ) {
            walk_start_spec(query, target, free_start, q - 1, r - 1)
        } else if q > 0 && r > 0 && query[q - 1] != target[r - 1] && current == edit_dp_spec(
            query,
            target,
            free_start,
            q - 1,
            r - 1,
        ) + 1 {
            walk_start_spec(query, target, free_start, q - 1, r - 1)
        } else if r > 0 && current == edit_dp_spec(query, target, free_start, q, r - 1) + 1 {
            walk_start_spec(query, target, free_start, q, r - 1)
        } else if q > 0 {
            walk_start_spec(query, target, free_start, q - 1, r)
        } else {
            walk_start_spec(query, target, free_start, q, r - 1)
        }
    } else {
        r
    }
}

/// The first column minimizing the bottom table row: where the query's
/// placement ends.
pub open spec fn best_end_spec(query: Seq<u8>, target: Seq<u8>, free_start: bool) -> int {
    best_end_scan(query, target, free_start, target.len() as int)
}

/// The first minimum of the bottom row over columns `0..=j`.
pub open spec fn best_end_scan(query: Seq<u8>, target: Seq<u8>, free_start: bool, j: int) -> int
    decreases j,
{
    if j <= 0 {
        0
    } else {
        let prev = best_end_scan(query, target, free_start, j - 1);
        if edit_dp_spec(query, target, free_start, query.len() as int, j) < edit_dp_spec(
            query,
            target,
            free_start,
            query.len() as int,
            prev,
        ) {
            j
        } else {
            prev
        }
    }
}

/// Edit-distance table for `query` against `target`; row 0 is free when
/// `free_start` (infix mode), else it pays for leading target bases.
fn edit_dp(query: &Vec<u8>, target: &Vec<u8>, free_start: bool) -> (dp: Vec<Vec<usize>>)
    requires
        query@.len() <= MAX_ALIGN_LEN,
        target@.len() <= MAX_ALIGN_LEN,
    ensures
        dp@.len() == query@.len() + 1,
        forall|i: int| 0 <= i < dp@.len() ==> (#[trigger] dp@[i])@.len() == target@.len() + 1,
        forall|i: int, j: int|
            0 <= i < dp@.len() && 0 <= j < dp@[i]@.len() ==> (#[trigger] dp@[i]@[j]) <= query@.len()
                + target@.len(),
        forall|i: int, j: int|
            0 <= i < dp@.len() && 0 <= j < dp@[i]@.len() ==> (#[trigger] dp@[i]@[j])
                == edit_dp_spec(query@, target@, free_start, i, j),
{
    let n = query.len();
    let m = target.len();
    let mut dp: Vec<Vec<usize>> = Vec::new();
    let mut row0: Vec<usize> = Vec::new();
    let mut j: usize = 0;
    while j <= m
        invariant
            j <= m + 1,
            m <= MAX_ALIGN_LEN,
            n == query@.len(),
            m == target@.len(),
            row0@.len() == j,
            forall|k: int| 0 <= k < j ==> (#[trigger] row0@[k]) <= m,
            forall|k: int|
                0 <= k < j ==> (#[trigger] row0@[k]) == edit_dp_spec(query@, target@, free_start, 0, k),
        decreases m + 1 - j,
    {
        if free_start {
            row0.push(0);
        } else {
            row0.push(j);
        }
        j += 1;
    }
    dp.push(row0);
    let mut i: usize = 1;
    while i <= n
        invariant
            1 <= i <= n + 1,
            n <= MAX_ALIGN_LEN,
            m <= MAX_ALIGN_LEN,
            n == query@.len(),
            m == target@.len(),
            dp@.len() == i,
            forall|p: int| 0 <= p < dp@.len() ==> (#[trigger] dp@[p])@.len() == m + 1,
            forall|p: int, q: int|
                0 <= p < dp@.len() && 0 <= q < m + 1 ==> (#[trigger] dp@[p]@[q]) <= n + m,
            forall|p: int, q: int|
                0 <= p < dp@.len() && 0 <= q < m + 1 ==> (#[trigger] dp@[p]@[q]) == edit_dp_spec(
                    query@,
                    target@,
                    free_start,
                    p,
                    q,
                ),
        decreases n + 1 - i,
    {
        let mut row: Vec<usize> = Vec::new();
        // consuming query bases before the start always costs
        let mut first = dp[i - 1][0] + 1;
        if first > n + m {
            first = n + m;
        }
        row.push(first);
        let mut j: usize = 1;
        while j <= m
            invariant
                1 <= j <= m + 1,
                1 <= i <= n,
                n <= MAX_ALIGN_LEN,
                m <= MAX_ALIGN_LEN,
                n == query@.len(),
                m == target@.len(),
                dp@.len() == i,
                forall|p: int| 0 <= p < dp@.len() ==> (#[trigger] dp@[p])@.len() == m + 1,
                forall|p: int, q: int|
                    0 <= p < dp@.len() && 0 <= q < m + 1 ==> (#[trigger] dp@[p]@[q]) <= n + m,
                row@.len() == j,
                forall|q: int| 0 <= q < j ==> (#[trigger] row@[q]) <= n + m,
                forall|p: int, q: int|
                    0 <= p < dp@.len() && 0 <= q < m + 1 ==> (#[trigger] dp@[p]@[q])
                        == edit_dp_spec(query@, target@, free_start, p, q),
                forall|q: int|
                    0 <= q < j ==> (#[trigger] row@[q]) == edit_dp_spec(
                        query@,
                        target@,
                        free_start,
                        i as int,
                        q,
                    ),
            decreases m + 1 - j,
        {
            let sub = if query[i - 1] == target[j - 1] {
                0
            } else {
                1
            };
            let diag = dp[i - 1][j - 1] + sub;
            let up = dp[i - 1][j] + 1;
            let left = row[j - 1] + 1;
            let mut best = diag;
            if up < best {
                best = up;
            }
            if left < best {
                best = left;
            }
            if best > n + m {
                best = n + m;
            }
            row.push(best);
            j += 1;
        }
        dp.push(row);
        i += 1;
    }
    dp
}

/// The table holds exactly the spec values.
pub open spec fn dp_matches_spec(
    dp: Seq<Vec<usize>>,
    query: Seq<u8>,
    target: Seq<u8>,
    free_start: bool,
) -> bool {
    forall|i: int, j: int|
        0 <= i < dp.len() && 0 <= j < dp[i]@.len() ==> (#[trigger] dp[i]@[j]) == edit_dp_spec(
            query,
            target,
            free_start,
            i,
            j,
        )
}

/// Walk the table back from `(query.len(), end)`, emitting ops forward.
/// In infix mode the walk stops at the top row; the column it stops in is the
/// returned start. Otherwise it continues to column 0.
fn traceback(
    query: &Vec<u8>,
    target: &Vec<u8>,
    dp: &Vec<Vec<usize>>,
    end: usize,
    free_start: bool,
) -> (r: (usize, Vec<Op>))
    requires
        query@.len() <= MAX_ALIGN_LEN,
        target@.len() <= MAX_ALIGN_LEN,
        end <= target@.len(),
        dp@.len() == query@.len() + 1,
        forall|i: int| 0 <= i < dp@.len() ==> (#[trigger] dp@[i])@.len() == target@.len() + 1,
        forall|i: int, j: int|
            0 <= i < dp@.len() && 0 <= j < dp@[i]@.len() ==> (#[trigger] dp@[i]@[j]) <= query@.len()
                + target@.len(),
    ensures
        r.0 <= end,
        ref_len(r.1@) == end - r.0,
        query_len(r.1@) == query@.len(),
        r.1@.len() <= query@.len() + end,
        !free_start ==> r.0 == 0,
        forall|i: int, j: int|
            0 <= i < dp@.len() && 0 <= j < dp@[i]@.len() ==> (#[trigger] dp@[i]@[j])
                == edit_dp_spec(query@, target@, free_start, i, j) ==> true,
        dp_matches_spec(dp@, query@, target@, free_start) ==> r.1@ == walk_ops_spec(
            query@,
            target@,
            free_start,
            query@.len() as int,
            end as int,
        ).reverse() && r.0 == walk_start_spec(
            query@,
            target@,
            free_start,
            query@.len() as int,
            end as int,
        ),
{
    let mut q = query.len();
    let mut r = end;
    let mut rev: Vec<Op> = Vec::new();
    proof {
        if dp_matches_spec(dp@, query@, target@, free_start) {
            assert(rev@ + walk_ops_spec(query@, target@, free_start, q as int, r as int)
                =~= walk_ops_spec(query@, target@, free_start, q as int, r as int));
        }
    }
    while q > 0 || (!free_start && r > 0)
        invariant
            q <= query@.len() <= MAX_ALIGN_LEN,
            r <= end <= target@.len() <= MAX_ALIGN_LEN,
            dp@.len() == query@.len() + 1,
            forall|i: int| 0 <= i < dp@.len() ==> (#[trigger] dp@[i])@.len() == target@.len() + 1,
            forall|i: int, j: int|
                0 <= i < dp@.len() && 0 <= j < dp@[i]@.len() ==> (#[trigger] dp@[i]@[j])
                    <= query@.len() + target@.len(),
            ref_len(rev@) == end - r,
            query_len(rev@) == query@.len() - q,
            rev@.len() <= (query@.len() - q) + (end - r),
            dp_matches_spec(dp@, query@, target@, free_start) ==> rev@ + walk_ops_spec(
                query@,
                target@,
                free_start,
                q as int,
                r as int,
            ) == walk_ops_spec(query@, target@, free_start, query@.len() as int, end as int)
                && walk_start_spec(query@, target@, free_start, q as int, r as int)
                == walk_start_spec(query@, target@, free_start, query@.len() as int, end as int),
        decreases q + r,
    {
        let ghost prev = rev@;
        let ghost walk_here = walk_ops_spec(query@, target@, free_start, q as int, r as int);
        let op: Op;
        if q > 0 && r > 0 && query[q - 1] == target[r - 1] && dp[q][r] == dp[q - 1][r - 1] {
            op = Op::Match;
            q -= 1;
            r -= 1;
        } else if q > 0 && r > 0 && query[q - 1] != target[r - 1] && dp[q][r] == dp[q - 1][r - 1]
            + 1 {
            op = Op::Mismatch;
            q -= 1;
            r -= 1;
        } else if r > 0 && dp[q][r] == dp[q][r - 1] + 1 {
            op = Op::Del;
            r -= 1;
        } else if q > 0 {
            op = Op::Ins;
            q -= 1;
        } else {
            op = Op::Del;
            r -= 1;
        }
        rev.push(op);
        proof {
            lemma_spans_push(prev, op);
            if dp_matches_spec(dp@, query@, target@, free_start) {
                assert(walk_here == seq![op] + walk_ops_spec(
                    query@,
                    target@,
                    free_start,
                    q as int,
                    r as int,
                ));
                assert(rev@ + walk_ops_spec(query@, target@, free_start, q as int, r as int)
                    =~= prev + walk_here);
            }
        }
    }
    proof {
        if dp_matches_spec(dp@, query@, target@, free_start) {
            assert(walk_ops_spec(query@, target@, free_start, q as int, r as int)
                =~= Seq::<Op>::empty());
            assert(rev@ =~= walk_ops_spec(
                query@,
                target@,
                free_start,
                query@.len() as int,
                end as int,
            ));
        }
    }
    let ops = crate::util::vec_reverse(&rev);
    proof {
        crate::ops::lemma_spans_reverse(rev@);
    }
    (r, ops)
}

/// What the end-to-end alignment returns: all matches on identical
/// sequences, otherwise the table's own walk.
pub open spec fn global_spec(q: Seq<u8>, t: Seq<u8>) -> Seq<Op> {
    if q == t {
        repeat_op(Op::Match, t.len() as int)
    } else {
        walk_ops_spec(q, t, false, q.len() as int, t.len() as int).reverse()
    }
}

/// End-to-end alignment of `query` against `target`. Identical sequences
/// align as all matches.
pub fn global_align(query: &Vec<u8>, target: &Vec<u8>) -> (r: Vec<Op>)
    requires
        query@.len() <= MAX_ALIGN_LEN,
        target@.len() <= MAX_ALIGN_LEN,
    ensures
        ref_len(r@) == target@.len(),
        query_len(r@) == query@.len(),
        query@ == target@ ==> r@ == repeat_op(Op::Match, target@.len() as int),
        query@ != target@ ==> r@ == walk_ops_spec(
            query@,
            target@,
            false,
            query@.len() as int,
            target@.len() as int,
        ).reverse(),
        r@ == global_spec(query@, target@),
{
    if query.len() == target.len() {
        let mut same = true;
        let mut k: usize = 0;
        proof {
            assert(query@.subrange(0, 0) =~= target@.subrange(0, 0));
        }
        while k < query.len()
            invariant
                k <= query@.len(),
                query@.len() == target@.len(),
                same <==> query@.subrange(0, k as int) == target@.subrange(0, k as int),
            decreases query@.len() - k,
        {
            let ghost qk = query@.subrange(0, k as int);
            let ghost tk = target@.subrange(0, k as int);
            if query[k] != target[k] {
                proof {
                    assert(query@.subrange(0, k + 1 as int)[k as int] == query@[k as int]);
                }
                same = false;
            } else {
                proof {
                    assert(query@.subrange(0, k + 1 as int) =~= qk.push(query@[k as int]));
                    assert(target@.subrange(0, k + 1 as int) =~= tk.push(target@[k as int]));
                    if same {
                        assert(query@.subrange(0, k + 1 as int) =~= target@.subrange(
                            0,
                            k + 1 as int,
                        ));
                    } else {
                        assert(qk != tk);
                        if query@.subrange(0, k + 1 as int) == target@.subrange(0, k + 1 as int) {
                            assert(qk =~= query@.subrange(0, k + 1 as int).subrange(0, k as int));
                            assert(tk =~= target@.subrange(0, k + 1 as int).subrange(0, k as int));
                            assert(false);
                        }
                    }
                }
            }
            k += 1;
        }
        if same {
            proof {
                assert(query@.subrange(0, query@.len() as int) =~= query@);
                assert(target@.subrange(0, target@.len() as int) =~= target@);
            }
            let mut ops: Vec<Op> = Vec::new();
            extend_repeat(&mut ops, Op::Match, target.len());
            proof {
                assert(ops@ =~= repeat_op(Op::Match, target@.len() as int));
                lemma_spans_repeat(Op::Match, target@.len() as int);
            }
            return ops;
        }
    }
    let dp = edit_dp(query, target, false);
    let (_, ops) = traceback(query, target, &dp, target.len(), false);
    ops
}

/// Best placement of the whole query inside the segment; returns the segment
/// range it occupies and the ops over that range.
pub fn align_infix(query: &Vec<u8>, seg: &Vec<u8>) -> (r: (usize, Vec<Op>, usize))
    requires
        query@.len() > 0,
        seg@.len() > 0,
        query@.len() <= MAX_ALIGN_LEN,
        seg@.len() <= MAX_ALIGN_LEN,
    ensures
        r.0 <= r.2 <= seg@.len(),
        ref_len(r.1@) == r.2 - r.0,
        query_len(r.1@) == query@.len(),
        r.1@.len() <= query@.len() + seg@.len(),
        r.2 == best_end_spec(query@, seg@, true),
        r.1@ == walk_ops_spec(
            query@,
            seg@,
            true,
            query@.len() as int,
            best_end_spec(query@, seg@, true),
        ).reverse(),
        r.0 == walk_start_spec(
            query@,
            seg@,
            true,
            query@.len() as int,
            best_end_spec(query@, seg@, true),
        ),
{
    let dp = edit_dp(query, seg, true);
    let n = query.len();
    let mut best_j: usize = 0;
    let mut j: usize = 1;
    while j <= seg.len()
        invariant
            1 <= j <= seg@.len() + 1,
            seg@.len() <= MAX_ALIGN_LEN,
            best_j < j,
            n == query@.len(),
            dp@.len() == query@.len() + 1,
            forall|i: int| 0 <= i < dp@.len() ==> (#[trigger] dp@[i])@.len() == seg@.len() + 1,
            dp_matches_spec(dp@, query@, seg@, true),
            best_j as int == best_end_scan(query@, seg@, true, j - 1),
        decreases seg@.len() + 1 - j,
    {
        if dp[n][j] < dp[n][best_j] {
            best_j = j;
        }
        j += 1;
    }
    proof {
        assert(best_j as int == best_end_spec(query@, seg@, true));
    }
    let (start, ops) = traceback(query, seg, &dp, best_j, true);
    (start, ops, best_j)
}

/// Align the query against a prefix of the segment; returns the ops and the
/// length of the prefix they consume.
pub fn align_prefix(query: &Vec<u8>, seg: &Vec<u8>) -> (r: (Vec<Op>, usize))
    requires
        query@.len() > 0,
        seg@.len() > 0,
        query@.len() <= MAX_ALIGN_LEN,
        seg@.len() <= MAX_ALIGN_LEN,
    ensures
        r.1 <= seg@.len(),
        ref_len(r.0@) == r.1,
        query_len(r.0@) == query@.len(),
        r.1 == best_end_spec(query@, seg@, false),
        r.0@ == walk_ops_spec(
            query@,
            seg@,
            false,
            query@.len() as int,
            best_end_spec(query@, seg@, false),
        ).reverse(),
{
    let dp = edit_dp(query, seg, false);
    let n = query.len();
    let mut best_j: usize = 0;
    let mut j: usize = 1;
    while j <= seg.len()
        invariant
            1 <= j <= seg@.len() + 1,
            seg@.len() <= MAX_ALIGN_LEN,
            best_j < j,
            n == query@.len(),
            dp@.len() == query@.len() + 1,
            forall|i: int| 0 <= i < dp@.len() ==> (#[trigger] dp@[i])@.len() == seg@.len() + 1,
            dp_matches_spec(dp@, query@, seg@, false),
            best_j as int == best_end_scan(query@, seg@, false, j - 1),
        decreases seg@.len() + 1 - j,
    {
        if dp[n][j] < dp[n][best_j] {
            best_j = j;
        }
        j += 1;
    }
    proof {
        assert(best_j as int == best_end_spec(query@, seg@, false));
    }
    let (_, ops) = traceback(query, seg, &dp, best_j, false);
    (ops, best_j)
}

/// Where the segment window considered for a leading tip begins.
pub open spec fn lead_cut_spec(query: Seq<u8>, seg: Seq<u8>) -> int {
    if seg.len() > 2 * query.len() {
        seg.len() - 2 * query.len()
    } else {
        0
    }
}

/// Where the segment window considered for a trailing tip ends.
pub open spec fn trail_cut_spec(query: Seq<u8>, seg: Seq<u8>) -> int {
    if seg.len() < 2 * query.len() {
        seg.len() as int
    } else {
        2 * query.len() as int
    }
}

/// Align a leading query tip against the tail of a segment: at most twice the
/// query length of the segment is considered, and the ops are padded with
/// deletions up to the segment end, so the consumed length counts back from
/// the segment end.
pub fn align_leading(query: &Vec<u8>, seg: &Vec<u8>) -> (r: (Vec<Op>, usize))
    requires
        2 * query@.len() <= MAX_ALIGN_LEN,
        seg@.len() <= usize::MAX - 1,
    ensures
        r.1 <= seg@.len(),
        ref_len(r.0@) == r.1,
        query_len(r.0@) == query@.len(),
        query@.len() == 0 ==> r.0@ == Seq::<Op>::empty() && r.1 == 0,
        query@.len() > 0 && seg@.len() == 0 ==> r.0@ == repeat_op(Op::Ins, query@.len() as int)
            && r.1 == 0,
        query@.len() > 0 && seg@.len() > 0 ==> ({
            let tail = seg@.subrange(lead_cut_spec(query@, seg@), seg@.len() as int);
            r.0@ == walk_ops_spec(
                query@,
                tail,
                true,
                query@.len() as int,
                best_end_spec(query@, tail, true),
            ).reverse() + repeat_op(Op::Del, tail.len() - best_end_spec(query@, tail, true))
        }),
{
    let len = query.len();
    let cut = if seg.len() > 2 * len {
        seg.len() - 2 * len
    } else {
        0
    };
    let seg_tail = crate::util::vec_slice(seg, cut, seg.len());
    proof {
        assert(seg_tail@ == seg@.subrange(lead_cut_spec(query@, seg@), seg@.len() as int));
    }
    if query.len() == 0 {
        let ops: Vec<Op> = Vec::new();
        (ops, 0)
    } else if seg_tail.len() == 0 {
        let mut ops: Vec<Op> = Vec::new();
        extend_repeat(&mut ops, Op::Ins, query.len());
        proof {
            lemma_spans_repeat(Op::Ins, query@.len() as int);
            assert(Seq::<Op>::empty() + repeat_op(Op::Ins, query@.len() as int) =~= repeat_op(
                Op::Ins,
                query@.len() as int,
            ));
        }
        (ops, 0)
    } else {
        let (_, mut ops, end) = align_infix(query, &seg_tail);
        let rem = seg_tail.len() - end;
        let ghost mid = ops@;
        extend_repeat(&mut ops, Op::Del, rem);
        proof {
            crate::ops::lemma_spans_concat(mid, repeat_op(Op::Del, rem as int));
            lemma_spans_repeat(Op::Del, rem as int);
            lemma_spans_bounds(ops@);
        }
        let span = crate::ops::count_ref_len(&ops);
        (ops, span)
    }
}

/// Align a trailing query tip against the head of a segment: at most twice
/// the query length of the segment is considered.
pub fn align_trailing(query: &Vec<u8>, seg: &Vec<u8>) -> (r: (Vec<Op>, usize))
    requires
        2 * query@.len() <= MAX_ALIGN_LEN,
        seg@.len() <= usize::MAX - 1,
    ensures
        r.1 <= seg@.len(),
        ref_len(r.0@) == r.1,
        query_len(r.0@) == query@.len(),
        query@.len() == 0 ==> r.0@ == Seq::<Op>::empty() && r.1 == 0,
        query@.len() > 0 && seg@.len() == 0 ==> r.0@ == repeat_op(Op::Ins, query@.len() as int)
            && r.1 == 0,
        query@.len() > 0 && seg@.len() > 0 ==> ({
            let head = seg@.subrange(0, trail_cut_spec(query@, seg@));
            r.0@ == walk_ops_spec(
                query@,
                head,
                false,
                query@.len() as int,
                best_end_spec(query@, head, false),
            ).reverse() && r.1 == best_end_spec(query@, head, false)
        }),
{
    let len = query.len();
    let cut = if seg.len() < 2 * len {
        seg.len()
    } else {
        2 * len
    };
    let seg_head = crate::util::vec_slice(seg, 0, cut);
    proof {
        assert(seg_head@ == seg@.subrange(0, trail_cut_spec(query@, seg@)));
    }
    if query.len() == 0 {
        let ops: Vec<Op> = Vec::new();
        (ops, 0)
    } else if seg_head.len() == 0 {
        let mut ops: Vec<Op> = Vec::new();
        extend_repeat(&mut ops, Op::Ins, query.len());
        proof {
            lemma_spans_repeat(Op::Ins, query@.len() as int);
            assert(Seq::<Op>::empty() + repeat_op(Op::Ins, query@.len() as int) =~= repeat_op(
                Op::Ins,
                query@.len() as int,
            ));
        }
        (ops, 0)
    } else {
        align_prefix(query, &seg_head)
    }
}

} // verus!
