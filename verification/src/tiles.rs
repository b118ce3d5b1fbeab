//! Rendering a chunk-space chain into a base-level alignment: each matched
//! pair becomes a tile, the tile's bases are carved out of the read by its
//! internal alignment, and the stretches between tiles and past the ends are
//! aligned directly.

use crate::alignment::Alignment;
use crate::chain::{Chain, ContigEncoding, UnitAlignmentInfo};
use crate::ops::{
    lemma_spans_bounds, lemma_spans_concat, lemma_spans_push, lemma_spans_repeat, lemma_spans_reverse,
    query_len, ref_len, repeat_op, Op,
};
use crate::reads::{CigarOp, EncodedRead, ReadNode, Segment};
use vstd::prelude::*;

verus! {

/// The complement of one base; other bytes come back unchanged.
pub open spec fn comp_spec(b: u8) -> u8 {
    if b == 65 {
        84
    } else if b == 84 {
        65
    } else if b == 67 {
        71
    } else if b == 71 {
        67
    } else if b == 97 {
        116
    } else if b == 116 {
        97
    } else if b == 99 {
        103
    } else if b == 103 {
        99
    } else {
        b
    }
}

fn comp(b: u8) -> (r: u8)
    ensures
        r == comp_spec(b),
{
    if b == 65u8 {
        84
    } else if b == 84u8 {
        65
    } else if b == 67u8 {
        71
    } else if b == 71u8 {
        67
    } else if b == 97u8 {
        116
    } else if b == 116u8 {
        97
    } else if b == 99u8 {
        103
    } else if b == 103u8 {
        99
    } else {
        b
    }
}

/// The reverse complement of a base string.
pub fn revcmp(seq: &Vec<u8>) -> (r: Vec<u8>)
    ensures
        r@.len() == seq@.len(),
        forall|i: int| 0 <= i < r@.len() ==> (#[trigger] r@[i]) == comp_spec(seq@[seq@.len() - 1 - i]),
{
    let mut r: Vec<u8> = Vec::new();
    let mut k: usize = seq.len();
    while k > 0
        invariant
            k <= seq@.len(),
            r@.len() == seq@.len() - k,
            forall|i: int|
                0 <= i < r@.len() ==> (#[trigger] r@[i]) == comp_spec(seq@[seq@.len() - 1 - i]),
        decreases k,
    {
        k -= 1;
        r.push(comp(seq[k]));
    }
    r
}

/// Reference bases a run-length alignment consumes.
pub open spec fn cigar_rlen(cigar: Seq<CigarOp>) -> int
    decreases cigar.len(),
{
    if cigar.len() == 0 {
        0
    } else {
        cigar_rlen(cigar.drop_last()) + match cigar.last() {
            CigarOp::Match(l) => l as int,
            CigarOp::Del(l) => l as int,
            CigarOp::Ins(l) => 0,
        }
    }
}

/// Query bases a run-length alignment consumes.
pub open spec fn cigar_qlen(cigar: Seq<CigarOp>) -> int
    decreases cigar.len(),
{
    if cigar.len() == 0 {
        0
    } else {
        cigar_qlen(cigar.drop_last()) + match cigar.last() {
            CigarOp::Match(l) => l as int,
            CigarOp::Del(l) => 0,
            CigarOp::Ins(l) => l as int,
        }
    }
}

/// Expand a run-length alignment into single ops.
#[verifier::loop_isolation(false)]
pub fn cigar_to_ops(cigar: &Vec<CigarOp>) -> (r: Vec<Op>)
    requires
        cigar_rlen(cigar@) + cigar_qlen(cigar@) <= usize::MAX,
    ensures
        ref_len(r@) == cigar_rlen(cigar@),
        query_len(r@) == cigar_qlen(cigar@),
        r@.len() <= cigar_rlen(cigar@) + cigar_qlen(cigar@),
{
    let mut r: Vec<Op> = Vec::new();
    let mut k: usize = 0;
    proof {
        lemma_cigar_nonneg(cigar@);
    }
    while k < cigar.len()
        invariant
            k <= cigar@.len(),
            ref_len(r@) == cigar_rlen(cigar@.subrange(0, k as int)),
            query_len(r@) == cigar_qlen(cigar@.subrange(0, k as int)),
            r@.len() <= ref_len(r@) + query_len(r@),
        decreases cigar@.len() - k,
    {
        proof {
            assert(cigar@.subrange(0, k + 1 as int).drop_last() =~= cigar@.subrange(0, k as int));
            lemma_cigar_split(cigar@, k + 1 as int);
            lemma_cigar_nonneg(cigar@.subrange(k + 1 as int, cigar@.len() as int));
            lemma_cigar_nonneg(cigar@.subrange(0, k + 1 as int));
            crate::ops::lemma_spans_len(r@);
        }
        let ghost prev = r@;
        let (op, l) = match cigar[k] {
            CigarOp::Match(l) => (Op::Match, l),
            CigarOp::Del(l) => (Op::Del, l),
            CigarOp::Ins(l) => (Op::Ins, l),
        };
        crate::ops::extend_repeat(&mut r, op, l);
        proof {
            lemma_spans_concat(prev, repeat_op(op, l as int));
            lemma_spans_repeat(op, l as int);
        }
        k += 1;
    }
    proof {
        assert(cigar@.subrange(0, cigar@.len() as int) =~= cigar@);
    }
    r
}

proof fn lemma_cigar_nonneg(cigar: Seq<CigarOp>)
    ensures
        cigar_rlen(cigar) >= 0,
        cigar_qlen(cigar) >= 0,
    decreases cigar.len(),
{
    if cigar.len() > 0 {
        lemma_cigar_nonneg(cigar.drop_last());
    }
}

proof fn lemma_cigar_split(cigar: Seq<CigarOp>, i: int)
    requires
        0 <= i <= cigar.len(),
    ensures
        cigar_rlen(cigar) == cigar_rlen(cigar.subrange(0, i)) + cigar_rlen(
            cigar.subrange(i, cigar.len() as int),
        ),
        cigar_qlen(cigar) == cigar_qlen(cigar.subrange(0, i)) + cigar_qlen(
            cigar.subrange(i, cigar.len() as int),
        ),
    decreases cigar.len() - i,
{
    if i < cigar.len() {
        lemma_cigar_split(cigar.drop_last(), i);
        assert(cigar.subrange(0, i) =~= cigar.drop_last().subrange(0, i));
        assert(cigar.subrange(i, cigar.len() as int).drop_last() =~= cigar.drop_last().subrange(
            i,
            cigar.len() - 1,
        ));
    } else {
        assert(cigar.subrange(0, i) =~= cigar);
    }
}

/// One matched tile: the contig range it paints and the read range that
/// carries it, with the read node and the tile it pairs.
#[derive(Debug, Clone)]
pub struct Tile {
    pub ctg_start: usize,
    pub ctg_end: usize,
    pub read_start: usize,
    pub read_end: usize,
    pub node: ReadNode,
    pub encoding: UnitAlignmentInfo,
}

impl Tile {
    pub fn new(
        ctg_start: usize,
        ctg_end: usize,
        read_start: usize,
        read_end: usize,
        node: ReadNode,
        encoding: UnitAlignmentInfo,
    ) -> (r: Tile)
        ensures
            r.ctg_start == ctg_start,
            r.ctg_end == ctg_end,
            r.read_start == read_start,
            r.read_end == read_end,
            r.node == node,
            r.encoding == encoding,
    {
        Tile { ctg_start, ctg_end, read_start, read_end, node, encoding }
    }
}

/// Saturating sum: positions clamp at the top rather than wrap.
fn sat_add(a: usize, b: usize) -> (r: usize)
    ensures
        r == sat(a as int, b as int),
        r <= a + b,
{
    if a <= usize::MAX - b {
        a + b
    } else {
        usize::MAX
    }
}

/// Saturating sum of two in-range positions.
pub open spec fn sat(a: int, b: int) -> int {
    if a + b <= usize::MAX {
        a + b
    } else {
        usize::MAX as int
    }
}

/// The walk that maps a unit range through the first `k` cigar entries:
/// read position, unit position, the first read position falling inside the
/// range, and whether the range's end was reached. Match and deletion
/// advance the unit, match and insertion advance the read; the walk stops
/// inside the entry that covers the range's end.
pub open spec fn map_walk(cigar: Seq<CigarOp>, start: int, end: int, k: int) -> (
    int,
    int,
    int,
    bool,
)
    decreases k,
{
    if k <= 0 {
        (0, 0, 0, false)
    } else {
        let (readpos, unitpos, read_start, stopped) = map_walk(cigar, start, end, k - 1);
        if stopped {
            (readpos, unitpos, read_start, true)
        } else {
            match cigar[k - 1] {
                CigarOp::Match(l) => {
                    if end <= sat(unitpos, l as int) && end > unitpos {
                        (sat(readpos, end - unitpos), unitpos, read_start, true)
                    } else if start <= unitpos {
                        (sat(readpos, l as int), sat(unitpos, l as int), read_start, false)
                    } else if start <= sat(unitpos, l as int) {
                        let rs = if read_start == 0 {
                            sat(readpos, start - unitpos)
                        } else {
                            read_start
                        };
                        (sat(readpos, l as int), sat(unitpos, l as int), rs, false)
                    } else {
                        (sat(readpos, l as int), sat(unitpos, l as int), read_start, false)
                    }
                },
                CigarOp::Del(l) => {
                    if end <= sat(unitpos, l as int) && end > unitpos {
                        (sat(readpos, end - unitpos), unitpos, read_start, true)
                    } else if start <= unitpos {
                        (readpos, sat(unitpos, l as int), read_start, false)
                    } else if start <= sat(unitpos, l as int) {
                        let rs = if read_start == 0 {
                            readpos
                        } else {
                            read_start
                        };
                        (readpos, sat(unitpos, l as int), rs, false)
                    } else {
                        (readpos, sat(unitpos, l as int), read_start, false)
                    }
                },
                CigarOp::Ins(l) => (sat(readpos, l as int), unitpos, read_start, false),
            }
        }
    }
}

/// Once the walk has stopped it stays put.
proof fn lemma_map_walk_stopped(cigar: Seq<CigarOp>, start: int, end: int, k: int, m: int)
    requires
        0 <= k <= m,
        map_walk(cigar, start, end, k).3,
    ensures
        map_walk(cigar, start, end, m) == map_walk(cigar, start, end, k),
    decreases m - k,
{
    if k < m {
        lemma_map_walk_stopped(cigar, start, end, k, m - 1);
    }
}

/// Map a unit coordinate range through a node's internal alignment onto the
/// node's read bases: the walk's first in-range read position up to the
/// position where the range ends, both capped at the read's length.
pub fn convert_to_map_range(node: &ReadNode, range: (usize, usize)) -> (r: (usize, usize))
    ensures
        r.0 <= r.1 <= node.seq@.len(),
        ({
            let w = map_walk(
                node.cigar@,
                range.0 as int,
                range.1 as int,
                node.cigar@.len() as int,
            );
            let capped: int = if w.0 < node.seq@.len() {
                w.0
            } else {
                node.seq@.len() as int
            };
            let lo: int = if w.2 < capped {
                w.2
            } else {
                capped
            };
            r.0 as int == lo && r.1 as int == capped
        }),
{
    let (start, end) = range;
    let mut readpos: usize = 0;
    let mut unitpos: usize = 0;
    let mut read_start: usize = 0;
    let mut k: usize = 0;
    while k < node.cigar.len()
        invariant_except_break
            map_walk(node.cigar@, start as int, end as int, k as int) == (
                readpos as int,
                unitpos as int,
                read_start as int,
                false,
            ),
        invariant
            k <= node.cigar@.len(),
        ensures
            ({
                let w = map_walk(
                    node.cigar@,
                    start as int,
                    end as int,
                    node.cigar@.len() as int,
                );
                w.0 == readpos as int && w.2 == read_start as int
            }),
        decreases node.cigar@.len() - k,
    {
        let mut stop = false;
        match node.cigar[k] {
            CigarOp::Match(l) => {
                if end <= sat_add(unitpos, l) && end > unitpos {
                    readpos = sat_add(readpos, end - unitpos);
                    stop = true;
                } else if start <= unitpos {
                    readpos = sat_add(readpos, l);
                    unitpos = sat_add(unitpos, l);
                } else if start <= sat_add(unitpos, l) {
                    if read_start == 0 {
                        read_start = sat_add(readpos, start - unitpos);
                    }
                    readpos = sat_add(readpos, l);
                    unitpos = sat_add(unitpos, l);
                } else {
                    readpos = sat_add(readpos, l);
                    unitpos = sat_add(unitpos, l);
                }
            },
            CigarOp::Del(l) => {
                if end <= sat_add(unitpos, l) && end > unitpos {
                    readpos = sat_add(readpos, end - unitpos);
                    stop = true;
                } else if start <= unitpos {
                    unitpos = sat_add(unitpos, l);
                } else if start <= sat_add(unitpos, l) {
                    if read_start == 0 {
                        read_start = readpos;
                    }
                    unitpos = sat_add(unitpos, l);
                } else {
                    unitpos = sat_add(unitpos, l);
                }
            },
            CigarOp::Ins(l) => {
                readpos = sat_add(readpos, l);
            },
        }
        if stop {
            proof {
                assert(map_walk(node.cigar@, start as int, end as int, k as int + 1) == (
                    readpos as int,
                    unitpos as int,
                    read_start as int,
                    true,
                ));
                lemma_map_walk_stopped(
                    node.cigar@,
                    start as int,
                    end as int,
                    k as int + 1,
                    node.cigar@.len() as int,
                );
            }
            break ;
        }
        proof {
            assert(map_walk(node.cigar@, start as int, end as int, k as int + 1) == (
                readpos as int,
                unitpos as int,
                read_start as int,
                false,
            ));
        }
        k += 1;
    }
    let capped = if readpos < node.seq.len() {
        readpos
    } else {
        node.seq.len()
    };
    let lo = if read_start < capped {
        read_start
    } else {
        capped
    };
    (lo, capped)
}

/// The unit range a tile asks the walk to map: the tile's own span on the
/// forward strand, the span measured from the unit's other end on the
/// reverse strand, normalized to be non-decreasing.
pub open spec fn walk_range_spec(seg: UnitAlignmentInfo) -> (int, int) {
    let lo = if seg.direction {
        seg.unit_start as int
    } else if seg.unit_end < seg.unit_length {
        seg.unit_length - seg.unit_end
    } else {
        0
    };
    let hi = if seg.direction {
        seg.unit_end as int
    } else if seg.unit_start < seg.unit_length {
        seg.unit_length - seg.unit_start
    } else {
        0
    };
    if lo <= hi {
        (lo, hi)
    } else {
        (hi, lo)
    }
}

/// Where a tile's unit range lands on the read: the walk's result in the
/// node's orientation, flipped to read coordinates on the reverse strand.
pub open spec fn read_coord_spec(node: ReadNode, seg: UnitAlignmentInfo) -> (int, int) {
    let (rs, re) = walk_range_spec(seg);
    let w = map_walk(node.cigar@, rs, re, node.cigar@.len() as int);
    let capped: int = if w.0 < node.seq@.len() {
        w.0
    } else {
        node.seq@.len() as int
    };
    let lo: int = if w.2 < capped {
        w.2
    } else {
        capped
    };
    if node.is_forward {
        (lo, capped)
    } else {
        (node.seq@.len() - capped, node.seq@.len() - lo)
    }
}

/// Map a tile's unit range onto the read, minding both orientations.
pub fn convert_to_read_coordinate(node: &ReadNode, seg: &UnitAlignmentInfo) -> (r: (usize, usize))
    ensures
        r.0 <= r.1 <= node.seq@.len(),
        (r.0 as int, r.1 as int) == read_coord_spec(*node, *seg),
{
    let (dir, s, e) = seg.unit_range();
    let ul = seg.unit_len();
    let map_range = if dir {
        (s, e)
    } else {
        let hi = if e < ul {
            ul - e
        } else {
            0
        };
        let lo = if s < ul {
            ul - s
        } else {
            0
        };
        (hi, lo)
    };
    let range = if map_range.0 <= map_range.1 {
        map_range
    } else {
        (map_range.1, map_range.0)
    };
    let (start, end) = convert_to_map_range(node, range);
    if node.is_forward {
        (start, end)
    } else {
        let n = node.seq.len();
        (n - end, n - start)
    }
}

/// Clamp a position into a half-open window and measure the offset.
pub open spec fn clamp_in(x: int, lo: int, hi: int) -> int {
    if x <= lo {
        0
    } else if x >= hi {
        hi - lo
    } else {
        x - lo
    }
}

/// Normalized unit range of a tile: its span on the unit, whichever strand
/// it sits on.
pub open spec fn unit_span(e: UnitAlignmentInfo) -> int {
    e.unit_end - e.unit_start
}

/// The tile's read window in the node's own coordinates: measured from the
/// node's start on the forward strand, from its end on the reverse strand.
pub open spec fn tile_local_range(t: Tile) -> (int, int) {
    if t.node.is_forward {
        (
            t.read_start - t.node.position_from_start,
            t.read_end - t.node.position_from_start,
        )
    } else {
        (
            t.node.seq@.len() + t.node.position_from_start - t.read_end,
            t.node.seq@.len() + t.node.position_from_start - t.read_start,
        )
    }
}

/// Append one tile's bases and ops: the node's internal alignment is
/// restricted to the tile's unit window and read window, everything the unit
/// window covers but the read does not becomes a deletion, and the other way
/// an insertion.
#[verifier::loop_isolation(false)]
#[verifier::rlimit(100)]
pub fn append_range(query: &mut Vec<u8>, ops: &mut Vec<Op>, tile: &Tile)
    requires
        tile.node.position_from_start <= tile.read_start <= tile.read_end,
        tile.read_end <= tile.node.position_from_start + tile.node.seq@.len(),
        tile.node.position_from_start + tile.node.seq@.len() <= usize::MAX,
        tile.encoding.unit_start <= tile.encoding.unit_end <= tile.encoding.unit_length,
        cigar_rlen(tile.node.cigar@) == tile.encoding.unit_length,
        cigar_qlen(tile.node.cigar@) == tile.node.seq@.len(),
        cigar_rlen(tile.node.cigar@) + cigar_qlen(tile.node.cigar@) <= 0x1000_0000,
        old(query)@.len() + tile.node.seq@.len() <= usize::MAX,
        old(ops)@.len() + 0x2000_0000 <= usize::MAX,
    ensures
        final(query)@.len() == old(query)@.len() + (query_len(final(ops)@) - query_len(
            old(ops)@,
        )),
        query_len(final(ops)@) >= query_len(old(ops)@),
        ref_len(final(ops)@) == ref_len(old(ops)@) + unit_span(tile.encoding),
        final(query)@.len() <= old(query)@.len() + tile.node.seq@.len(),
        final(ops)@.len() <= old(ops)@.len() + 0x2000_0000,
        final(ops)@.subrange(0, old(ops)@.len() as int) == old(ops)@,
        // the appended bases are the node's slice for the tile, on the
        // encoding's own strand
        tile.encoding.direction ==> final(query)@ == old(query)@ + tile.node.seq@.subrange(
            tile_local_range(*tile).0,
            tile_local_range(*tile).1,
        ),
        !tile.encoding.direction ==> ({
            let (a, b) = tile_local_range(*tile);
            &&& final(query)@.len() == old(query)@.len() + (b - a)
            &&& forall|i: int|
                0 <= i < b - a ==> final(query)@[old(query)@.len() + i] == comp_spec(
                    #[trigger] tile.node.seq@[b - 1 - i],
                )
        }),
{
    let offset = tile.node.position_from_start;
    let seqlen = tile.node.seq.len();
    let (r_start, r_end) = if tile.node.is_forward {
        (tile.read_start - offset, tile.read_end - offset)
    } else {
        (seqlen + offset - tile.read_end, seqlen + offset - tile.read_start)
    };
    let (dir, us, ue) = tile.encoding.unit_range();
    let ul = tile.encoding.unit_len();
    let (start, end) = if dir {
        (us, ue)
    } else {
        (ul - ue, ul - us)
    };
    let aln_ops = cigar_to_ops(&tile.node.cigar);
    let mut temp_o: Vec<Op> = Vec::new();
    let mut r_pos: usize = 0;
    let mut u_pos: usize = 0;
    let mut k: usize = 0;
    proof {
        lemma_spans_bounds(aln_ops@);
    }
    while k < aln_ops.len()
        invariant
            k <= aln_ops@.len(),
            r_pos == query_len(aln_ops@.subrange(0, k as int)),
            u_pos == ref_len(aln_ops@.subrange(0, k as int)),
            query_len(temp_o@) == clamp_in(r_pos as int, r_start as int, r_end as int),
            ref_len(temp_o@) == clamp_in(u_pos as int, start as int, end as int),
            temp_o@.len() <= 2 * k,
        decreases aln_ops@.len() - k,
    {
        proof {
            assert(aln_ops@.subrange(0, k + 1 as int).drop_last() =~= aln_ops@.subrange(
                0,
                k as int,
            ));
            crate::ops::lemma_spans_bounds(aln_ops@.subrange(0, k + 1 as int));
            crate::ops::lemma_spans_split(aln_ops@, k + 1 as int);
            crate::ops::lemma_spans_bounds(aln_ops@.subrange(k + 1 as int, aln_ops@.len() as int));
        }
        let op = aln_ops[k];
        let ghost prev = temp_o@;
        let in_u = start <= u_pos && u_pos < end;
        let in_r = r_start <= r_pos && r_pos < r_end;
        if in_u && in_r {
            temp_o.push(op);
            proof {
                lemma_spans_push(prev, op);
            }
        } else if in_u && op != Op::Ins {
            temp_o.push(Op::Del);
            proof {
                lemma_spans_push(prev, Op::Del);
            }
        } else if in_r && op != Op::Del {
            temp_o.push(Op::Ins);
            proof {
                lemma_spans_push(prev, Op::Ins);
            }
        }
        if op == Op::Match || op == Op::Mismatch {
            u_pos += 1;
            r_pos += 1;
        } else if op == Op::Ins {
            r_pos += 1;
        } else {
            u_pos += 1;
        }
        k += 1;
    }
    proof {
        assert(aln_ops@.subrange(0, aln_ops@.len() as int) =~= aln_ops@);
        assert(query_len(temp_o@) == r_end - r_start);
        assert(ref_len(temp_o@) == end - start);
        assert(temp_o@.len() <= 0x2000_0000);
    }
    let ghost old_q = query@;
    let ghost old_o = ops@;
    proof {
        assert(r_start as int == tile_local_range(*tile).0);
        assert(r_end as int == tile_local_range(*tile).1);
    }
    let aligned = crate::util::vec_slice(&tile.node.seq, r_start, r_end);
    if dir {
        crate::util::vec_extend(query, &aligned);
        crate::util::vec_extend(ops, &temp_o);
        proof {
            lemma_spans_concat(old_o, temp_o@);
            assert(ops@.subrange(0, old_o.len() as int) =~= old_o);
        }
    } else {
        let rc = revcmp(&aligned);
        crate::util::vec_extend(query, &rc);
        let rev = crate::util::vec_reverse(&temp_o);
        crate::util::vec_extend(ops, &rev);
        proof {
            lemma_spans_reverse(temp_o@);
            lemma_spans_concat(old_o, rev@);
            assert(ops@.subrange(0, old_o.len() as int) =~= old_o);
            assert forall|i: int| 0 <= i < r_end - r_start implies query@[old_q.len() + i]
                == comp_spec(#[trigger] tile.node.seq@[r_end - 1 - i]) by {
                assert(query@[old_q.len() + i] == rc@[i]);
                assert(rc@[i] == comp_spec(aligned@[aligned@.len() - 1 - i]));
                assert(aligned@[aligned@.len() - 1 - i] == tile.node.seq@[r_end - 1 - i]);
            }
        }
    }
}

/// The stretch between two tiles: read bases against contig bases, aligned
/// end to end.
pub fn extend_between(query: &mut Vec<u8>, ops: &mut Vec<Op>, read_bet: &Vec<u8>, seg_bet: &Vec<u8>)
    requires
        read_bet@.len() <= crate::align::MAX_ALIGN_LEN,
        seg_bet@.len() <= crate::align::MAX_ALIGN_LEN,
        old(query)@.len() + read_bet@.len() <= usize::MAX,
        old(ops)@.len() + read_bet@.len() + seg_bet@.len() <= usize::MAX,
    ensures
        final(query)@.len() == old(query)@.len() + read_bet@.len(),
        query_len(final(ops)@) == query_len(old(ops)@) + read_bet@.len(),
        ref_len(final(ops)@) == ref_len(old(ops)@) + seg_bet@.len(),
        final(ops)@.len() <= old(ops)@.len() + read_bet@.len() + seg_bet@.len(),
{
    let ghost old_o = ops@;
    let new_ops = crate::align::global_align(read_bet, seg_bet);
    proof {
        crate::ops::lemma_spans_len(new_ops@);
    }
    crate::util::vec_extend(query, read_bet);
    crate::util::vec_extend(ops, &new_ops);
    proof {
        lemma_spans_concat(old_o, new_ops@);
    }
}

/// Align a read tip against the same-length stretch of contig just before
/// the first tile; leading gaps are shed so the result starts on a match.
#[verifier::loop_isolation(false)]
pub fn align_tip_inner(seg: &Vec<u8>, query: &Vec<u8>) -> (r: (Vec<u8>, Vec<Op>))
    requires
        seg@.len() <= crate::align::MAX_ALIGN_LEN,
        query@.len() <= crate::align::MAX_ALIGN_LEN,
    ensures
        query_len(r.1@) == r.0@.len(),
        ref_len(r.1@) <= seg@.len(),
        r.0@.len() <= query@.len(),
        r.1@.len() <= seg@.len() + query@.len(),
{
    let len = if seg.len() < query.len() {
        seg.len()
    } else {
        query.len()
    };
    if len == 0 {
        return (Vec::new(), Vec::new());
    }
    let segs = crate::util::vec_slice(seg, seg.len() - len, seg.len());
    let qs = crate::util::vec_slice(query, query.len() - len, query.len());
    let mut aops = crate::align::global_align(&qs, &segs);
    // shed the leading gaps
    let mut a: usize = 0;
    let mut ins_front: usize = 0;
    let mut del_front: usize = 0;
    proof {
        lemma_spans_bounds(aops@);
    }
    while a < aops.len() && (aops[a] == Op::Ins || aops[a] == Op::Del)
        invariant
            a <= aops@.len(),
            ins_front == query_len(aops@.subrange(0, a as int)),
            del_front == ref_len(aops@.subrange(0, a as int)),
            ins_front + del_front == a,
        decreases aops@.len() - a,
    {
        proof {
            assert(aops@.subrange(0, a + 1 as int).drop_last() =~= aops@.subrange(0, a as int));
        }
        if aops[a] == Op::Ins {
            ins_front += 1;
        } else {
            del_front += 1;
        }
        a += 1;
    }
    proof {
        crate::ops::lemma_spans_split(aops@, a as int);
        lemma_spans_bounds(aops@.subrange(0, a as int));
        lemma_spans_bounds(aops@.subrange(a as int, aops@.len() as int));
    }
    proof {
        crate::ops::lemma_spans_len(aops@);
    }
    let kept = crate::util::vec_slice(&aops, a, aops.len());
    let out_q = crate::util::vec_slice(&qs, ins_front, qs.len());
    (out_q, kept)
}

/// Align a read tail against the same-length stretch of contig just after
/// the last tile; trailing gaps are shed.
#[verifier::loop_isolation(false)]
pub fn align_tail_inner(seg: &Vec<u8>, query: &Vec<u8>) -> (r: (Vec<u8>, Vec<Op>))
    requires
        seg@.len() <= crate::align::MAX_ALIGN_LEN,
        query@.len() <= crate::align::MAX_ALIGN_LEN,
    ensures
        query_len(r.1@) == r.0@.len(),
        ref_len(r.1@) <= seg@.len(),
        r.0@.len() <= query@.len(),
        r.1@.len() <= seg@.len() + query@.len(),
{
    let len = if seg.len() < query.len() {
        seg.len()
    } else {
        query.len()
    };
    if len == 0 {
        return (Vec::new(), Vec::new());
    }
    let segs = crate::util::vec_slice(seg, 0, len);
    let qs = crate::util::vec_slice(query, 0, len);
    let aops = crate::align::global_align(&qs, &segs);
    // shed the trailing gaps
    let mut b: usize = aops.len();
    let mut ins_back: usize = 0;
    proof {
        lemma_spans_bounds(aops@);
    }
    while b > 0 && (aops[b - 1] == Op::Ins || aops[b - 1] == Op::Del)
        invariant
            b <= aops@.len(),
            ins_back == query_len(aops@.subrange(b as int, aops@.len() as int)),
            ins_back <= aops@.len() - b,
        decreases b,
    {
        proof {
            let s = aops@.subrange(b - 1, aops@.len() as int);
            crate::ops::lemma_spans_drop_first(s);
            assert(s.drop_first() =~= aops@.subrange(b as int, aops@.len() as int));
            assert(s[0] == aops@[b - 1]);
        }
        if aops[b - 1] == Op::Ins {
            ins_back += 1;
        }
        b -= 1;
    }
    proof {
        crate::ops::lemma_spans_split(aops@, b as int);
        lemma_spans_bounds(aops@.subrange(0, b as int));
        lemma_spans_bounds(aops@.subrange(b as int, aops@.len() as int));
    }
    proof {
        crate::ops::lemma_spans_len(aops@);
    }
    let kept = crate::util::vec_slice(&aops, 0, b);
    let out_q = crate::util::vec_slice(&qs, 0, qs.len() - ins_back);
    (out_q, kept)
}

/// A read whose nodes are internally consistent: every node's alignment
/// spells its bases, stays small enough to walk, and sits inside the raw
/// read.
pub open spec fn read_wf(read: &EncodedRead) -> bool {
    forall|i: int|
        0 <= i < read.nodes@.len() ==> ({
            let n = #[trigger] read.nodes@[i];
            &&& cigar_qlen(n.cigar@) == n.seq@.len()
            &&& cigar_rlen(n.cigar@) + cigar_qlen(n.cigar@) <= 0x1000_0000
            &&& n.position_from_start + n.seq@.len() <= 0x1000_0000
        })
}

/// An encoding whose tiles paint as much contig as they take from their
/// units, within a contig of `seg_len` bases.
pub open spec fn enc_wf(encs: &ContigEncoding, seg_len: int) -> bool {
    forall|i: int|
        0 <= i < encs.tiles@.len() ==> ({
            let t = #[trigger] encs.tiles@[i];
            &&& t.unit_start <= t.unit_end <= t.unit_length
            &&& t.contig_start <= t.contig_end <= seg_len
            &&& t.contig_end - t.contig_start == t.unit_end - t.unit_start
        })
}

/// A tile ready to be appended.
pub open spec fn tile_ok(t: Tile, seg_len: int) -> bool {
    &&& t.node.position_from_start <= t.read_start <= t.read_end
    &&& t.read_end <= t.node.position_from_start + t.node.seq@.len()
    &&& t.node.position_from_start + t.node.seq@.len() <= usize::MAX
    &&& t.encoding.unit_start <= t.encoding.unit_end <= t.encoding.unit_length
    &&& cigar_rlen(t.node.cigar@) == t.encoding.unit_length
    &&& cigar_qlen(t.node.cigar@) == t.node.seq@.len()
    &&& cigar_rlen(t.node.cigar@) + cigar_qlen(t.node.cigar@) <= 0x1000_0000
    &&& t.ctg_start == t.encoding.contig_start
    &&& t.ctg_end == t.encoding.contig_end
    &&& t.ctg_start <= t.ctg_end <= seg_len
    &&& t.ctg_end - t.ctg_start == unit_span(t.encoding)
}

/// Reference bases of a run-length alignment, counted.
fn cigar_rlen_exec(cigar: &Vec<CigarOp>) -> (r: usize)
    requires
        cigar_rlen(cigar@) + cigar_qlen(cigar@) <= 0x1000_0000,
    ensures
        r == cigar_rlen(cigar@),
{
    proof {
        lemma_cigar_nonneg(cigar@);
    }
    let mut r: usize = 0;
    let mut k: usize = 0;
    while k < cigar.len()
        invariant
            k <= cigar@.len(),
            r == cigar_rlen(cigar@.subrange(0, k as int)),
            cigar_rlen(cigar@) + cigar_qlen(cigar@) <= 0x1000_0000,
        decreases cigar@.len() - k,
    {
        proof {
            assert(cigar@.subrange(0, k + 1 as int).drop_last() =~= cigar@.subrange(0, k as int));
            lemma_cigar_split(cigar@, k + 1 as int);
            lemma_cigar_nonneg(cigar@.subrange(0, k + 1 as int));
            lemma_cigar_nonneg(cigar@.subrange(k + 1 as int, cigar@.len() as int));
        }
        match cigar[k] {
            CigarOp::Match(l) => {
                r += l;
            },
            CigarOp::Del(l) => {
                r += l;
            },
            CigarOp::Ins(l) => {},
        }
        k += 1;
    }
    proof {
        assert(cigar@.subrange(0, cigar@.len() as int) =~= cigar@);
    }
    r
}

/// Turn a chain's matched pairs into tiles: each pairing maps its tile's
/// unit window onto the read and clamps against the previous tile so the
/// read ranges never run backwards. A pairing that cannot be reconciled
/// makes the whole conversion fail.
#[verifier::loop_isolation(false)]
pub fn convert_into_tiles(
    read: &EncodedRead,
    chain: &Chain,
    encs: &ContigEncoding,
    seg_len: usize,
) -> (r: Option<Vec<Tile>>)
    requires
        read_wf(read),
        enc_wf(encs, seg_len as int),
    ensures
        r is Some ==> forall|k: int|
            0 <= k < r->0@.len() ==> tile_ok(#[trigger] r->0@[k], seg_len as int),
{
    let mut tiles: Vec<Tile> = Vec::new();
    let mut read_idx = chain.query_start_idx;
    let mut seg_idx = chain.contig_start_idx;
    let mut prev_lo: usize = 0;
    let mut prev_hi: usize = 0;
    let mut have_prev = false;
    let mut k: usize = 0;
    while k < chain.ops.len()
        invariant
            read_wf(read),
            enc_wf(encs, seg_len as int),
            forall|k2: int|
                0 <= k2 < tiles@.len() ==> tile_ok(#[trigger] tiles@[k2], seg_len as int),
        decreases chain.ops@.len() - k,
    {
        let op = chain.ops[k];
        if op == Op::Match {
            if seg_idx >= encs.tiles.len() || read_idx >= read.nodes.len() {
                return None;
            }
            let node_at = if chain.is_forward {
                read_idx
            } else {
                read.nodes.len() - read_idx - 1
            };
            let read_node = &read.nodes[node_at];
            let seg_node = &encs.tiles[seg_idx];
            if cigar_rlen_exec(&read_node.cigar) != seg_node.unit_len() {
                return None;
            }
            let node_start = read_node.position_from_start;
            let (s, e) = convert_to_read_coordinate(read_node, seg_node);
            let mut read_start = node_start + s;
            let mut read_end = node_start + e;
            if have_prev {
                if chain.is_forward {
                    if read_start < prev_hi {
                        read_start = prev_hi;
                    }
                    if read_end < prev_hi {
                        read_end = prev_hi;
                    }
                } else {
                    if read_start > prev_lo {
                        read_start = prev_lo;
                    }
                    if read_end > prev_lo {
                        read_end = prev_lo;
                    }
                }
            }
            // the clamped range must still sit inside this node
            if read_start < node_start || read_end > node_start + read_node.query_length()
                || read_start > read_end {
                return None;
            }
            prev_lo = read_start;
            prev_hi = read_end;
            have_prev = true;
            let (ctg_s, ctg_e) = seg_node.contig_range();
            let node_copy = ReadNode {
                unit: read_node.unit,
                cluster: read_node.cluster,
                is_forward: read_node.is_forward,
                position_from_start: read_node.position_from_start,
                seq: crate::util::vec_slice(&read_node.seq, 0, read_node.seq.len()),
                cigar: crate::util::vec_slice(&read_node.cigar, 0, read_node.cigar.len()),
            };
            proof {
                assert(node_copy.seq@ =~= read.nodes@[node_at as int].seq@);
                assert(node_copy.cigar@ =~= read.nodes@[node_at as int].cigar@);
            }
            let tile = Tile::new(ctg_s, ctg_e, read_start, read_end, node_copy, *seg_node);
            proof {
                assert(tile_ok(tile, seg_len as int));
            }
            tiles.push(tile);
            read_idx += 1;
            seg_idx += 1;
        } else if op == Op::Mismatch {
            read_idx = sat_add(read_idx, 1);
            seg_idx = sat_add(seg_idx, 1);
        } else if op == Op::Del {
            seg_idx = sat_add(seg_idx, 1);
        } else {
            read_idx = sat_add(read_idx, 1);
        }
        k += 1;
    }
    Some(tiles)
}

/// Render one chain into a base-level alignment against its contig: the
/// leading tip, the tiles with their gaps aligned in between, and the
/// trailing tip. A chain whose tiles cannot be laid out left to right, or
/// that outgrows the aligner, yields nothing.
#[verifier::loop_isolation(false)]
#[verifier::rlimit(100)]
pub fn base_pair_alignment(
    read: &EncodedRead,
    seq: &Vec<u8>,
    chain: &Chain,
    seg: &Segment,
    encs: &ContigEncoding,
) -> (r: Option<Alignment>)
    requires
        read_wf(read),
        enc_wf(encs, seg.sequence@.len() as int),
        seq@.len() <= 0x400_0000,
        seg.sequence@.len() <= 0x400_0000,
    ensures
        r is Some ==> r->0.wf(),
        r is Some ==> r->0.contig_end <= seg.sequence@.len(),
{
    let ghost seg_len = seg.sequence@.len() as int;
    let tiles = match convert_into_tiles(read, chain, encs, seg.sequence.len()) {
        Some(t) => t,
        None => {
            return None;
        },
    };
    if tiles.len() == 0 {
        return None;
    }
    let mut query: Vec<u8> = Vec::new();
    let mut ops: Vec<Op> = Vec::new();
    let first_ctg_start = tiles[0].ctg_start;
    let mut tip_len: usize = 0;
    if chain.contig_start_idx == 0 && first_ctg_start > 0 {
        // the leading read tip against the contig before the first tile
        let seg_head = crate::util::vec_slice(&seg.sequence, 0, first_ctg_start);
        let tile0 = &tiles[0];
        let leading = if chain.is_forward {
            if tile0.read_start <= seq.len() {
                crate::util::vec_slice(seq, 0, tile0.read_start)
            } else {
                Vec::new()
            }
        } else {
            if tile0.read_end <= seq.len() {
                let t = crate::util::vec_slice(seq, tile0.read_end, seq.len());
                revcmp(&t)
            } else {
                Vec::new()
            }
        };
        let (q0, o0) = align_tip_inner(&seg_head, &leading);
        tip_len = crate::ops::count_ref_len(&o0);
        query = q0;
        ops = o0;
    }
    proof {
        crate::ops::lemma_spans_bounds(ops@);
        crate::ops::lemma_spans_len(ops@);
    }
    if query.len() > 0x400_0000 || ops.len() > 0x800_0000 {
        return None;
    }
    let contig_start = first_ctg_start - tip_len;
    let mut i: usize = 0;
    while i < tiles.len()
        invariant
            read_wf(read),
            tiles@.len() >= 1,
            i <= tiles@.len(),
            forall|k2: int| 0 <= k2 < tiles@.len() ==> tile_ok(#[trigger] tiles@[k2], seg_len),
            seg_len == seg.sequence@.len() as int,
            seq@.len() <= 0x400_0000,
            seg.sequence@.len() <= 0x400_0000,
            contig_start <= first_ctg_start == tiles@[0].ctg_start,
            query_len(ops@) == query@.len(),
            ref_len(ops@) == (if i == 0 {
                first_ctg_start as int
            } else {
                tiles@[i - 1].ctg_end as int
            }) - contig_start,
            query@.len() <= 0x6000_0000,
            ops@.len() <= 0x7000_0000,
        decreases tiles@.len() - i,
    {
        // the assembled buffers must stay within what the aligner accepts
        if query.len() > 0x4000_0000 || ops.len() > 0x4000_0000 {
            return None;
        }
        // the gap before this tile must follow the previous one
        if i > 0 {
            let prev = &tiles[i - 1];
            let cur = &tiles[i];
            if prev.ctg_end > cur.ctg_start {
                return None;
            }
            let seg_bet = crate::util::vec_slice(&seg.sequence, prev.ctg_end, cur.ctg_start);
            let read_bet: Vec<u8>;
            if chain.is_forward {
                if prev.read_end > cur.read_start || cur.read_start > seq.len() {
                    return None;
                }
                read_bet = crate::util::vec_slice(seq, prev.read_end, cur.read_start);
            } else {
                if cur.read_end > prev.read_start || prev.read_start > seq.len() {
                    return None;
                }
                let t = crate::util::vec_slice(seq, cur.read_end, prev.read_start);
                read_bet = revcmp(&t);
            }
            extend_between(&mut query, &mut ops, &read_bet, &seg_bet);
        }
        let ghost pre_q = query@;
        let ghost pre_o = ops@;
        append_range(&mut query, &mut ops, &tiles[i]);
        i += 1;
    }
    let last = tiles.len() - 1;
    let last_ctg_end = tiles[last].ctg_end;
    let mut tail_len: usize = 0;
    if chain.contig_end_idx == encs.tiles.len() && last_ctg_end < seg.sequence.len() {
        if query.len() > 0x4000_0000 || ops.len() > 0x4000_0000 {
            return None;
        }
        let seg_tail = crate::util::vec_slice(&seg.sequence, last_ctg_end, seg.sequence.len());
        let tile_last = &tiles[last];
        let trailing = if chain.is_forward {
            if tile_last.read_end <= seq.len() {
                crate::util::vec_slice(seq, tile_last.read_end, seq.len())
            } else {
                Vec::new()
            }
        } else {
            if tile_last.read_start <= seq.len() {
                let t = crate::util::vec_slice(seq, 0, tile_last.read_start);
                revcmp(&t)
            } else {
                Vec::new()
            }
        };
        let (q1, o1) = align_tail_inner(&seg_tail, &trailing);
        tail_len = crate::ops::count_ref_len(&o1);
        let ghost pre_q = query@;
        let ghost pre_o = ops@;
        proof {
            crate::ops::lemma_spans_len(ops@);
            crate::ops::lemma_spans_len(o1@);
            crate::ops::lemma_spans_bounds(o1@);
        }
        crate::util::vec_extend(&mut query, &q1);
        crate::util::vec_extend(&mut ops, &o1);
        proof {
            lemma_spans_concat(pre_o, o1@);
        }
    }
    let contig_end = last_ctg_end + tail_len;
    proof {
        crate::ops::lemma_spans_bounds(ops@);
    }
    let aln = Alignment::new(
        read.id,
        encs.id.clone(),
        (contig_start, contig_end),
        query,
        ops,
        chain.is_forward,
    );
    Some(aln)
}

} // verus!
