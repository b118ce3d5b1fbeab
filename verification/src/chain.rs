//! Chunk-level chaining: placing a read's unit hits onto a contig encoding
//! by a minimum-cost chain, then aligning the hit runs in chunk space.

use crate::ops::{lemma_spans_push, lemma_spans_repeat, query_len, ref_len, repeat_op, Op};
use crate::reads::EncodedRead;
use vstd::prelude::*;

verus! {

/// Reward for extending a chain by one matched pair.
pub const CHAIN_MATCH: i64 = -4000;

/// One tile of a contig encoding: a unit hit mapped onto a contig range.
#[derive(Debug, Clone, Copy, PartialEq, Eq, Structural)]
pub struct UnitAlignmentInfo {
    pub unit: u64,
    pub cluster: u64,
    pub direction: bool,
    pub unit_start: usize,
    pub unit_end: usize,
    pub contig_start: usize,
    pub contig_end: usize,
    pub unit_length: usize,
}

impl UnitAlignmentInfo {
    pub fn new(
        node: (u64, u64),
        unit_range: (bool, usize, usize),
        contig_range: (usize, usize),
        unit_length: usize,
    ) -> (r: UnitAlignmentInfo)
        ensures
            r.unit == node.0,
            r.cluster == node.1,
            r.direction == unit_range.0,
            r.unit_start == unit_range.1,
            r.unit_end == unit_range.2,
            r.contig_start == contig_range.0,
            r.contig_end == contig_range.1,
            r.unit_length == unit_length,
    {
        UnitAlignmentInfo {
            unit: node.0,
            cluster: node.1,
            direction: unit_range.0,
            unit_start: unit_range.1,
            unit_end: unit_range.2,
            contig_start: contig_range.0,
            contig_end: contig_range.1,
            unit_length,
        }
    }

    pub fn unit_and_dir_info(&self) -> (r: ((u64, u64), bool))
        ensures
            r == (((self.unit, self.cluster), self.direction)),
    {
        ((self.unit, self.cluster), self.direction)
    }

    pub fn contig_range(&self) -> (r: (usize, usize))
        ensures
            r == ((self.contig_start, self.contig_end)),
    {
        (self.contig_start, self.contig_end)
    }

    pub fn unit_range(&self) -> (r: (bool, usize, usize))
        ensures
            r == ((self.direction, self.unit_start, self.unit_end)),
    {
        (self.direction, self.unit_start, self.unit_end)
    }

    pub fn unit_len(&self) -> (r: usize)
        ensures
            r == self.unit_length,
    {
        self.unit_length
    }
}

/// The skeleton of one contig: its name and ordered tiles.
#[derive(Debug, Clone)]
pub struct ContigEncoding {
    pub id: String,
    pub tiles: Vec<UnitAlignmentInfo>,
}

impl ContigEncoding {
    pub fn tiles(&self) -> (r: &Vec<UnitAlignmentInfo>)
        ensures
            r == &self.tiles,
    {
        &self.tiles
    }

    /// Indices of the tiles whose unit and orientation agree with a read
    /// node.
    pub fn matches(&self, node: (u64, u64), is_forward: bool) -> (r: Vec<usize>)
        ensures
            forall|k: int|
                0 <= k < r@.len() ==> (#[trigger] r@[k]) < self.tiles@.len()
                    && self.tiles@[r@[k] as int].unit == node.0 && self.tiles@[r@[k] as int].direction
                    == is_forward,
    {
        let mut r: Vec<usize> = Vec::new();
        let mut k: usize = 0;
        while k < self.tiles.len()
            invariant
                k <= self.tiles@.len(),
                forall|j: int|
                    0 <= j < r@.len() ==> (#[trigger] r@[j]) < self.tiles@.len()
                        && self.tiles@[r@[j] as int].unit == node.0
                        && self.tiles@[r@[j] as int].direction == is_forward,
            decreases self.tiles@.len() - k,
        {
            if self.tiles[k].unit == node.0 && self.tiles[k].direction == is_forward {
                r.push(k);
            }
            k += 1;
        }
        r
    }
}

/// A read's unit hit stripped to what chaining reads.
#[derive(Debug, Clone, Copy)]
pub struct LightNode {
    pub node: (u64, u64),
    pub is_forward: bool,
    pub range: (usize, usize),
}

impl LightNode {
    pub fn new(node: (u64, u64), is_forward: bool, range: (usize, usize)) -> (r: LightNode)
        ensures
            r.node == node,
            r.is_forward == is_forward,
            r.range == range,
    {
        LightNode { node, is_forward, range }
    }

    /// Flip onto the reverse strand of a read of `len` bases.
    pub fn reverse(&mut self, len: usize)
        requires
            old(self).range.0 <= old(self).range.1 <= len,
        ensures
            final(self).node == old(self).node,
            final(self).is_forward == !old(self).is_forward,
            final(self).range.0 == len - old(self).range.1,
            final(self).range.1 == len - old(self).range.0,
    {
        self.is_forward = !self.is_forward;
        self.range = (len - self.range.1, len - self.range.0);
    }
}

/// A pairing of one read hit with one contig tile.
#[derive(Debug, Clone, Copy, PartialEq, Eq, Structural)]
pub struct ChainNode {
    pub contig_index: usize,
    pub contig_start: usize,
    pub read_start: usize,
    pub read_index: usize,
}

/// One chain node can extend another when both coordinates strictly grow.
pub open spec fn chainable(a: ChainNode, b: ChainNode) -> bool {
    a.read_start < b.read_start && a.contig_start < b.contig_start
}

impl ChainNode {
    pub fn new(read_index: usize, node: &LightNode, contig_index: usize, elm: &UnitAlignmentInfo)
        -> (r: ChainNode)
        ensures
            r.contig_index == contig_index,
            r.contig_start == elm.contig_start,
            r.read_start == node.range.0,
            r.read_index == read_index,
    {
        ChainNode {
            contig_index,
            contig_start: elm.contig_start,
            read_start: node.range.0,
            read_index,
        }
    }

    /// The chaining gap to a strictly later node, when one exists.
    pub fn to(&self, to: &ChainNode) -> (r: Option<i64>)
        requires
            self.read_start <= 0x1000_0000_0000_0000,
            self.contig_start <= 0x1000_0000_0000_0000,
            to.read_start <= 0x1000_0000_0000_0000,
            to.contig_start <= 0x1000_0000_0000_0000,
        ensures
            r is Some <==> chainable(*self, *to),
            r is Some ==> r->0 == (to.read_start - self.read_start) + (to.contig_start
                - self.contig_start),
    {
        if self.read_start < to.read_start && self.contig_start < to.contig_start {
            let r_gap = (to.read_start - self.read_start) as i64;
            let c_gap = (to.contig_start - self.contig_start) as i64;
            Some(r_gap + c_gap)
        } else {
            None
        }
    }
}

/// The least `k` with `gap` at most `e` to the `k`: the rounded-up natural
/// logarithm of the gap. Each boundary is the integer part of one power of
/// `e`; a gap beyond the last boundary takes the next exponent.
pub open spec fn ln_ceil_spec(gap: int) -> int {
    if gap <= 1 {
        0
    } else if gap <= 2 {
        1
    } else if gap <= 7 {
        2
    } else if gap <= 20 {
        3
    } else if gap <= 54 {
        4
    } else if gap <= 148 {
        5
    } else if gap <= 403 {
        6
    } else if gap <= 1096 {
        7
    } else if gap <= 2980 {
        8
    } else if gap <= 8103 {
        9
    } else if gap <= 22026 {
        10
    } else if gap <= 59874 {
        11
    } else if gap <= 162754 {
        12
    } else if gap <= 442413 {
        13
    } else if gap <= 1202604 {
        14
    } else if gap <= 3269017 {
        15
    } else if gap <= 8886110 {
        16
    } else if gap <= 24154952 {
        17
    } else if gap <= 65659969 {
        18
    } else if gap <= 178482300 {
        19
    } else if gap <= 485165195 {
        20
    } else if gap <= 1318815734 {
        21
    } else if gap <= 3584912846 {
        22
    } else if gap <= 9744803446 {
        23
    } else if gap <= 26489122129 {
        24
    } else if gap <= 72004899337 {
        25
    } else if gap <= 195729609428 {
        26
    } else if gap <= 532048240601 {
        27
    } else if gap <= 1446257064291 {
        28
    } else if gap <= 3931334297144 {
        29
    } else if gap <= 10686474581524 {
        30
    } else if gap <= 29048849665247 {
        31
    } else if gap <= 78962960182680 {
        32
    } else if gap <= 214643579785916 {
        33
    } else if gap <= 583461742527454 {
        34
    } else if gap <= 1586013452313430 {
        35
    } else if gap <= 4311231547115195 {
        36
    } else {
        37
    }
}

/// Rounded-up natural logarithm of a chaining gap.
pub fn ln_ceil(gap: i64) -> (r: i64)
    ensures
        r == ln_ceil_spec(gap as int),
        0 <= r <= 37,
{
    if gap <= 1 {
        0
    } else if gap <= 2 {
        1
    } else if gap <= 7 {
        2
    } else if gap <= 20 {
        3
    } else if gap <= 54 {
        4
    } else if gap <= 148 {
        5
    } else if gap <= 403 {
        6
    } else if gap <= 1096 {
        7
    } else if gap <= 2980 {
        8
    } else if gap <= 8103 {
        9
    } else if gap <= 22026 {
        10
    } else if gap <= 59874 {
        11
    } else if gap <= 162754 {
        12
    } else if gap <= 442413 {
        13
    } else if gap <= 1202604 {
        14
    } else if gap <= 3269017 {
        15
    } else if gap <= 8886110 {
        16
    } else if gap <= 24154952 {
        17
    } else if gap <= 65659969 {
        18
    } else if gap <= 178482300 {
        19
    } else if gap <= 485165195 {
        20
    } else if gap <= 1318815734 {
        21
    } else if gap <= 3584912846 {
        22
    } else if gap <= 9744803446 {
        23
    } else if gap <= 26489122129 {
        24
    } else if gap <= 72004899337 {
        25
    } else if gap <= 195729609428 {
        26
    } else if gap <= 532048240601 {
        27
    } else if gap <= 1446257064291 {
        28
    } else if gap <= 3931334297144 {
        29
    } else if gap <= 10686474581524 {
        30
    } else if gap <= 29048849665247 {
        31
    } else if gap <= 78962960182680 {
        32
    } else if gap <= 214643579785916 {
        33
    } else if gap <= 583461742527454 {
        34
    } else if gap <= 1586013452313430 {
        35
    } else if gap <= 4311231547115195 {
        36
    } else {
        37
    }
}


/// The best chaining cost ending at `idx`, scanning the candidates from
/// `i` up: a pairing alone pays one match reward; extending from an earlier
/// chainable pairing adds the gap's rounded-up logarithm and the reward.
pub open spec fn chain_scan(nodes: Seq<ChainNode>, idx: int, i: int) -> int
    decreases idx, idx - i,
{
    if idx <= 0 || i < 0 || i >= idx || idx >= nodes.len() {
        CHAIN_MATCH as int
    } else {
        let rest = chain_scan(nodes, idx, i + 1);
        if chainable(nodes[i], nodes[idx]) {
            let gap = (nodes[idx].read_start - nodes[i].read_start) + (nodes[idx].contig_start
                - nodes[i].contig_start);
            let d = chain_scan(nodes, i, 0) + ln_ceil_spec(gap) + CHAIN_MATCH;
            if d < rest {
                d
            } else {
                rest
            }
        } else {
            rest
        }
    }
}

/// The chaining table value at `idx`.
pub open spec fn chain_dist(nodes: Seq<ChainNode>, idx: int) -> int {
    chain_scan(nodes, idx, 0)
}

proof fn lemma_chain_scan_le(nodes: Seq<ChainNode>, idx: int, i: int)
    ensures
        chain_scan(nodes, idx, i) <= CHAIN_MATCH as int,
    decreases idx, idx - i,
{
    if !(idx <= 0 || i < 0 || i >= idx || idx >= nodes.len()) {
        lemma_chain_scan_le(nodes, idx, i + 1);
    }
}

/// The cost of the chain ending at `idx` when it extends the one ending at
/// candidate `i`: that chain's cost, the gap's rounded-up logarithm, and
/// one more match reward.
pub open spec fn cand_cost(nodes: Seq<ChainNode>, idx: int, i: int) -> int {
    chain_dist(nodes, i) + ln_ceil_spec(
        (nodes[idx].read_start - nodes[i].read_start) + (nodes[idx].contig_start
            - nodes[i].contig_start),
    ) + CHAIN_MATCH
}

/// The traceback entry at `idx` is `p`: either the pairing stands alone at
/// the bare match reward, or `p` is the earliest chainable candidate whose
/// extension attains the table cost, which beats standing alone.
pub open spec fn parent_entry_ok(nodes: Seq<ChainNode>, idx: int, p: int, sentinel: int) -> bool {
    if p == sentinel {
        chain_dist(nodes, idx) == CHAIN_MATCH as int
    } else {
        &&& 0 <= p < idx
        &&& chainable(nodes[p], nodes[idx])
        &&& chain_dist(nodes, idx) == cand_cost(nodes, idx, p)
        &&& chain_dist(nodes, idx) < CHAIN_MATCH as int
        &&& (forall|i: int|
            0 <= i < p && chainable(nodes[i], nodes[idx]) ==> cand_cost(nodes, idx, i)
                > chain_dist(nodes, idx))
    }
}

/// Minimum-cost chain over pairings sorted by position: every pairing pays
/// one match reward, extending from an earlier pairing pays the gap's
/// rounded-up logarithm. The chain ending at the first index of least table
/// cost comes back, its indices in order; each link extends the earliest
/// candidate attaining its cost, and the first link stands alone.
pub fn min_chain(chain_nodes: &Vec<ChainNode>) -> (r: Vec<usize>)
    requires
        chain_nodes@.len() >= 1,
        chain_nodes@.len() <= 0x1000_0000,
        forall|i: int|
            0 <= i < chain_nodes@.len() ==> (#[trigger] chain_nodes@[i]).read_start
                <= 0x1000_0000_0000_0000 && chain_nodes@[i].contig_start <= 0x1000_0000_0000_0000,
    ensures
        r@.len() >= 1,
        forall|k: int| 0 <= k < r@.len() ==> (#[trigger] r@[k]) < chain_nodes@.len(),
        forall|k: int| 0 < k < r@.len() ==> r@[k - 1] < (#[trigger] r@[k]),
        forall|k: int|
            0 < k < r@.len() ==> chainable(
                chain_nodes@[r@[k - 1] as int],
                chain_nodes@[#[trigger] r@[k] as int],
            ),
        forall|i: int|
            0 <= i < chain_nodes@.len() ==> chain_dist(chain_nodes@, r@.last() as int)
                <= #[trigger] chain_dist(chain_nodes@, i),
        forall|i: int|
            0 <= i < r@.last() ==> #[trigger] chain_dist(chain_nodes@, i) > chain_dist(
                chain_nodes@,
                r@.last() as int,
            ),
        chain_dist(chain_nodes@, r@[0] as int) == CHAIN_MATCH as int,
        forall|k: int|
            0 < k < r@.len() ==> parent_entry_ok(
                chain_nodes@,
                #[trigger] r@[k] as int,
                r@[k - 1] as int,
                chain_nodes@.len() as int,
            ),
{
    let n = chain_nodes.len();
    let sentinel = n;
    let mut parents: Vec<usize> = Vec::new();
    let mut min_dist: Vec<i64> = Vec::new();
    let mut idx: usize = 0;
    while idx < n
        invariant
            idx <= n,
            n == chain_nodes@.len(),
            n <= 0x1000_0000,
            sentinel == n,
            parents@.len() == idx,
            min_dist@.len() == idx,
            forall|i: int|
                0 <= i < n ==> (#[trigger] chain_nodes@[i]).read_start <= 0x1000_0000_0000_0000
                    && chain_nodes@[i].contig_start <= 0x1000_0000_0000_0000,
            forall|i: int|
                0 <= i < idx ==> -4045 * (i + 1) <= (#[trigger] min_dist@[i]) && min_dist@[i]
                    <= -4000,
            forall|i: int| 0 <= i < idx ==> (#[trigger] min_dist@[i]) == chain_dist(chain_nodes@, i),
            forall|i: int|
                0 <= i < idx ==> parent_entry_ok(
                    chain_nodes@,
                    i,
                    (#[trigger] parents@[i]) as int,
                    sentinel as int,
                ),
        decreases n - idx,
    {
        let mut best: i64 = CHAIN_MATCH;
        let mut parent = sentinel;
        proof {
            lemma_chain_scan_le(chain_nodes@, idx as int, 0);
        }
        let mut i: usize = 0;
        while i < idx
            invariant
                i <= idx < n,
                n == chain_nodes@.len(),
                n <= 0x1000_0000,
                sentinel == n,
                min_dist@.len() == idx,
                forall|i2: int|
                    0 <= i2 < n ==> (#[trigger] chain_nodes@[i2]).read_start
                        <= 0x1000_0000_0000_0000 && chain_nodes@[i2].contig_start
                        <= 0x1000_0000_0000_0000,
                forall|i2: int|
                    0 <= i2 < idx ==> -4045 * (i2 + 1) <= (#[trigger] min_dist@[i2])
                        && min_dist@[i2] <= -4000,
                parent == sentinel || (parent < idx && chainable(
                    chain_nodes@[parent as int],
                    chain_nodes@[idx as int],
                ) && -4045 * (idx + 1) <= best && best <= -4000),
                parent == sentinel ==> best == CHAIN_MATCH,
                parent != sentinel ==> parent < i && best < CHAIN_MATCH && best == cand_cost(
                    chain_nodes@,
                    idx as int,
                    parent as int,
                ),
                forall|i2: int|
                    0 <= i2 < i && chainable(chain_nodes@[i2], chain_nodes@[idx as int])
                        ==> cand_cost(chain_nodes@, idx as int, i2) >= best,
                parent != sentinel ==> forall|i2: int|
                    0 <= i2 < parent && chainable(chain_nodes@[i2], chain_nodes@[idx as int])
                        ==> cand_cost(chain_nodes@, idx as int, i2) > best,
                forall|i2: int|
                    0 <= i2 < idx ==> (#[trigger] min_dist@[i2]) == chain_dist(chain_nodes@, i2),
                (if chain_scan(chain_nodes@, idx as int, i as int) < best {
                    chain_scan(chain_nodes@, idx as int, i as int)
                } else {
                    best as int
                }) == chain_dist(chain_nodes@, idx as int),
            decreases idx - i,
        {
            proof {
                lemma_chain_scan_le(chain_nodes@, idx as int, i + 1);
                assert(chain_scan(chain_nodes@, idx as int, i as int) == ({
                    let rest = chain_scan(chain_nodes@, idx as int, i + 1);
                    if chainable(chain_nodes@[i as int], chain_nodes@[idx as int]) {
                        let gap = (chain_nodes@[idx as int].read_start
                            - chain_nodes@[i as int].read_start) + (chain_nodes@[
                            idx as int].contig_start - chain_nodes@[i as int].contig_start);
                        let d = chain_scan(chain_nodes@, i as int, 0) + ln_ceil_spec(gap)
                            + CHAIN_MATCH;
                        if d < rest {
                            d
                        } else {
                            rest
                        }
                    } else {
                        rest
                    }
                }));
            }
            match chain_nodes[i].to(&chain_nodes[idx]) {
                Some(gap) => {
                    let penalty = ln_ceil(gap);
                    let cand = min_dist[i] + penalty;
                    let dist = cand + CHAIN_MATCH;
                    if dist < best {
                        best = dist;
                        parent = i;
                    }
                },
                None => {},
            }
            i += 1;
        }
        proof {
            assert(chain_scan(chain_nodes@, idx as int, idx as int) == CHAIN_MATCH as int);
            assert(best as int == chain_dist(chain_nodes@, idx as int));
            assert(parent_entry_ok(chain_nodes@, idx as int, parent as int, sentinel as int));
        }
        min_dist.push(best);
        parents.push(parent);
        idx += 1;
    }
    // the chain ends at the first index of least table cost
    let mut at: usize = 0;
    let mut k: usize = 1;
    while k < n
        invariant
            k <= n,
            n == min_dist@.len(),
            n == chain_nodes@.len(),
            at < k,
            forall|i: int| 0 <= i < n ==> (#[trigger] min_dist@[i]) == chain_dist(chain_nodes@, i),
            forall|i: int| 0 <= i < k ==> min_dist@[at as int] <= (#[trigger] min_dist@[i]),
            forall|i: int| 0 <= i < at ==> (#[trigger] min_dist@[i]) > min_dist@[at as int],
        decreases n - k,
    {
        if min_dist[k] < min_dist[at] {
            at = k;
        }
        k += 1;
    }
    let ghost g_at = at as int;
    proof {
        assert forall|i: int| 0 <= i < n implies chain_dist(chain_nodes@, g_at)
            <= #[trigger] chain_dist(chain_nodes@, i) by {
            assert(min_dist@[i] == chain_dist(chain_nodes@, i));
            assert(min_dist@[g_at] <= min_dist@[i]);
        }
        assert forall|i: int| 0 <= i < g_at implies #[trigger] chain_dist(chain_nodes@, i)
            > chain_dist(chain_nodes@, g_at) by {
            assert(min_dist@[i] == chain_dist(chain_nodes@, i));
            assert(min_dist@[i] > min_dist@[g_at]);
        }
    }
    // walk the parents back, then reverse
    let mut rev: Vec<usize> = Vec::new();
    rev.push(at);
    while parents[at] != sentinel
        invariant
            at < n,
            n == chain_nodes@.len(),
            n == parents@.len(),
            sentinel == n,
            rev@.len() >= 1,
            rev@.last() == at,
            rev@[0] == g_at,
            forall|i: int|
                0 <= i < n ==> chain_dist(chain_nodes@, g_at) <= #[trigger] chain_dist(
                    chain_nodes@,
                    i,
                ),
            forall|i: int|
                0 <= i < g_at ==> #[trigger] chain_dist(chain_nodes@, i) > chain_dist(
                    chain_nodes@,
                    g_at,
                ),
            forall|i: int|
                0 <= i < n ==> parent_entry_ok(
                    chain_nodes@,
                    i,
                    (#[trigger] parents@[i]) as int,
                    sentinel as int,
                ),
            forall|t: int|
                0 <= t < rev@.len() - 1 ==> (#[trigger] rev@[t + 1]) as int == parents@[rev@[t]
                    as int] && parents@[rev@[t] as int] != sentinel,
            forall|k2: int| 0 <= k2 < rev@.len() ==> (#[trigger] rev@[k2]) < n,
            forall|k2: int| 0 < k2 < rev@.len() ==> (#[trigger] rev@[k2]) < rev@[k2 - 1],
            forall|k2: int|
                0 < k2 < rev@.len() ==> chainable(
                    chain_nodes@[#[trigger] rev@[k2] as int],
                    chain_nodes@[rev@[k2 - 1] as int],
                ),
        decreases at,
    {
        let p = parents[at];
        rev.push(p);
        at = p;
    }
    let r = crate::util::vec_reverse(&rev);
    proof {
        assert(r@.len() == rev@.len());
        assert(r@.last() == rev@[0]);
        assert forall|k2: int| 0 < k2 < r@.len() implies r@[k2 - 1] < (#[trigger] r@[k2])
            && chainable(chain_nodes@[r@[k2 - 1] as int], chain_nodes@[r@[k2] as int]) by {
            assert(r@[k2] == rev@[rev@.len() - 1 - k2]);
            assert(r@[k2 - 1] == rev@[rev@.len() - k2]);
        }
        assert forall|k2: int| 0 <= k2 < r@.len() implies (#[trigger] r@[k2])
            < chain_nodes@.len() by {
            assert(r@[k2] == rev@[rev@.len() - 1 - k2]);
        }
        assert(chain_dist(chain_nodes@, r@[0] as int) == CHAIN_MATCH as int) by {
            assert(r@[0] == rev@[rev@.len() - 1]);
            assert(rev@.last() == at);
            assert(parent_entry_ok(
                chain_nodes@,
                at as int,
                parents@[at as int] as int,
                sentinel as int,
            ));
        }
        assert forall|k2: int| 0 < k2 < r@.len() implies parent_entry_ok(
            chain_nodes@,
            (#[trigger] r@[k2]) as int,
            r@[k2 - 1] as int,
            chain_nodes@.len() as int,
        ) by {
            assert(r@[k2] == rev@[rev@.len() - 1 - k2]);
            assert(r@[k2 - 1] == rev@[rev@.len() - k2]);
            let t = rev@.len() - 1 - k2;
            assert(rev@[t + 1] as int == parents@[rev@[t] as int] && parents@[rev@[t] as int]
                != sentinel);
            assert(parent_entry_ok(
                chain_nodes@,
                rev@[t] as int,
                parents@[rev@[t] as int] as int,
                sentinel as int,
            ));
        }
    }
    r
}

pub const MIS_CLUSTER: i64 = 2;

pub const MISM: i64 = 100;

pub const GAP: i64 = 4;

pub const MATCH: i64 = -10;

/// The score of pairing one read hit with one tile, and the op recording it.
pub open spec fn match_score_spec(n: LightNode, m: UnitAlignmentInfo) -> (i64, Op) {
    if m.direction != n.is_forward || m.unit != n.node.0 {
        (MISM, Op::Mismatch)
    } else if n.node.1 != m.cluster {
        (MIS_CLUSTER, Op::Match)
    } else {
        (MATCH, Op::Match)
    }
}

pub fn match_score(n: &LightNode, m: &UnitAlignmentInfo) -> (r: (i64, Op))
    ensures
        r == match_score_spec(*n, *m),
{
    let ((unit, cluster), dir) = m.unit_and_dir_info();
    let (n_unit, n_cluster) = n.node;
    if dir != n.is_forward || unit != n_unit {
        (MISM, Op::Mismatch)
    } else if n_cluster != cluster {
        (MIS_CLUSTER, Op::Match)
    } else {
        (MATCH, Op::Match)
    }
}

/// Largest hit run the chunk-space aligner accepts.
pub const MAX_CHAIN_LEN: usize = 0x10_0000;


/// The chunk-space table value at `(i, j)`: the cheapest way to consume `i`
/// hits and `j` tiles, gaps at a flat cost and pairings at their match
/// score, clamped to the working bound.
pub open spec fn aln_dp_spec(query: Seq<LightNode>, refr: Seq<UnitAlignmentInfo>, i: int, j: int)
    -> int
    decreases i + j,
{
    let cap = 100 * (query.len() + refr.len());
    if i <= 0 && j <= 0 {
        0
    } else if i <= 0 {
        j * GAP
    } else if j <= 0 {
        i * GAP
    } else {
        let (mat, _) = match_score_spec(query[i - 1], refr[j - 1]);
        let up = aln_dp_spec(query, refr, i - 1, j) + GAP;
        let left = aln_dp_spec(query, refr, i, j - 1) + GAP;
        let diag = aln_dp_spec(query, refr, i - 1, j - 1) + mat;
        let b1 = if up < diag {
            up
        } else {
            diag
        };
        let best = if left < b1 {
            left
        } else {
            b1
        };
        if best > cap {
            cap as int
        } else if best < -cap {
            -cap
        } else {
            best
        }
    }
}

/// The walk back through the table from `(q, r)`, ops emitted in reverse:
/// a hit gap is preferred, then a tile gap, then the pairing; whatever the
/// walk cannot consume pairwise is flushed as gaps.
pub open spec fn aln_walk_spec(query: Seq<LightNode>, refr: Seq<UnitAlignmentInfo>, q: int, r: int)
    -> Seq<Op>
    decreases q + r,
{
    if q > 0 && r > 0 {
        let current = aln_dp_spec(query, refr, q, r);
        let (mat, op) = match_score_spec(query[q - 1], refr[r - 1]);
        if current == aln_dp_spec(query, refr, q - 1, r) + GAP {
            seq![Op::Ins] + aln_walk_spec(query, refr, q - 1, r)
        } else if current == aln_dp_spec(query, refr, q, r - 1) + GAP {
            seq![Op::Del] + aln_walk_spec(query, refr, q, r - 1)
        } else {
            seq![op] + aln_walk_spec(query, refr, q - 1, r - 1)
        }
    } else {
        repeat_op(Op::Del, if r > 0 {
            r
        } else {
            0
        }) + repeat_op(Op::Ins, if q > 0 {
            q
        } else {
            0
        })
    }
}

/// Align a run of read hits against a run of contig tiles in chunk space.
/// Gaps pay a flat cost, pairings pay their match score; the result is the
/// table's own walk.
#[verifier::loop_isolation(false)]
#[verifier::rlimit(100)]
pub fn alignment(query: &Vec<LightNode>, refr: &Vec<UnitAlignmentInfo>) -> (r: Vec<Op>)
    requires
        query@.len() <= MAX_CHAIN_LEN,
        refr@.len() <= MAX_CHAIN_LEN,
    ensures
        ref_len(r@) == refr@.len(),
        query_len(r@) == query@.len(),
        r@ == aln_walk_spec(query@, refr@, query@.len() as int, refr@.len() as int).reverse(),
{
    let n = query.len();
    let m = refr.len();
    let cap: i64 = 100 * ((n as i64) + (m as i64));
    let ghost bound: int = cap as int;
    let mut dp: Vec<Vec<i64>> = Vec::new();
    let mut row0: Vec<i64> = Vec::new();
    let mut j: usize = 0;
    while j <= m
        invariant
            j <= m + 1,
            row0@.len() == j,
            forall|q: int| 0 <= q < j ==> -bound <= (#[trigger] row0@[q]) && row0@[q] <= bound,
            forall|q: int|
                0 <= q < j ==> (#[trigger] row0@[q]) == aln_dp_spec(query@, refr@, 0, q),
        decreases m + 1 - j,
    {
        row0.push((j as i64) * GAP);
        j += 1;
    }
    dp.push(row0);
    let mut i: usize = 1;
    while i <= n
        invariant
            1 <= i <= n + 1,
            dp@.len() == i,
            forall|p: int| 0 <= p < dp@.len() ==> (#[trigger] dp@[p])@.len() == m + 1,
            forall|p: int, q: int|
                0 <= p < dp@.len() && 0 <= q < m + 1 ==> -bound <= (#[trigger] dp@[p]@[q])
                    && dp@[p]@[q] <= bound,
            forall|p: int, q: int|
                0 <= p < dp@.len() && 0 <= q < m + 1 ==> (#[trigger] dp@[p]@[q]) == aln_dp_spec(
                    query@,
                    refr@,
                    p,
                    q,
                ),
        decreases n + 1 - i,
    {
        let mut row: Vec<i64> = Vec::new();
        row.push((i as i64) * GAP);
        let mut j: usize = 1;
        while j <= m
            invariant
                1 <= j <= m + 1,
                1 <= i <= n,
                dp@.len() == i,
                forall|p: int| 0 <= p < dp@.len() ==> (#[trigger] dp@[p])@.len() == m + 1,
                forall|p: int, q: int|
                    0 <= p < dp@.len() && 0 <= q < m + 1 ==> -bound <= (#[trigger] dp@[p]@[q])
                        && dp@[p]@[q] <= bound,
                row@.len() == j,
                forall|q: int| 0 <= q < j ==> -bound <= (#[trigger] row@[q]) && row@[q] <= bound,
                forall|p: int, q: int|
                    0 <= p < dp@.len() && 0 <= q < m + 1 ==> (#[trigger] dp@[p]@[q])
                        == aln_dp_spec(query@, refr@, p, q),
                forall|q: int|
                    0 <= q < j ==> (#[trigger] row@[q]) == aln_dp_spec(query@, refr@, i as int, q),
        decreases m + 1 - j,
        {
            let (mat, _) = match_score(&query[i - 1], &refr[j - 1]);
            let up = dp[i - 1][j] + GAP;
            let left = row[j - 1] + GAP;
            let diag = dp[i - 1][j - 1] + mat;
            let mut best = up;
            if left < best {
                best = left;
            }
            if diag < best {
                best = diag;
            }
            if best > cap {
                best = cap;
            }
            if best < -cap {
                best = -cap;
            }
            row.push(best);
            j += 1;
        }
        dp.push(row);
        i += 1;
    }
    // walk back, preferring a read gap, then a tile gap, then the pairing
    let mut qpos = n;
    let mut rpos = m;
    let mut rev: Vec<Op> = Vec::new();
    proof {
        assert(rev@ + aln_walk_spec(query@, refr@, n as int, m as int) =~= aln_walk_spec(
            query@,
            refr@,
            n as int,
            m as int,
        ));
    }
    while qpos > 0 && rpos > 0
        invariant
            qpos <= n,
            rpos <= m,
            dp@.len() == n + 1,
            forall|p: int| 0 <= p < dp@.len() ==> (#[trigger] dp@[p])@.len() == m + 1,
            forall|p: int, q: int|
                0 <= p < dp@.len() && 0 <= q < m + 1 ==> (#[trigger] dp@[p]@[q]) == aln_dp_spec(
                    query@,
                    refr@,
                    p,
                    q,
                ),
            ref_len(rev@) == m - rpos,
            query_len(rev@) == n - qpos,
            rev@.len() <= (n - qpos) + (m - rpos),
            rev@ + aln_walk_spec(query@, refr@, qpos as int, rpos as int) == aln_walk_spec(
                query@,
                refr@,
                n as int,
                m as int,
            ),
        decreases qpos + rpos,
    {
        let current = dp[qpos][rpos];
        let (mat, op) = match_score(&query[qpos - 1], &refr[rpos - 1]);
        let ghost prev = rev@;
        let ghost walk_here = aln_walk_spec(query@, refr@, qpos as int, rpos as int);
        let chosen: Op;
        if current == dp[qpos - 1][rpos] + GAP {
            qpos -= 1;
            chosen = Op::Ins;
        } else if current == dp[qpos][rpos - 1] + GAP {
            rpos -= 1;
            chosen = Op::Del;
        } else {
            qpos -= 1;
            rpos -= 1;
            chosen = op;
        }
        rev.push(chosen);
        proof {
            lemma_spans_push(prev, chosen);
            assert(walk_here == seq![chosen] + aln_walk_spec(
                query@,
                refr@,
                qpos as int,
                rpos as int,
            ));
            assert(rev@ + aln_walk_spec(query@, refr@, qpos as int, rpos as int) =~= prev
                + walk_here);
        }
    }
    let ghost prev2 = rev@;
    crate::ops::extend_repeat(&mut rev, Op::Del, rpos);
    let ghost prev3 = rev@;
    crate::ops::extend_repeat(&mut rev, Op::Ins, qpos);
    proof {
        crate::ops::lemma_spans_concat(prev2, repeat_op(Op::Del, rpos as int));
        crate::ops::lemma_spans_concat(prev3, repeat_op(Op::Ins, qpos as int));
        lemma_spans_repeat(Op::Del, rpos as int);
        lemma_spans_repeat(Op::Ins, qpos as int);
        assert(aln_walk_spec(query@, refr@, qpos as int, rpos as int) =~= repeat_op(
            Op::Del,
            rpos as int,
        ) + repeat_op(Op::Ins, qpos as int));
        assert(rev@ =~= prev2 + aln_walk_spec(query@, refr@, qpos as int, rpos as int));
        assert(rev@ =~= aln_walk_spec(query@, refr@, n as int, m as int));
    }
    let r = crate::util::vec_reverse(&rev);
    proof {
        crate::ops::lemma_spans_reverse(rev@);
        assert(r@ =~= aln_walk_spec(query@, refr@, n as int, m as int).reverse());
    }
    r
}

/// Trim dangling gaps off a chunk-space alignment and recover the index
/// ranges it spans: first the trailing gaps go, then the leading ones move
/// the start, and what remains is walked to find the end.
#[verifier::loop_isolation(false)]
pub fn get_range(start: ChainNode, ops: &mut Vec<Op>) -> (r: ((usize, usize), (usize, usize)))
    requires
        start.read_index + old(ops)@.len() <= usize::MAX,
        start.contig_index + old(ops)@.len() <= usize::MAX,
    ensures
        query_len(final(ops)@) == r.1.0 - r.0.0,
        ref_len(final(ops)@) == r.1.1 - r.0.1,
        r.0.0 <= r.1.0,
        r.0.1 <= r.1.1,
        start.read_index <= r.0.0,
        start.contig_index <= r.0.1,
        r.1.0 <= start.read_index + old(ops)@.len(),
        r.1.1 <= start.contig_index + old(ops)@.len(),
        // exactly the dangling gaps go, and the start indices advance over
        // the gaps that led
        exists|a: int, b: int|
            #![trigger old(ops)@.subrange(a, b)]
            {
                &&& 0 <= a <= b <= old(ops)@.len()
                &&& final(ops)@ == old(ops)@.subrange(a, b)
                &&& (forall|j: int| 0 <= j < a ==> (#[trigger] old(ops)@[j]) is Ins || old(
                    ops,
                )@[j] is Del)
                &&& (forall|j: int|
                    b <= j < old(ops)@.len() ==> (#[trigger] old(ops)@[j]) is Ins || old(
                        ops,
                    )@[j] is Del)
                &&& (a < b ==> !(old(ops)@[a] is Ins) && !(old(ops)@[a] is Del) && !(old(
                    ops,
                )@[b - 1] is Ins) && !(old(ops)@[b - 1] is Del))
                &&& r.0.0 == start.read_index + query_len(old(ops)@.subrange(0, a))
                &&& r.0.1 == start.contig_index + ref_len(old(ops)@.subrange(0, a))
            },
{
    let ghost orig = ops@;
    proof {
        crate::ops::lemma_spans_bounds(orig);
    }
    // drop the trailing gaps
    let mut b: usize = ops.len();
    while b > 0 && (ops[b - 1] == Op::Ins || ops[b - 1] == Op::Del)
        invariant
            ops@ == orig,
            b <= orig.len(),
            forall|j: int| b <= j < orig.len() ==> (#[trigger] orig[j]) is Ins || orig[j] is Del,
        decreases b,
    {
        b -= 1;
    }
    // step the start over the leading gaps
    let mut a: usize = 0;
    let mut q_pos = start.read_index;
    let mut r_pos = start.contig_index;
    while a < b && (ops[a] == Op::Ins || ops[a] == Op::Del)
        invariant
            ops@ == orig,
            a <= b <= orig.len(),
            q_pos == start.read_index + query_len(orig.subrange(0, a as int)),
            r_pos == start.contig_index + ref_len(orig.subrange(0, a as int)),
            q_pos <= start.read_index + a,
            r_pos <= start.contig_index + a,
            start.read_index <= q_pos,
            start.contig_index <= r_pos,
            forall|j: int| 0 <= j < a ==> (#[trigger] orig[j]) is Ins || orig[j] is Del,
        decreases b - a,
    {
        proof {
            assert(orig.subrange(0, a + 1 as int).drop_last() =~= orig.subrange(0, a as int));
        }
        if ops[a] == Op::Ins {
            q_pos += 1;
        } else {
            r_pos += 1;
        }
        a += 1;
    }
    let kept = crate::util::vec_slice(ops, a, b);
    let start_pair = (q_pos, r_pos);
    // walk what remains
    let mut k: usize = 0;
    proof {
        crate::ops::lemma_spans_bounds(kept@);
    }
    while k < kept.len()
        invariant
            kept@ == orig.subrange(a as int, b as int),
            a <= b <= orig.len(),
            k <= kept@.len(),
            q_pos == start_pair.0 + query_len(kept@.subrange(0, k as int)),
            r_pos == start_pair.1 + ref_len(kept@.subrange(0, k as int)),
            start_pair.0 + kept@.len() <= start.read_index + orig.len(),
            start_pair.1 + kept@.len() <= start.contig_index + orig.len(),
            q_pos <= start_pair.0 + k,
            r_pos <= start_pair.1 + k,
        decreases kept@.len() - k,
    {
        proof {
            assert(kept@.subrange(0, k + 1 as int).drop_last() =~= kept@.subrange(0, k as int));
            crate::ops::lemma_spans_bounds(kept@.subrange(0, k as int));
        }
        let op = kept[k];
        if op == Op::Match || op == Op::Mismatch {
            q_pos += 1;
            r_pos += 1;
        } else if op == Op::Ins {
            q_pos += 1;
        } else {
            r_pos += 1;
        }
        k += 1;
    }
    proof {
        assert(kept@.subrange(0, kept@.len() as int) =~= kept@);
    }
    *ops = kept;
    proof {
        assert(ops@ == orig.subrange(a as int, b as int));
        assert(exists|a2: int, b2: int|
            #![trigger orig.subrange(a2, b2)]
            {
                &&& 0 <= a2 <= b2 <= orig.len()
                &&& ops@ == orig.subrange(a2, b2)
                &&& (forall|j: int| 0 <= j < a2 ==> (#[trigger] orig[j]) is Ins || orig[j] is Del)
                &&& (forall|j: int|
                    b2 <= j < orig.len() ==> (#[trigger] orig[j]) is Ins || orig[j] is Del)
                &&& (a2 < b2 ==> !(orig[a2] is Ins) && !(orig[a2] is Del) && !(orig[b2
                    - 1] is Ins) && !(orig[b2 - 1] is Del))
                &&& start_pair.0 == start.read_index + query_len(orig.subrange(0, a2))
                &&& start_pair.1 == start.contig_index + ref_len(orig.subrange(0, a2))
            }) by {
            assert(0 <= a as int <= b as int <= orig.len());
        }
    }
    ((start_pair.0, start_pair.1), (q_pos, r_pos))
}

/// One chain of hits placed on one contig, with its chunk-space ops.
#[derive(Debug, Clone)]
pub struct Chain {
    pub id: String,
    pub contig_start_idx: usize,
    pub contig_end_idx: usize,
    pub is_forward: bool,
    pub query_start_idx: usize,
    pub query_end_idx: usize,
    pub query_nodes_len: usize,
    pub ops: Vec<Op>,
}

/// A chain is sound: its ops spell exactly the hit range and span exactly
/// the tile range it claims.
pub open spec fn chain_wf(c: Chain) -> bool {
    &&& c.query_start_idx <= c.query_end_idx
    &&& c.contig_start_idx <= c.contig_end_idx
    &&& query_len(c.ops@) == c.query_end_idx - c.query_start_idx
    &&& ref_len(c.ops@) == c.contig_end_idx - c.contig_start_idx
}

/// The crude score of a chain: matches reward, everything else costs.
pub open spec fn approx_score_spec(ops: Seq<Op>) -> int
    decreases ops.len(),
{
    if ops.len() == 0 {
        0
    } else {
        approx_score_spec(ops.drop_last()) + match ops.last() {
            Op::Match => 10,
            Op::Mismatch => -10,
            Op::Ins => -5,
            Op::Del => -5,
        }
    }
}

impl Chain {
    pub fn new(
        id: String,
        start: (usize, usize),
        end: (usize, usize),
        query_nodes_len: usize,
        is_forward: bool,
        ops: Vec<Op>,
    ) -> (r: Chain)
        ensures
            r.id == id,
            r.query_start_idx == start.0,
            r.contig_start_idx == start.1,
            r.query_end_idx == end.0,
            r.contig_end_idx == end.1,
            r.query_nodes_len == query_nodes_len,
            r.is_forward == is_forward,
            r.ops == ops,
    {
        Chain {
            id,
            contig_start_idx: start.1,
            contig_end_idx: end.1,
            is_forward,
            query_start_idx: start.0,
            query_end_idx: end.0,
            query_nodes_len,
            ops,
        }
    }

    pub fn approx_score(&self) -> (r: i64)
        requires
            self.ops@.len() <= 0x1000_0000,
        ensures
            r == approx_score_spec(self.ops@),
    {
        let mut r: i64 = 0;
        let mut k: usize = 0;
        while k < self.ops.len()
            invariant
                k <= self.ops@.len(),
                self.ops@.len() <= 0x1000_0000,
                r == approx_score_spec(self.ops@.subrange(0, k as int)),
                -10 * k <= r <= 10 * k,
            decreases self.ops@.len() - k,
        {
            proof {
                assert(self.ops@.subrange(0, k + 1 as int).drop_last() =~= self.ops@.subrange(
                    0,
                    k as int,
                ));
            }
            match self.ops[k] {
                Op::Match => r += 10,
                Op::Mismatch => r -= 10,
                Op::Ins => r -= 5,
                Op::Del => r -= 5,
            }
            k += 1;
        }
        proof {
            assert(self.ops@.subrange(0, self.ops@.len() as int) =~= self.ops@);
        }
        r
    }

    /// The chain's query index range on the forward strand.
    pub fn coord(&self) -> (r: (usize, usize))
        requires
            self.is_forward || (self.query_end_idx <= self.query_nodes_len && self.query_start_idx
                <= self.query_nodes_len),
        ensures
            self.is_forward ==> r == ((self.query_start_idx, self.query_end_idx)),
            !self.is_forward ==> r.0 == self.query_nodes_len - self.query_end_idx && r.1
                == self.query_nodes_len - self.query_start_idx,
    {
        if self.is_forward {
            (self.query_start_idx, self.query_end_idx)
        } else {
            (self.query_nodes_len - self.query_end_idx, self.query_nodes_len
                - self.query_start_idx)
        }
    }

    /// This chain's query range on the forward strand, as the pair
    /// (start, end).
    pub open spec fn coord_spec(self) -> (int, int) {
        if self.is_forward {
            (self.query_start_idx as int, self.query_end_idx as int)
        } else {
            (
                self.query_nodes_len - self.query_end_idx,
                self.query_nodes_len - self.query_start_idx,
            )
        }
    }

    /// Whether this chain keeps less than half of its query range outside
    /// `other`: the retention test after one chain is picked.
    pub fn overlap_below_half(&self, other: &Chain) -> (r: bool)
        requires
            self.query_start_idx <= self.query_end_idx,
            self.is_forward || (self.query_end_idx <= self.query_nodes_len
                && self.query_start_idx <= self.query_nodes_len),
            other.query_start_idx <= other.query_end_idx,
            other.is_forward || (other.query_end_idx <= other.query_nodes_len
                && other.query_start_idx <= other.query_nodes_len),
            self.query_end_idx <= 0x4000_0000,
            self.query_nodes_len <= 0x4000_0000,
        ensures
            r <==> ({
                let (start, end) = self.coord_spec();
                let (others, othere) = other.coord_spec();
                let len = end - start;
                let hi = if end < othere {
                    end
                } else {
                    othere
                };
                let lo = if start > others {
                    start
                } else {
                    others
                };
                let ovlp = if hi > lo {
                    hi - lo
                } else {
                    0
                };
                len > 0 && 2 * ovlp < len
            }),
    {
        let (start, end) = self.coord();
        let (others, othere) = other.coord();
        let len = end - start;
        let hi = if end < othere {
            end
        } else {
            othere
        };
        let lo = if start > others {
            start
        } else {
            others
        };
        let ovlp = if hi > lo {
            hi - lo
        } else {
            0
        };
        len > 0 && 2 * ovlp < len
    }
}

/// Insertion sort of pairings by (contig start, read start).
fn sort_chain_nodes(v: &Vec<ChainNode>) -> (r: Vec<ChainNode>)
    ensures
        r@.len() == v@.len(),
        forall|i: int, j: int|
            0 <= i <= j < r@.len() ==> ((#[trigger] r@[i]).contig_start < (
            #[trigger] r@[j]).contig_start || (r@[i].contig_start == r@[j].contig_start
                && r@[i].read_start <= r@[j].read_start)),
{
    let mut r: Vec<ChainNode> = Vec::new();
    let mut k: usize = 0;
    while k < v.len()
        invariant
            k <= v@.len(),
            r@.len() == k,
            forall|i: int, j: int|
                0 <= i <= j < r@.len() ==> ((#[trigger] r@[i]).contig_start < (
                #[trigger] r@[j]).contig_start || (r@[i].contig_start == r@[j].contig_start
                    && r@[i].read_start <= r@[j].read_start)),
        decreases v@.len() - k,
    {
        let x = v[k];
        let mut p: usize = 0;
        while p < r.len() && (r[p].contig_start < x.contig_start || (r[p].contig_start
            == x.contig_start && r[p].read_start <= x.read_start))
            invariant
                p <= r@.len(),
                forall|i: int|
                    0 <= i < p ==> ((#[trigger] r@[i]).contig_start < x.contig_start || (
                    r@[i].contig_start == x.contig_start && r@[i].read_start <= x.read_start)),
            decreases r@.len() - p,
        {
            p += 1;
        }
        let ghost old_r = r@;
        r.insert(p, x);
        proof {
            assert(forall|i: int| 0 <= i < p ==> r@[i] == old_r[i]);
            assert(forall|i: int| p < i < r@.len() ==> r@[i] == old_r[i - 1]);
            assert(r@[p as int] == x);
            assert(p < old_r.len() ==> !(old_r[p as int].contig_start < x.contig_start || (
            old_r[p as int].contig_start == x.contig_start && old_r[p as int].read_start
                <= x.read_start)));
        }
        k += 1;
    }
    r
}

/// Build one chain from its selected pairings: the hit run and tile run they
/// span are aligned in chunk space and the dangling gaps trimmed away. A
/// selection whose indices do not fit the read or the encoding yields
/// nothing.
pub fn align_in_chunk_space(
    nodes: &Vec<LightNode>,
    enc: &ContigEncoding,
    is_forward: bool,
    first: ChainNode,
    last: ChainNode,
) -> (r: Option<Chain>)
    ensures
        r is Some ==> chain_wf(r->0),
{
    if last.read_index >= nodes.len() || last.contig_index >= enc.tiles.len()
        || first.read_index > last.read_index || first.contig_index > last.contig_index {
        return None;
    }
    let query = crate::util::vec_slice(nodes, first.read_index, last.read_index + 1);
    let refr = crate::util::vec_slice(&enc.tiles, first.contig_index, last.contig_index + 1);
    if query.len() > MAX_CHAIN_LEN || refr.len() > MAX_CHAIN_LEN {
        return None;
    }
    let mut ops = alignment(&query, &refr);
    proof {
        crate::ops::lemma_spans_len(ops@);
    }
    if first.read_index > usize::MAX - ops.len() || first.contig_index > usize::MAX - ops.len() {
        return None;
    }
    let (start_pair, end_pair) = get_range(first, &mut ops);
    let id = clone_string(&enc.id);
    Some(Chain::new(id, start_pair, end_pair, nodes.len(), is_forward, ops))
}

/// A copy of a contig name.
pub fn clone_string(s: &String) -> (r: String)
    ensures
        r@ == s@,
{
    s.clone()
}

/// Whether some read hit agrees with some tile of the encoding.
pub open spec fn some_pair_matches(nodes: Seq<LightNode>, enc: &ContigEncoding) -> bool {
    exists|q: int, t: int|
        0 <= q < nodes.len() && 0 <= t < enc.tiles@.len() && (#[trigger] nodes[q]).node.0 == (
        #[trigger] enc.tiles@[t]).unit && nodes[q].is_forward == enc.tiles@[t].direction
}

/// All chains of a read against one encoding, walking one strand: pair the
/// hits with agreeing tiles, then peel minimum-cost chains off until no
/// pairing is left.
pub fn enumerate_chain_norev(nodes: &Vec<LightNode>, enc: &ContigEncoding, direction: bool) -> (r:
    Vec<Chain>)
    ensures
        forall|k: int| 0 <= k < r@.len() ==> chain_wf(#[trigger] r@[k]),
        !some_pair_matches(nodes@, enc) ==> r@.len() == 0,
{
    let mut chain_nodes: Vec<ChainNode> = Vec::new();
    let mut q: usize = 0;
    while q < nodes.len()
        invariant
            q <= nodes@.len(),
            !some_pair_matches(nodes@, enc) ==> chain_nodes@.len() == 0,
        decreases nodes@.len() - q,
    {
        let hits = enc.matches(nodes[q].node, nodes[q].is_forward);
        proof {
            if !some_pair_matches(nodes@, enc) && hits@.len() > 0 {
                assert(hits@[0] < enc.tiles@.len() && enc.tiles@[hits@[0] as int].unit
                    == nodes@[q as int].node.0 && enc.tiles@[hits@[0] as int].direction
                    == nodes@[q as int].is_forward);
                assert(false);
            }
        }
        let mut h: usize = 0;
        while h < hits.len()
            invariant
                h <= hits@.len(),
                q < nodes@.len(),
                !some_pair_matches(nodes@, enc) ==> hits@.len() == 0 && chain_nodes@.len() == 0,
                forall|k: int|
                    0 <= k < hits@.len() ==> (#[trigger] hits@[k]) < enc.tiles@.len(),
            decreases hits@.len() - h,
        {
            let r_idx = hits[h];
            chain_nodes.push(ChainNode::new(q, &nodes[q], r_idx, &enc.tiles[r_idx]));
            h += 1;
        }
        q += 1;
    }
    let mut chain_nodes = sort_chain_nodes(&chain_nodes);
    proof {
        if !some_pair_matches(nodes@, enc) {
            assert(chain_nodes@.len() == 0);
        }
    }
    let mut chains: Vec<Chain> = Vec::new();
    while chain_nodes.len() > 0
        invariant
            forall|k: int| 0 <= k < chains@.len() ==> chain_wf(#[trigger] chains@[k]),
            !some_pair_matches(nodes@, enc) ==> chains@.len() == 0 && chain_nodes@.len() == 0,
        decreases chain_nodes@.len(),
    {
        // the chainer needs bounded coordinates
        let mut ok = true;
        let mut c: usize = 0;
        while c < chain_nodes.len()
            invariant
                c <= chain_nodes@.len(),
                ok ==> forall|k: int|
                    0 <= k < c ==> (#[trigger] chain_nodes@[k]).read_start <= 0x1000_0000
                        && chain_nodes@[k].contig_start <= 0x1000_0000,
            decreases chain_nodes@.len() - c,
        {
            if chain_nodes[c].read_start > 0x1000_0000 || chain_nodes[c].contig_start
                > 0x1000_0000 {
                ok = false;
            }
            c += 1;
        }
        if !ok || chain_nodes.len() > 0x1000_0000 {
            return chains;
        }
        let indices = min_chain(&chain_nodes);
        let first = chain_nodes[indices[0]];
        let last = chain_nodes[indices[indices.len() - 1]];
        if first.read_index <= usize::MAX - 1 && first.contig_index <= usize::MAX - 1 {
            match align_in_chunk_space(nodes, enc, direction, first, last) {
                Some(chain) => chains.push(chain),
                None => {},
            }
        }
        // drop the selected pairings
        let mut rest: Vec<ChainNode> = Vec::new();
        let mut c2: usize = 0;
        while c2 < chain_nodes.len()
            invariant
                c2 <= chain_nodes@.len(),
                rest@.len() <= c2,
                indices@.len() >= 1,
                forall|k: int|
                    0 <= k < indices@.len() ==> (#[trigger] indices@[k]) < chain_nodes@.len(),
            decreases chain_nodes@.len() - c2,
        {
            if !crate::util::contains_usize(&indices, c2) {
                rest.push(chain_nodes[c2]);
            }
            c2 += 1;
        }
        proof {
            assert(indices@[0] < chain_nodes@.len());
            assert(indices@.contains(indices@[0]));
        }
        if rest.len() >= chain_nodes.len() {
            return chains;
        }
        chain_nodes = rest;
    }
    chains
}

/// All chains of one read against the encodings, both strands.
/// The read names no unit that any encoding's tiles name.
pub open spec fn no_shared_unit(read: &EncodedRead, encs: Seq<ContigEncoding>) -> bool {
    forall|e: int, i: int, t: int|
        #![trigger read.nodes@[i].unit, encs[e].tiles@[t].unit]
        0 <= e < encs.len() && 0 <= i < read.nodes@.len() && 0 <= t < encs[e].tiles@.len()
            ==> read.nodes@[i].unit != encs[e].tiles@[t].unit
}

pub fn enumerate_chain(read: &EncodedRead, encs: &Vec<ContigEncoding>) -> (r: Vec<Chain>)
    requires
        forall|i: int|
            0 <= i < read.nodes@.len() ==> (#[trigger] read.nodes@[i]).position_from_start
                + read.nodes@[i].seq@.len() <= read.original_length,
    ensures
        forall|k: int| 0 <= k < r@.len() ==> chain_wf(#[trigger] r@[k]),
        // a read sharing no unit with any encoding yields no chain
        no_shared_unit(read, encs@) ==> r@.len() == 0,
{
    let mut nodes_run: Vec<LightNode> = Vec::new();
    let mut i: usize = 0;
    while i < read.nodes.len()
        invariant
            i <= read.nodes@.len(),
            nodes_run@.len() == i,
            forall|k: int|
                0 <= k < read.nodes@.len() ==> (#[trigger] read.nodes@[k]).position_from_start
                    + read.nodes@[k].seq@.len() <= read.original_length,
            forall|k: int|
                0 <= k < nodes_run@.len() ==> (#[trigger] nodes_run@[k]).range.0
                    <= nodes_run@[k].range.1 <= read.original_length,
            forall|k: int|
                0 <= k < nodes_run@.len() ==> (#[trigger] nodes_run@[k]).node.0
                    == read.nodes@[k].unit,
        decreases read.nodes@.len() - i,
    {
        let n = &read.nodes[i];
        let start = n.position_from_start;
        let end = start + n.query_length();
        nodes_run.push(LightNode::new((n.unit, n.cluster), n.is_forward, (start, end)));
        i += 1;
    }
    let mut chains: Vec<Chain> = Vec::new();
    let mut e: usize = 0;
    while e < encs.len()
        invariant
            e <= encs@.len(),
            forall|k: int| 0 <= k < chains@.len() ==> chain_wf(#[trigger] chains@[k]),
            no_shared_unit(read, encs@) ==> chains@.len() == 0,
            forall|k: int|
                0 <= k < nodes_run@.len() ==> (#[trigger] nodes_run@[k]).node.0
                    == read.nodes@[k].unit,
            nodes_run@.len() == read.nodes@.len(),
        decreases encs@.len() - e,
    {
        let mut sub = enumerate_chain_norev(&nodes_run, &encs[e], true);
        proof {
            if no_shared_unit(read, encs@) {
                assert forall|q: int, t: int|
                    0 <= q < nodes_run@.len() && 0 <= t < encs@[e as int].tiles@.len() implies !((
                #[trigger] nodes_run@[q]).node.0 == (#[trigger] encs@[e as int].tiles@[t]).unit
                    && nodes_run@[q].is_forward == encs@[e as int].tiles@[t].direction) by {
                    assert(nodes_run@[q].node.0 == read.nodes@[q].unit);
                    assert(read.nodes@[q].unit != encs@[e as int].tiles@[t].unit);
                }
                assert(!some_pair_matches(nodes_run@, &encs[e as int]));
            }
        }
        while sub.len() > 0
            invariant
                forall|k: int| 0 <= k < sub@.len() ==> chain_wf(#[trigger] sub@[k]),
                forall|k: int| 0 <= k < chains@.len() ==> chain_wf(#[trigger] chains@[k]),
                no_shared_unit(read, encs@) ==> chains@.len() == 0 && sub@.len() == 0,
            decreases sub@.len(),
        {
            chains.push(sub.remove(0));
        }
        e += 1;
    }
    // the reverse strand
    let len = read.original_length;
    let mut rev_run: Vec<LightNode> = Vec::new();
    let mut j: usize = nodes_run.len();
    while j > 0
        invariant
            j <= nodes_run@.len(),
            nodes_run@.len() == read.nodes@.len(),
            forall|k: int|
                0 <= k < nodes_run@.len() ==> (#[trigger] nodes_run@[k]).range.0
                    <= nodes_run@[k].range.1 <= len,
            forall|k: int|
                0 <= k < nodes_run@.len() ==> (#[trigger] nodes_run@[k]).node.0
                    == read.nodes@[k].unit,
            rev_run@.len() == nodes_run@.len() - j,
            forall|k: int|
                0 <= k < rev_run@.len() ==> (#[trigger] rev_run@[k]).node.0 == read.nodes@[
                    nodes_run@.len() - 1 - k].unit,
        decreases j,
    {
        j -= 1;
        let mut n = nodes_run[j];
        n.reverse(len);
        rev_run.push(n);
    }
    let mut e2: usize = 0;
    while e2 < encs.len()
        invariant
            e2 <= encs@.len(),
            forall|k: int| 0 <= k < chains@.len() ==> chain_wf(#[trigger] chains@[k]),
            no_shared_unit(read, encs@) ==> chains@.len() == 0,
            forall|k: int|
                0 <= k < rev_run@.len() ==> (#[trigger] rev_run@[k]).node.0 == read.nodes@[
                    read.nodes@.len() - 1 - k].unit,
            rev_run@.len() == read.nodes@.len(),
        decreases encs@.len() - e2,
    {
        let mut sub = enumerate_chain_norev(&rev_run, &encs[e2], false);
        proof {
            if no_shared_unit(read, encs@) {
                assert forall|q: int, t: int|
                    0 <= q < rev_run@.len() && 0 <= t < encs@[e2 as int].tiles@.len() implies !((
                #[trigger] rev_run@[q]).node.0 == (#[trigger] encs@[e2 as int].tiles@[t]).unit
                    && rev_run@[q].is_forward == encs@[e2 as int].tiles@[t].direction) by {
                    assert(rev_run@[q].node.0 == read.nodes@[read.nodes@.len() - 1 - q].unit);
                    assert(read.nodes@[read.nodes@.len() - 1 - q].unit != encs@[e2 as int].tiles@[
                        t].unit);
                }
                assert(!some_pair_matches(rev_run@, &encs[e2 as int]));
            }
        }
        while sub.len() > 0
            invariant
                forall|k: int| 0 <= k < sub@.len() ==> chain_wf(#[trigger] sub@[k]),
                forall|k: int| 0 <= k < chains@.len() ==> chain_wf(#[trigger] chains@[k]),
                no_shared_unit(read, encs@) ==> chains@.len() == 0 && sub@.len() == 0,
            decreases sub@.len(),
        {
            chains.push(sub.remove(0));
        }
        e2 += 1;
    }
    chains
}

} // verus!
