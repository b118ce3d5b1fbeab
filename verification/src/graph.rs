//! The bidirected assembly graph: an arena of nodes with two ports each,
//! edges attached to ports and recorded at both endpoints, and integer copy
//! numbers on nodes and edges.

use vstd::prelude::*;

verus! {

/// One of the two ports of a node.
#[derive(Debug, Clone, Copy, PartialEq, Eq, Structural)]
pub enum Position {
    Head,
    Tail,
}

impl Position {
    pub open spec fn spec_flip(self) -> Position {
        match self {
            Position::Head => Position::Tail,
            Position::Tail => Position::Head,
        }
    }

    /// The opposite port.
    pub fn flip(self) -> (r: Position)
        ensures
            r == self.spec_flip(),
    {
        match self {
            Position::Head => Position::Tail,
            Position::Tail => Position::Head,
        }
    }
}

/// A directed record of one bidirected edge; every edge is recorded once at
/// each endpoint, so any stored total counts each edge twice.
#[derive(Debug, Clone, Copy, PartialEq, Eq, Structural)]
pub struct DitchEdge {
    pub from: usize,
    pub from_position: Position,
    pub to: usize,
    pub to_position: Position,
    pub occ: usize,
    pub copy_number: Option<usize>,
}

/// A graph node: a domain label, an occurrence count, an optional copy
/// number, its edge records, and a tombstone bit.
#[derive(Debug, Clone)]
pub struct DitchNode {
    pub unit: u64,
    pub cluster: u64,
    pub occ: usize,
    pub copy_number: Option<usize>,
    pub edges: Vec<DitchEdge>,
    pub deleted: bool,
}

/// The copy number a node or edge contributes to a total.
pub open spec fn cp_of(cp: Option<usize>) -> int {
    match cp {
        Some(c) => c as int,
        None => 0,
    }
}

/// Total copy number over a node arena.
pub open spec fn node_cp_sum(nodes: Seq<DitchNode>) -> int
    decreases nodes.len(),
{
    if nodes.len() == 0 {
        0
    } else {
        node_cp_sum(nodes.drop_last()) + cp_of(nodes.last().copy_number)
    }
}

/// Total copy number over one node's edge records.
pub open spec fn edge_cp_sum_node(edges: Seq<DitchEdge>) -> int
    decreases edges.len(),
{
    if edges.len() == 0 {
        0
    } else {
        edge_cp_sum_node(edges.drop_last()) + cp_of(edges.last().copy_number)
    }
}

/// Total copy number over every edge record of the arena; each edge is
/// recorded at both endpoints, so this counts every edge twice.
pub open spec fn edge_cp_sum(nodes: Seq<DitchNode>) -> int
    decreases nodes.len(),
{
    if nodes.len() == 0 {
        0
    } else {
        edge_cp_sum(nodes.drop_last()) + edge_cp_sum_node(nodes.last().edges@)
    }
}

/// Number of edge records at one port.
pub open spec fn count_pos(edges: Seq<DitchEdge>, pos: Position) -> int
    decreases edges.len(),
{
    if edges.len() == 0 {
        0
    } else {
        count_pos(edges.drop_last(), pos) + if edges.last().from_position == pos {
            1int
        } else {
            0int
        }
    }
}

/// A match makes the port count positive.
pub proof fn lemma_count_pos_member(edges: Seq<DitchEdge>, pos: Position, a: int)
    requires
        0 <= a < edges.len(),
        edges[a].from_position == pos,
    ensures
        count_pos(edges, pos) >= 1,
    decreases edges.len(),
{
    if a == edges.len() - 1 {
        lemma_count_pos_nonneg(edges.drop_last(), pos);
    } else {
        lemma_count_pos_member(edges.drop_last(), pos, a);
    }
}

pub proof fn lemma_count_pos_nonneg(edges: Seq<DitchEdge>, pos: Position)
    ensures
        count_pos(edges, pos) >= 0,
    decreases edges.len(),
{
    if edges.len() > 0 {
        lemma_count_pos_nonneg(edges.drop_last(), pos);
    }
}

/// Two distinct matches make the port count at least two: a port with a
/// single edge record names it uniquely.
pub proof fn lemma_count_pos_two(edges: Seq<DitchEdge>, pos: Position, a: int, b: int)
    requires
        0 <= a < b < edges.len(),
        edges[a].from_position == pos,
        edges[b].from_position == pos,
    ensures
        count_pos(edges, pos) >= 2,
    decreases edges.len(),
{
    if b == edges.len() - 1 {
        lemma_count_pos_member(edges.drop_last(), pos, a);
    } else {
        lemma_count_pos_two(edges.drop_last(), pos, a, b);
    }
}

pub proof fn lemma_node_cp_sum_update(nodes: Seq<DitchNode>, i: int, v: DitchNode)
    requires
        0 <= i < nodes.len(),
    ensures
        node_cp_sum(nodes.update(i, v)) == node_cp_sum(nodes) - cp_of(nodes[i].copy_number)
            + cp_of(v.copy_number),
    decreases nodes.len(),
{
    if i == nodes.len() - 1 {
        assert(nodes.update(i, v).drop_last() =~= nodes.drop_last());
    } else {
        lemma_node_cp_sum_update(nodes.drop_last(), i, v);
        assert(nodes.update(i, v).drop_last() =~= nodes.drop_last().update(i, v));
    }
}

pub proof fn lemma_node_cp_sum_push(nodes: Seq<DitchNode>, v: DitchNode)
    ensures
        node_cp_sum(nodes.push(v)) == node_cp_sum(nodes) + cp_of(v.copy_number),
{
    assert(nodes.push(v).drop_last() =~= nodes);
}

pub proof fn lemma_edge_cp_sum_update(nodes: Seq<DitchNode>, i: int, v: DitchNode)
    requires
        0 <= i < nodes.len(),
    ensures
        edge_cp_sum(nodes.update(i, v)) == edge_cp_sum(nodes) - edge_cp_sum_node(nodes[i].edges@)
            + edge_cp_sum_node(v.edges@),
    decreases nodes.len(),
{
    if i == nodes.len() - 1 {
        assert(nodes.update(i, v).drop_last() =~= nodes.drop_last());
    } else {
        lemma_edge_cp_sum_update(nodes.drop_last(), i, v);
        assert(nodes.update(i, v).drop_last() =~= nodes.drop_last().update(i, v));
    }
}

pub proof fn lemma_edge_cp_sum_push(nodes: Seq<DitchNode>, v: DitchNode)
    ensures
        edge_cp_sum(nodes.push(v)) == edge_cp_sum(nodes) + edge_cp_sum_node(v.edges@),
{
    assert(nodes.push(v).drop_last() =~= nodes);
}

pub proof fn lemma_edge_cp_sum_node_update(edges: Seq<DitchEdge>, k: int, e: DitchEdge)
    requires
        0 <= k < edges.len(),
    ensures
        edge_cp_sum_node(edges.update(k, e)) == edge_cp_sum_node(edges) - cp_of(
            edges[k].copy_number,
        ) + cp_of(e.copy_number),
    decreases edges.len(),
{
    if k == edges.len() - 1 {
        assert(edges.update(k, e).drop_last() =~= edges.drop_last());
    } else {
        lemma_edge_cp_sum_node_update(edges.drop_last(), k, e);
        assert(edges.update(k, e).drop_last() =~= edges.drop_last().update(k, e));
    }
}

pub proof fn lemma_edge_cp_sum_node_push(edges: Seq<DitchEdge>, e: DitchEdge)
    ensures
        edge_cp_sum_node(edges.push(e)) == edge_cp_sum_node(edges) + cp_of(e.copy_number),
{
    assert(edges.push(e).drop_last() =~= edges);
}

/// The assembly graph.
#[derive(Debug, Clone)]
pub struct DitchGraph {
    pub nodes: Vec<DitchNode>,
}

impl DitchGraph {
    /// Every edge record names its owner and a node inside the arena.
    pub open spec fn wf(self) -> bool {
        forall|i: int, k: int|
            0 <= i < self.nodes@.len() && 0 <= k < self.nodes@[i].edges@.len() ==> (
            #[trigger] self.nodes@[i].edges@[k]).from == i && self.nodes@[i].edges@[k].to
                < self.nodes@.len()
    }

    pub fn new() -> (r: DitchGraph)
        ensures
            r.wf(),
            r.nodes@.len() == 0,
    {
        DitchGraph { nodes: Vec::new() }
    }

    /// Add a fresh node; its index is returned.
    pub fn push_node(&mut self, unit: u64, cluster: u64, occ: usize, copy_number: Option<usize>)
        -> (r: usize)
        requires
            old(self).wf(),
        ensures
            final(self).wf(),
            r == old(self).nodes@.len(),
            final(self).nodes@.len() == old(self).nodes@.len() + 1,
            final(self).nodes@ == old(self).nodes@.push(final(self).nodes@.last()),
            final(self).nodes@.last().unit == unit,
            final(self).nodes@.last().cluster == cluster,
            final(self).nodes@.last().occ == occ,
            final(self).nodes@.last().copy_number == copy_number,
            final(self).nodes@.last().edges@.len() == 0,
            final(self).nodes@.last().deleted == false,
    {
        let r = self.nodes.len();
        self.nodes.push(
            DitchNode { unit, cluster, occ, copy_number, edges: Vec::new(), deleted: false },
        );
        r
    }

    /// The copy number of node `i`, when the index is live.
    pub fn node_copy_number(&self, i: usize) -> (r: Option<usize>)
        requires
            i < self.nodes@.len(),
        ensures
            r == self.nodes@[i as int].copy_number,
    {
        self.nodes[i].copy_number
    }

    pub fn is_deleted(&self, i: usize) -> (r: bool)
        requires
            i < self.nodes@.len(),
        ensures
            r == self.nodes@[i as int].deleted,
    {
        self.nodes[i].deleted
    }

    pub fn edge_count_of(&self, i: usize) -> (r: usize)
        requires
            i < self.nodes@.len(),
        ensures
            r == self.nodes@[i as int].edges@.len(),
    {
        self.nodes[i].edges.len()
    }

    /// Number of edges leaving port `pos` of node `i`.
    pub fn count_edges(&self, i: usize, pos: Position) -> (r: usize)
        requires
            i < self.nodes@.len(),
        ensures
            r == count_pos(self.nodes@[i as int].edges@, pos),
    {
        let edges = &self.nodes[i].edges;
        let mut r: usize = 0;
        let mut k: usize = 0;
        while k < edges.len()
            invariant
                k <= edges@.len(),
                r == count_pos(edges@.subrange(0, k as int), pos),
                r <= k,
            decreases edges@.len() - k,
        {
            proof {
                assert(edges@.subrange(0, k + 1 as int).drop_last() =~= edges@.subrange(
                    0,
                    k as int,
                ));
            }
            if edges[k].from_position == pos {
                r += 1;
            }
            k += 1;
        }
        proof {
            assert(edges@.subrange(0, edges@.len() as int) =~= edges@);
        }
        r
    }

    /// Index of the first edge record at `(i, pos)` going to `(to, to_pos)`.
    pub fn find_edge_idx(&self, i: usize, pos: Position, to: usize, to_pos: Position) -> (r: Option<
        usize,
    >)
        requires
            i < self.nodes@.len(),
        ensures
            match r {
                Some(k) => {
                    &&& k < self.nodes@[i as int].edges@.len()
                    &&& self.nodes@[i as int].edges@[k as int].from_position == pos
                    &&& self.nodes@[i as int].edges@[k as int].to == to
                    &&& self.nodes@[i as int].edges@[k as int].to_position == to_pos
                },
                None => forall|k: int|
                    0 <= k < self.nodes@[i as int].edges@.len() ==> !((
                    #[trigger] self.nodes@[i as int].edges@[k]).from_position == pos
                        && self.nodes@[i as int].edges@[k].to == to
                        && self.nodes@[i as int].edges@[k].to_position == to_pos),
            },
    {
        let edges = &self.nodes[i].edges;
        let mut k: usize = 0;
        while k < edges.len()
            invariant
                k <= edges@.len(),
                i < self.nodes@.len(),
                edges@ == self.nodes@[i as int].edges@,
                forall|j: int|
                    0 <= j < k ==> !((#[trigger] edges@[j]).from_position == pos && edges@[j].to
                        == to && edges@[j].to_position == to_pos),
            decreases edges@.len() - k,
        {
            if edges[k].from_position == pos && edges[k].to == to && edges[k].to_position == to_pos {
                return Some(k);
            }
            k += 1;
        }
        None
    }

    /// A copy of one edge record.
    pub fn edge_at(&self, i: usize, k: usize) -> (r: DitchEdge)
        requires
            i < self.nodes@.len(),
            k < self.nodes@[i as int].edges@.len(),
        ensures
            r == self.nodes@[i as int].edges@[k as int],
    {
        self.nodes[i].edges[k]
    }

    /// The first edge leaving `(i, pos)`, if any.
    pub fn first_edge_from(&self, i: usize, pos: Position) -> (r: Option<DitchEdge>)
        requires
            i < self.nodes@.len(),
        ensures
            match r {
                Some(e) => exists|k: int|
                    0 <= k < self.nodes@[i as int].edges@.len() && (
                    #[trigger] self.nodes@[i as int].edges@[k]) == e && e.from_position == pos,
                None => count_pos(self.nodes@[i as int].edges@, pos) == 0,
            },
    {
        let edges = &self.nodes[i].edges;
        let mut k: usize = 0;
        while k < edges.len()
            invariant
                k <= edges@.len(),
                i < self.nodes@.len(),
                edges@ == self.nodes@[i as int].edges@,
                count_pos(edges@.subrange(0, k as int), pos) == 0,
            decreases edges@.len() - k,
        {
            proof {
                assert(edges@.subrange(0, k + 1 as int).drop_last() =~= edges@.subrange(
                    0,
                    k as int,
                ));
            }
            if edges[k].from_position == pos {
                return Some(edges[k]);
            }
            k += 1;
        }
        proof {
            assert(edges@.subrange(0, edges@.len() as int) =~= edges@);
        }
        None
    }

    /// Decrement the copy number of node `i` and carve off the matching
    /// share of its occupancy; the share is returned. A node without a
    /// positive copy number is left alone.
    pub fn decrement_node_cp(&mut self, i: usize) -> (r: usize)
        requires
            old(self).wf(),
            i < old(self).nodes@.len(),
        ensures
            final(self).wf(),
            final(self).nodes@.len() == old(self).nodes@.len(),
            final(self).nodes@ == old(self).nodes@.update(i as int, final(self).nodes@[i as int]),
            final(self).nodes@[i as int].edges == old(self).nodes@[i as int].edges,
            final(self).nodes@[i as int].unit == old(self).nodes@[i as int].unit,
            final(self).nodes@[i as int].cluster == old(self).nodes@[i as int].cluster,
            final(self).nodes@[i as int].deleted == old(self).nodes@[i as int].deleted,
            cp_of(old(self).nodes@[i as int].copy_number) >= 1 ==> cp_of(
                final(self).nodes@[i as int].copy_number,
            ) == cp_of(old(self).nodes@[i as int].copy_number) - 1,
            cp_of(old(self).nodes@[i as int].copy_number) == 0 ==> final(self).nodes@[i as int]
                == old(self).nodes@[i as int],
    {
        let node_occ = self.nodes[i].occ;
        let cpn = self.nodes[i].copy_number;
        let mut share: usize = 0;
        match cpn {
            Some(c) => if c >= 1 {
                share = node_occ / c;
                proof {
                    assert(share <= node_occ) by (nonlinear_arith)
                        requires
                            share == node_occ / c,
                            c >= 1,
                    ;
                }
                let mut n = self.nodes.remove(i);
                n.occ = n.occ - share;
                n.copy_number = Some(c - 1);
                self.nodes.insert(i, n);
            },
            None => {},
        }
        proof {
            assert(self.nodes@ =~= old(self).nodes@.update(i as int, self.nodes@[i as int]));
            assert(self.wf()) by {
                assert forall|i2: int, k2: int|
                    0 <= i2 < self.nodes@.len() && 0 <= k2 < self.nodes@[i2].edges@.len() implies (
                #[trigger] self.nodes@[i2].edges@[k2]).from == i2 && self.nodes@[i2].edges@[k2].to
                    < self.nodes@.len() by {
                    assert(self.nodes@[i2].edges@ == old(self).nodes@[i2].edges@);
                    assert(old(self).nodes@[i2].edges@[k2].from == i2);
                }
            }
        }
        share
    }

    /// Decrement the copy number of the edge record `k` of node `i` and
    /// carve off the matching share of its occurrence; the share is
    /// returned.
    pub fn decrement_edge_at(&mut self, i: usize, k: usize) -> (r: usize)
        requires
            old(self).wf(),
            i < old(self).nodes@.len(),
            k < old(self).nodes@[i as int].edges@.len(),
        ensures
            final(self).wf(),
            final(self).nodes@.len() == old(self).nodes@.len(),
            final(self).nodes@ == old(self).nodes@.update(i as int, final(self).nodes@[i as int]),
            final(self).nodes@[i as int].edges@ == old(self).nodes@[i as int].edges@.update(
                k as int,
                final(self).nodes@[i as int].edges@[k as int],
            ),
            final(self).nodes@[i as int].copy_number == old(self).nodes@[i as int].copy_number,
            final(self).nodes@[i as int].occ == old(self).nodes@[i as int].occ,
            final(self).nodes@[i as int].unit == old(self).nodes@[i as int].unit,
            final(self).nodes@[i as int].cluster == old(self).nodes@[i as int].cluster,
            final(self).nodes@[i as int].deleted == old(self).nodes@[i as int].deleted,
            ({
                let olde = old(self).nodes@[i as int].edges@[k as int];
                let newe = final(self).nodes@[i as int].edges@[k as int];
                &&& newe.from == olde.from
                &&& newe.from_position == olde.from_position
                &&& newe.to == olde.to
                &&& newe.to_position == olde.to_position
                &&& (cp_of(olde.copy_number) >= 1 ==> cp_of(newe.copy_number) == cp_of(
                    olde.copy_number,
                ) - 1)
                &&& (cp_of(olde.copy_number) == 0 ==> newe == olde)
            }),
    {
        let e = self.nodes[i].edges[k];
        let mut share: usize = 0;
        match e.copy_number {
            Some(c) => if c >= 1 {
                share = e.occ / c;
                proof {
                    assert(share <= e.occ) by (nonlinear_arith)
                        requires
                            share == e.occ / c,
                            c >= 1,
                    ;
                }
                let mut n = self.nodes.remove(i);
                let mut ed = n.edges.remove(k);
                ed.occ = ed.occ - share;
                ed.copy_number = Some(c - 1);
                n.edges.insert(k, ed);
                self.nodes.insert(i, n);
                proof {
                    assert(self.nodes@[i as int].edges@ =~= old(self).nodes@[i as int].edges@
                        .update(k as int, self.nodes@[i as int].edges@[k as int]));
                }
            },
            None => {},
        }
        proof {
            assert(self.nodes@ =~= old(self).nodes@.update(i as int, self.nodes@[i as int]));
            assert(self.nodes@[i as int].edges@ =~= old(self).nodes@[i as int].edges@.update(
                k as int,
                self.nodes@[i as int].edges@[k as int],
            ));
            assert(self.wf()) by {
                assert forall|i2: int, k2: int|
                    0 <= i2 < self.nodes@.len() && 0 <= k2 < self.nodes@[i2].edges@.len() implies (
                #[trigger] self.nodes@[i2].edges@[k2]).from == i2 && self.nodes@[i2].edges@[k2].to
                    < self.nodes@.len() by {
                    if i2 == i as int {
                        if k2 == k as int {
                            assert(self.nodes@[i2].edges@[k2].from == old(
                                self,
                            ).nodes@[i2].edges@[k2].from);
                        } else {
                            assert(self.nodes@[i2].edges@[k2] == old(self).nodes@[i2].edges@[k2]);
                        }
                    } else {
                        assert(self.nodes@[i2].edges@ == old(self).nodes@[i2].edges@);
                    }
                    assert(old(self).nodes@[i2].edges@[k2].from == i2);
                }
            }
        }
        share
    }

    /// Record a new edge at both of its endpoints.
    pub fn add_edge(
        &mut self,
        from: usize,
        from_position: Position,
        to: usize,
        to_position: Position,
        occ: usize,
        copy_number: Option<usize>,
    )
        requires
            old(self).wf(),
            from < old(self).nodes@.len(),
            to < old(self).nodes@.len(),
        ensures
            final(self).wf(),
            final(self).nodes@.len() == old(self).nodes@.len(),
            node_cp_sum(final(self).nodes@) == node_cp_sum(old(self).nodes@),
            edge_cp_sum(final(self).nodes@) == edge_cp_sum(old(self).nodes@) + 2 * cp_of(
                copy_number,
            ),
            forall|i: int|
                0 <= i < old(self).nodes@.len() ==> (#[trigger] final(self).nodes@[i]).copy_number
                    == old(self).nodes@[i].copy_number && final(self).nodes@[i].deleted == old(self).nodes@[i].deleted && final(self).nodes@[i].unit == old(self).nodes@[i].unit
                    && final(self).nodes@[i].cluster == old(self).nodes@[i].cluster,
            forall|i: int|
                0 <= i < old(self).nodes@.len() && i != from && i != to ==> (#[trigger] final(self).nodes@[i]).edges == old(self).nodes@[i].edges,
            final(self).nodes@[from as int].edges@.len() > 0,
            final(self).nodes@[to as int].edges@.len() > 0,
            // the forward record sits at the end of the from-node's list
            from != to ==> final(self).nodes@[from as int].edges@ == old(self).nodes@[from as int].edges@.push(
                (DitchEdge { from, from_position, to, to_position, occ, copy_number }),
            ),
            from != to ==> final(self).nodes@[to as int].edges@ == old(self).nodes@[to as int].edges@.push(
                (DitchEdge {
                    from: to,
                    from_position: to_position,
                    to: from,
                    to_position: from_position,
                    occ,
                    copy_number,
                }),
            ),
            from == to ==> final(self).nodes@[from as int].edges@ == old(self).nodes@[from as int].edges@.push(
                (DitchEdge { from, from_position, to, to_position, occ, copy_number }),
            ).push(
                (DitchEdge {
                    from: to,
                    from_position: to_position,
                    to: from,
                    to_position: from_position,
                    occ,
                    copy_number,
                }),
            ),
    {
        let fwd = DitchEdge { from, from_position, to, to_position, occ, copy_number };
        let bwd = DitchEdge {
            from: to,
            from_position: to_position,
            to: from,
            to_position: from_position,
            occ,
            copy_number,
        };
        let ghost pre = self.nodes@;
        let mut n = self.nodes.remove(from);
        n.edges.push(fwd);
        self.nodes.insert(from, n);
        proof {
            assert(self.nodes@ =~= pre.update(from as int, self.nodes@[from as int]));
            lemma_edge_cp_sum_update(pre, from as int, self.nodes@[from as int]);
            lemma_edge_cp_sum_node_push(pre[from as int].edges@, fwd);
            lemma_node_cp_sum_update(pre, from as int, self.nodes@[from as int]);
        }
        let ghost mid = self.nodes@;
        let mut n2 = self.nodes.remove(to);
        n2.edges.push(bwd);
        self.nodes.insert(to, n2);
        proof {
            assert(self.nodes@ =~= mid.update(to as int, self.nodes@[to as int]));
            lemma_edge_cp_sum_update(mid, to as int, self.nodes@[to as int]);
            lemma_edge_cp_sum_node_push(mid[to as int].edges@, bwd);
            lemma_node_cp_sum_update(mid, to as int, self.nodes@[to as int]);
            if from == to {
                assert(self.nodes@[from as int].edges@ =~= pre[from as int].edges@.push(fwd).push(
                    bwd,
                ));
            }
        }
    }

    /// Mark a node deleted.
    pub fn delete_node(&mut self, i: usize)
        requires
            old(self).wf(),
            i < old(self).nodes@.len(),
        ensures
            final(self).wf(),
            final(self).nodes@.len() == old(self).nodes@.len(),
            final(self).nodes@ == old(self).nodes@.update(i as int, final(self).nodes@[i as int]),
            final(self).nodes@[i as int].deleted,
            final(self).nodes@[i as int].edges == old(self).nodes@[i as int].edges,
            final(self).nodes@[i as int].copy_number == old(self).nodes@[i as int].copy_number,
            node_cp_sum(final(self).nodes@) == node_cp_sum(old(self).nodes@),
            edge_cp_sum(final(self).nodes@) == edge_cp_sum(old(self).nodes@),
    {
        let mut n = self.nodes.remove(i);
        n.deleted = true;
        self.nodes.insert(i, n);
        proof {
            assert(self.nodes@ =~= old(self).nodes@.update(i as int, self.nodes@[i as int]));
            lemma_node_cp_sum_update(old(self).nodes@, i as int, self.nodes@[i as int]);
            lemma_edge_cp_sum_update(old(self).nodes@, i as int, self.nodes@[i as int]);
        }
    }

    /// Remove the edge record `k` of node `i`; only a record whose copy
    /// number is spent may be removed, so no stored total changes.
    pub fn remove_edge_at(&mut self, i: usize, k: usize)
        requires
            old(self).wf(),
            i < old(self).nodes@.len(),
            k < old(self).nodes@[i as int].edges@.len(),
            cp_of(old(self).nodes@[i as int].edges@[k as int].copy_number) == 0,
        ensures
            final(self).wf(),
            final(self).nodes@.len() == old(self).nodes@.len(),
            final(self).nodes@ == old(self).nodes@.update(i as int, final(self).nodes@[i as int]),
            final(self).nodes@[i as int].edges@ == old(self).nodes@[i as int].edges@.remove(
                k as int,
            ),
            final(self).nodes@[i as int].copy_number == old(self).nodes@[i as int].copy_number,
            final(self).nodes@[i as int].deleted == old(self).nodes@[i as int].deleted,
            node_cp_sum(final(self).nodes@) == node_cp_sum(old(self).nodes@),
            edge_cp_sum(final(self).nodes@) == edge_cp_sum(old(self).nodes@),
    {
        let mut n = self.nodes.remove(i);
        let ghost old_edges = n.edges@;
        n.edges.remove(k);
        self.nodes.insert(i, n);
        proof {
            assert(self.nodes@ =~= old(self).nodes@.update(i as int, self.nodes@[i as int]));
            lemma_node_cp_sum_update(old(self).nodes@, i as int, self.nodes@[i as int]);
            lemma_edge_cp_sum_update(old(self).nodes@, i as int, self.nodes@[i as int]);
            lemma_edge_cp_sum_node_remove(old_edges, k as int);
        }
    }
}

pub proof fn lemma_edge_cp_sum_node_remove(edges: Seq<DitchEdge>, k: int)
    requires
        0 <= k < edges.len(),
    ensures
        edge_cp_sum_node(edges.remove(k)) == edge_cp_sum_node(edges) - cp_of(
            edges[k].copy_number,
        ),
    decreases edges.len(),
{
    if k == edges.len() - 1 {
        assert(edges.remove(k) =~= edges.drop_last());
    } else {
        lemma_edge_cp_sum_node_remove(edges.drop_last(), k);
        assert(edges.remove(k).drop_last() =~= edges.drop_last().remove(k));
        assert(edges.remove(k).last() == edges.last());
    }
}

} // verus!
