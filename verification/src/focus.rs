//! Repeat resolution: applying an accepted focus to the graph.
//!
//! A focus names a path from a unique node into a repeat and out to a unique
//! terminus. Applying it peels one copy off the path: every interior node is
//! duplicated into a fresh copy-one node, the traversed edges lose one copy
//! each and fresh copy-one edges are strung along the duplicates, and spent
//! edges and emptied nodes are pruned.

use crate::graph::{
    count_pos, cp_of, edge_cp_sum, edge_cp_sum_node, lemma_edge_cp_sum_node_push, lemma_edge_cp_sum_node_update,
    lemma_edge_cp_sum_push, lemma_edge_cp_sum_update, lemma_node_cp_sum_push,
    lemma_node_cp_sum_update, node_cp_sum, DitchEdge, DitchGraph, Position,
};
use vstd::prelude::*;

verus! {

/// A candidate rewrite: origin and terminus ports, the distance, the
/// per-depth observation counts, and the traversed path. The ordering score
/// of a focus lives with its scorer.
#[derive(Debug, Clone)]
pub struct Focus {
    pub from: usize,
    pub from_position: Position,
    pub to: usize,
    pub to_position: Position,
    pub dist: usize,
    pub counts: Vec<usize>,
    pub path: Vec<(usize, Position)>,
}

/// One validated step of a focus path: the edge to traverse, found at both
/// of its endpoints.
pub struct Step {
    pub src: usize,
    pub spos: Position,
    pub dst: usize,
    pub dpos: Position,
    pub kf: usize,
    pub km: usize,
}

/// How many of the interior path entries in `[from, to)` name node `v`.
pub open spec fn count_occ(path: Seq<(usize, Position)>, from: int, to: int, v: int) -> int
    decreases to - from,
{
    if from >= to {
        0
    } else {
        count_occ(path, from + 1, to, v) + if path[from].0 == v {
            1int
        } else {
            0int
        }
    }
}

proof fn lemma_count_occ_nonneg(path: Seq<(usize, Position)>, from: int, to: int, v: int)
    ensures
        count_occ(path, from, to, v) >= 0,
    decreases to - from,
{
    if from < to {
        lemma_count_occ_nonneg(path, from + 1, to, v);
    }
}

/// Total copy number over the pre-existing edge records: for every node of
/// the old arena, the records it already had. Appended records and new
/// nodes are left out.
pub open spec fn edge_prefix_sum(new: Seq<crate::graph::DitchNode>, old: Seq<crate::graph::DitchNode>, n: int) -> int
    decreases n,
{
    if n <= 0 {
        0
    } else {
        edge_prefix_sum(new, old, n - 1) + if old[n - 1].edges@.len() <= new[n - 1].edges@.len() {
            edge_cp_sum_node(new[n - 1].edges@.subrange(0, old[n - 1].edges@.len() as int))
        } else {
            edge_cp_sum_node(new[n - 1].edges@)
        }
    }
}

proof fn lemma_edge_prefix_base(old: Seq<crate::graph::DitchNode>, n: int)
    requires
        0 <= n <= old.len(),
    ensures
        edge_prefix_sum(old, old, n) == edge_cp_sum(old.subrange(0, n)),
    decreases n,
{
    if n > 0 {
        lemma_edge_prefix_base(old, n - 1);
        assert(old.subrange(0, n).drop_last() =~= old.subrange(0, n - 1));
        assert(old[n - 1].edges@.subrange(0, old[n - 1].edges@.len() as int) =~= old[n
            - 1].edges@);
    }
}

proof fn lemma_edge_prefix_update(
    new: Seq<crate::graph::DitchNode>,
    old: Seq<crate::graph::DitchNode>,
    n: int,
    i: int,
    v: crate::graph::DitchNode,
)
    requires
        0 <= i < new.len(),
        n <= new.len(),
        n <= old.len(),
        i < n ==> old[i].edges@.len() <= new[i].edges@.len(),
        i < n ==> old[i].edges@.len() <= v.edges@.len(),
        i < n ==> v.edges@.subrange(0, old[i].edges@.len() as int) == new[i].edges@.subrange(
            0,
            old[i].edges@.len() as int,
        ),
    ensures
        edge_prefix_sum(new.update(i, v), old, n) == edge_prefix_sum(new, old, n),
    decreases n,
{
    if n > 0 {
        if i == n - 1 {
            lemma_edge_prefix_update(new, old, n - 1, i, v);
        } else {
            lemma_edge_prefix_update(new, old, n - 1, i, v);
        }
    }
}

proof fn lemma_edge_prefix_update_dec(
    new: Seq<crate::graph::DitchNode>,
    old: Seq<crate::graph::DitchNode>,
    n: int,
    i: int,
    v: crate::graph::DitchNode,
    k: int,
)
    requires
        0 <= i < n,
        n <= new.len(),
        n <= old.len(),
        old[i].edges@.len() <= new[i].edges@.len(),
        old[i].edges@.len() <= v.edges@.len(),
        0 <= k < old[i].edges@.len(),
        v.edges@.subrange(0, old[i].edges@.len() as int) == new[i].edges@.subrange(
            0,
            old[i].edges@.len() as int,
        ).update(k, v.edges@[k]),
    ensures
        edge_prefix_sum(new.update(i, v), old, n) == edge_prefix_sum(new, old, n) - cp_of(
            new[i].edges@[k].copy_number,
        ) + cp_of(v.edges@[k].copy_number),
    decreases n,
{
    if i == n - 1 {
        lemma_edge_prefix_update(new, old, n - 1, i, v);
        lemma_edge_cp_sum_node_update(
            new[i].edges@.subrange(0, old[i].edges@.len() as int),
            k,
            v.edges@[k],
        );
    } else {
        lemma_edge_prefix_update_dec(new, old, n - 1, i, v, k);
    }
}

proof fn lemma_edge_prefix_push(
    new: Seq<crate::graph::DitchNode>,
    old: Seq<crate::graph::DitchNode>,
    n: int,
    v: crate::graph::DitchNode,
)
    requires
        n <= new.len(),
        n <= old.len(),
    ensures
        edge_prefix_sum(new.push(v), old, n) == edge_prefix_sum(new, old, n),
    decreases n,
{
    if n > 0 {
        lemma_edge_prefix_push(new, old, n - 1, v);
    }
}

/// Any steps that satisfy `step_ok` throughout name the same slots as a
/// witness of `steps_witness`: the chain of endpoints is determined by the
/// focus, and the witness's records are the unique matches of their keys.
proof fn lemma_witness_step_agree(
    g: &DitchGraph,
    focus: &Focus,
    steps: Seq<Step>,
    w: Seq<Step>,
    j: int,
)
    requires
        steps_witness(g, focus, w),
        0 <= j < steps.len(),
        steps.len() == focus.path@.len(),
        step_ok(g, focus, steps, j),
    ensures
        steps[j].src == w[j].src,
        steps[j].spos == w[j].spos,
        steps[j].dst == w[j].dst,
        steps[j].dpos == w[j].dpos,
        steps[j].kf == w[j].kf,
        steps[j].km == w[j].km,
{
    assert(step_ok(g, focus, w, j));
    assert(unique_match(
        g.nodes@[w[j].src as int].edges@,
        w[j].spos,
        w[j].dst,
        w[j].dpos,
        w[j].kf as int,
    ) && unique_match(
        g.nodes@[w[j].dst as int].edges@,
        w[j].dpos,
        w[j].src,
        w[j].spos,
        w[j].km as int,
    ));
    assert(g.nodes@[steps[j].src as int].edges@[steps[j].kf as int].from_position
        == steps[j].spos);
    assert(g.nodes@[steps[j].dst as int].edges@[steps[j].km as int].from_position
        == steps[j].dpos);
    assert(steps[j].kf as int == w[j].kf as int);
    assert(steps[j].km as int == w[j].km as int);
}

impl DitchGraph {
    /// True when a second record beside `k` joins `(i, pos)` to `(to, tpos)`
    /// in node `i`'s list - the list is then not in the canonical merged
    /// form for that key.
    fn has_other_match(&self, i: usize, pos: Position, to: usize, tpos: Position, k: usize) -> (r:
        bool)
        requires
            i < self.nodes@.len(),
        ensures
            r ==> exists|t: int|
                0 <= t < self.nodes@[i as int].edges@.len() && t != k as int && (
                #[trigger] self.nodes@[i as int].edges@[t]).from_position == pos
                    && self.nodes@[i as int].edges@[t].to == to
                    && self.nodes@[i as int].edges@[t].to_position == tpos,
            !r ==> unique_match(self.nodes@[i as int].edges@, pos, to, tpos, k as int),
    {
        let edges = &self.nodes[i].edges;
        let mut j: usize = 0;
        while j < edges.len()
            invariant
                j <= edges@.len(),
                i < self.nodes@.len(),
                edges@ == self.nodes@[i as int].edges@,
                forall|t: int|
                    0 <= t < j && (#[trigger] edges@[t]).from_position == pos && edges@[t].to == to
                        && edges@[t].to_position == tpos ==> t == k as int,
            decreases edges@.len() - j,
        {
            if j != k && edges[j].from_position == pos && edges[j].to == to && edges[j].to_position
                == tpos {
                return true;
            }
            j += 1;
        }
        false
    }

    /// Validate a focus path on the current graph: every step's edge must
    /// exist uniquely at both endpoints with a copy to give, the traversed
    /// records must be pairwise distinct, and every interior node must have
    /// as many copies as the path uses it. Nothing is changed; the steps
    /// come back exactly when some witness validates the path.
    #[verifier::rlimit(100)]
    fn validate_path(&self, focus: &Focus) -> (r: Option<Vec<Step>>)
        requires
            self.wf(),
        ensures
            match r {
                Some(steps) => {
                    &&& steps_witness(self, focus, steps@)
                    &&& path_validatable(self, focus)
                },
                None => !path_validatable(self, focus),
            },
    {
        let n = focus.path.len();
        if n == 0 || focus.from >= self.nodes.len() {
            proof {
                if path_validatable(self, focus) {
                    let w = choose|s: Seq<Step>| steps_witness(self, focus, s);
                    assert(steps_witness(self, focus, w));
                    assert(false);
                }
            }
            return None;
        }
        let mut steps: Vec<Step> = Vec::new();
        let mut src = focus.from;
        let mut spos = focus.from_position;
        let mut j: usize = 0;
        while j < n
            invariant
                j <= n,
                n == focus.path@.len(),
                self.wf(),
                focus.from < self.nodes@.len(),
                steps@.len() == j,
                src < self.nodes@.len(),
                j == 0 ==> src == focus.from && spos == focus.from_position,
                j > 0 ==> src == focus.path@[j - 1].0 && spos == focus.path@[j
                    - 1].1.spec_flip(),
                forall|j2: int| 0 <= j2 < j ==> step_ok(self, focus, steps@, j2),
                forall|j2: int|
                    0 <= j2 < j ==> unique_match(
                        self.nodes@[(#[trigger] steps@[j2]).src as int].edges@,
                        steps@[j2].spos,
                        steps@[j2].dst,
                        steps@[j2].dpos,
                        steps@[j2].kf as int,
                    ) && unique_match(
                        self.nodes@[steps@[j2].dst as int].edges@,
                        steps@[j2].dpos,
                        steps@[j2].src,
                        steps@[j2].spos,
                        steps@[j2].km as int,
                    ),
            decreases n - j,
        {
            let (dst, dpos) = focus.path[j];
            if dst >= self.nodes.len() {
                proof {
                    if path_validatable(self, focus) {
                        let w = choose|s: Seq<Step>| steps_witness(self, focus, s);
                        assert(steps_witness(self, focus, w));
                        assert(step_ok(self, focus, w, j as int));
                        assert(w[j as int].dst == dst && w[j as int].dst < self.nodes@.len());
                        assert(false);
                    }
                }
                return None;
            }
            let kf = match self.find_edge_idx(src, spos, dst, dpos) {
                Some(k) => k,
                None => {
                    proof {
                        if path_validatable(self, focus) {
                            let w = choose|s: Seq<Step>| steps_witness(self, focus, s);
                            assert(steps_witness(self, focus, w));
                            assert(step_ok(self, focus, w, j as int));
                            assert(w[j as int].src == src && w[j as int].spos == spos);
                            assert(self.nodes@[src as int].edges@[w[j as int].kf as int].from_position
                                == spos);
                            assert(false);
                        }
                    }
                    return None;
                },
            };
            let km = match self.find_edge_idx(dst, dpos, src, spos) {
                Some(k) => k,
                None => {
                    proof {
                        if path_validatable(self, focus) {
                            let w = choose|s: Seq<Step>| steps_witness(self, focus, s);
                            assert(steps_witness(self, focus, w));
                            assert(step_ok(self, focus, w, j as int));
                            assert(w[j as int].src == src && w[j as int].spos == spos);
                            assert(self.nodes@[dst as int].edges@[w[j as int].km as int].from_position
                                == dpos);
                            assert(false);
                        }
                    }
                    return None;
                },
            };
            if self.has_other_match(src, spos, dst, dpos, kf) {
                proof {
                    if path_validatable(self, focus) {
                        let w = choose|s: Seq<Step>| steps_witness(self, focus, s);
                        assert(steps_witness(self, focus, w));
                        assert(step_ok(self, focus, w, j as int));
                        assert(w[j as int].src == src && w[j as int].spos == spos);
                        let t = choose|t: int|
                            0 <= t < self.nodes@[src as int].edges@.len() && t != kf as int && (
                            #[trigger] self.nodes@[src as int].edges@[t]).from_position == spos
                                && self.nodes@[src as int].edges@[t].to == dst
                                && self.nodes@[src as int].edges@[t].to_position == dpos;
                        assert(self.nodes@[src as int].edges@[t].from_position == spos);
                        assert(self.nodes@[src as int].edges@[kf as int].from_position == spos);
                        assert(t == w[j as int].kf as int);
                        assert(kf as int == w[j as int].kf as int);
                        assert(false);
                    }
                }
                return None;
            }
            if self.has_other_match(dst, dpos, src, spos, km) {
                proof {
                    if path_validatable(self, focus) {
                        let w = choose|s: Seq<Step>| steps_witness(self, focus, s);
                        assert(steps_witness(self, focus, w));
                        assert(step_ok(self, focus, w, j as int));
                        assert(w[j as int].src == src && w[j as int].spos == spos);
                        let t = choose|t: int|
                            0 <= t < self.nodes@[dst as int].edges@.len() && t != km as int && (
                            #[trigger] self.nodes@[dst as int].edges@[t]).from_position == dpos
                                && self.nodes@[dst as int].edges@[t].to == src
                                && self.nodes@[dst as int].edges@[t].to_position == spos;
                        assert(self.nodes@[dst as int].edges@[t].from_position == dpos);
                        assert(self.nodes@[dst as int].edges@[km as int].from_position == dpos);
                        assert(t == w[j as int].km as int);
                        assert(km as int == w[j as int].km as int);
                        assert(false);
                    }
                }
                return None;
            }
            if self.edge_at(src, kf).copy_number.is_none() || self.edge_at(
                src,
                kf,
            ).copy_number.unwrap() < 1 {
                proof {
                    if path_validatable(self, focus) {
                        let w = choose|s: Seq<Step>| steps_witness(self, focus, s);
                        assert(steps_witness(self, focus, w));
                        assert(step_ok(self, focus, w, j as int));
                        assert(w[j as int].src == src && w[j as int].spos == spos);
                        assert(self.nodes@[src as int].edges@[kf as int].from_position == spos);
                        assert(kf as int == w[j as int].kf as int);
                        assert(cp_of(self.nodes@[src as int].edges@[kf as int].copy_number) >= 1);
                        assert(false);
                    }
                }
                return None;
            }
            if self.edge_at(dst, km).copy_number.is_none() || self.edge_at(
                dst,
                km,
            ).copy_number.unwrap() < 1 {
                proof {
                    if path_validatable(self, focus) {
                        let w = choose|s: Seq<Step>| steps_witness(self, focus, s);
                        assert(steps_witness(self, focus, w));
                        assert(step_ok(self, focus, w, j as int));
                        assert(w[j as int].src == src && w[j as int].spos == spos);
                        assert(self.nodes@[dst as int].edges@[km as int].from_position == dpos);
                        assert(km as int == w[j as int].km as int);
                        assert(cp_of(self.nodes@[dst as int].edges@[km as int].copy_number) >= 1);
                        assert(false);
                    }
                }
                return None;
            }
            if src == dst && kf == km {
                proof {
                    if path_validatable(self, focus) {
                        let w = choose|s: Seq<Step>| steps_witness(self, focus, s);
                        assert(steps_witness(self, focus, w));
                        assert(step_ok(self, focus, w, j as int));
                        assert(w[j as int].src == src && w[j as int].spos == spos);
                        assert(self.nodes@[src as int].edges@[kf as int].from_position == spos);
                        assert(kf as int == w[j as int].kf as int);
                        assert(self.nodes@[dst as int].edges@[km as int].from_position == dpos);
                        assert(km as int == w[j as int].km as int);
                        assert(!(w[j as int].src == w[j as int].dst && w[j as int].kf == w[j
                            as int].km));
                        assert(false);
                    }
                }
                return None;
            }
            let ghost pre_steps = steps@;
            steps.push(Step { src, spos, dst, dpos, kf, km });
            proof {
                assert(self.nodes@[src as int].edges@[kf as int].from == src);
                assert(self.nodes@[dst as int].edges@[km as int].from == dst);
                assert(step_ok(self, focus, steps@, j as int));
                assert forall|j2: int| 0 <= j2 < j implies step_ok(self, focus, steps@, j2) by {
                    assert(steps@[j2] == pre_steps[j2]);
                    assert(step_ok(self, focus, pre_steps, j2));
                }
                assert forall|j2: int|
                    0 <= j2 < j + 1 implies unique_match(
                    self.nodes@[(#[trigger] steps@[j2]).src as int].edges@,
                    steps@[j2].spos,
                    steps@[j2].dst,
                    steps@[j2].dpos,
                    steps@[j2].kf as int,
                ) && unique_match(
                    self.nodes@[steps@[j2].dst as int].edges@,
                    steps@[j2].dpos,
                    steps@[j2].src,
                    steps@[j2].spos,
                    steps@[j2].km as int,
                ) by {
                    if j2 < j {
                        assert(steps@[j2] == pre_steps[j2]);
                    } else {
                        assert(steps@[j2] == (Step { src, spos, dst, dpos, kf, km }));
                    }
                }
            }
            src = dst;
            spos = dpos.flip();
            j += 1;
        }
        // the traversed records must be pairwise distinct
        let mut j1: usize = 0;
        while j1 < n
            invariant
                n == steps@.len(),
                n == focus.path@.len(),
                j1 <= n,
                forall|j: int| 0 <= j < n ==> step_ok(self, focus, steps@, j),
                forall|a: int, b: int|
                    0 <= a < j1 && 0 <= b < steps@.len() && a != b ==> slots_disjoint(
                        steps@[a],
                        steps@[b],
                    ),
            decreases n - j1,
        {
            let mut j2: usize = 0;
            while j2 < n
                invariant
                    n == steps@.len(),
                    n == focus.path@.len(),
                    j1 < n,
                    j2 <= n,
                    forall|j: int| 0 <= j < n ==> step_ok(self, focus, steps@, j),
                    forall|a: int, b: int|
                        0 <= a < j1 && 0 <= b < steps@.len() && a != b ==> slots_disjoint(
                            steps@[a],
                            steps@[b],
                        ),
                    forall|b: int|
                        0 <= b < j2 && j1 != b ==> slots_disjoint(steps@[j1 as int], steps@[b]),
                decreases n - j2,
            {
                if j2 != j1 {
                    let a = &steps[j1];
                    let b = &steps[j2];
                    let clash = (a.src == b.src && a.kf == b.kf) || (a.src == b.dst && a.kf
                        == b.km) || (a.dst == b.src && a.km == b.kf) || (a.dst == b.dst && a.km
                        == b.km);
                    if clash {
                        proof {
                            if path_validatable(self, focus) {
                                let w = choose|s: Seq<Step>| steps_witness(self, focus, s);
                                assert(steps_witness(self, focus, w));
                                lemma_witness_step_agree(self, focus, steps@, w, j1 as int);
                                lemma_witness_step_agree(self, focus, steps@, w, j2 as int);
                                assert(slots_disjoint(w[j1 as int], w[j2 as int]));
                                assert(false);
                            }
                        }
                        return None;
                    }
                }
                j2 += 1;
            }
            j1 += 1;
        }
        // every interior node must have as many copies as the path uses it
        proof {
            assert forall|j2: int| 0 <= j2 < n implies (#[trigger] focus.path@[j2]).0
                < self.nodes@.len() by {
                assert(step_ok(self, focus, steps@, j2));
            }
        }
        let mut v: usize = 0;
        let interior_end = n - 1;
        while v < interior_end
            invariant
                n == focus.path@.len(),
                interior_end == n - 1,
                v <= interior_end,
                self.wf(),
                forall|u: int|
                    0 <= u < self.nodes@.len() ==> count_occ(
                        focus.path@,
                        0,
                        v as int,
                        u,
                    ) <= cp_of((#[trigger] self.nodes@[u]).copy_number),
                forall|j2: int| 0 <= j2 < n ==> (#[trigger] focus.path@[j2]).0
                    < self.nodes@.len(),
            decreases interior_end - v,
        {
            // count how often this interior entry's node occurs up to here,
            // and check the node still has that many copies to give
            let node = focus.path[v].0;
            let mut cnt: usize = 0;
            let mut t: usize = 0;
            while t < interior_end
                invariant
                    t <= interior_end <= focus.path@.len(),
                    node < self.nodes@.len(),
                    cnt == count_occ(focus.path@, 0, t as int, node as int),
                    cnt <= t,
                decreases interior_end - t,
            {
                proof {
                    lemma_count_occ_split(focus.path@, 0, t as int, t + 1 as int, node as int);
                    assert(count_occ(focus.path@, t + 1 as int, t + 1 as int, node as int) == 0);
                }
                if focus.path[t].0 == node {
                    cnt += 1;
                }
                t += 1;
            }
            let cp = self.node_copy_number(node);
            let enough = match cp {
                Some(c) => c >= cnt,
                None => cnt == 0,
            };
            if !enough {
                proof {
                    if path_validatable(self, focus) {
                        let w = choose|s: Seq<Step>| steps_witness(self, focus, s);
                        assert(steps_witness(self, focus, w));
                        assert(cp_of(self.nodes@[node as int].copy_number) >= count_occ(
                            focus.path@,
                            0,
                            focus.path@.len() - 1,
                            node as int,
                        ));
                        assert(false);
                    }
                }
                return None;
            }
            proof {
                assert forall|u: int| 0 <= u < self.nodes@.len() implies count_occ(
                    focus.path@,
                    0,
                    v + 1 as int,
                    u,
                ) <= cp_of((#[trigger] self.nodes@[u]).copy_number) by {
                    lemma_count_occ_split(focus.path@, 0, v as int, v + 1 as int, u);
                    assert(count_occ(focus.path@, v + 1 as int, v + 1 as int, u) == 0);
                    if u == node as int {
                        lemma_count_occ_prefix_le(
                            focus.path@,
                            0,
                            v + 1 as int,
                            interior_end as int,
                            u,
                        );
                    }
                }
            }
            v += 1;
        }
        proof {
            assert forall|u: int| 0 <= u < self.nodes@.len() implies cp_of(
                (#[trigger] self.nodes@[u]).copy_number,
            ) >= count_occ(focus.path@, 0, focus.path@.len() - 1, u) by {
                assert(count_occ(focus.path@, 0, interior_end as int, u) <= cp_of(
                    self.nodes@[u].copy_number,
                ));
            }
            assert(steps_witness(self, focus, steps@));
            assert(path_validatable(self, focus));
        }
        Some(steps)
    }
}

/// The step at `j` matches the focus path and names live records at both
/// endpoints of its edge.
pub open spec fn step_ok(g: &DitchGraph, focus: &Focus, steps: Seq<Step>, j: int) -> bool {
    let s = steps[j];
    &&& s.src < g.nodes@.len()
    &&& s.dst < g.nodes@.len()
    &&& s.dst == focus.path@[j].0
    &&& s.dpos == focus.path@[j].1
    &&& (j == 0 ==> s.src == focus.from && s.spos == focus.from_position)
    &&& (j > 0 ==> s.src == focus.path@[j - 1].0 && s.spos == focus.path@[j - 1].1.spec_flip())
    &&& s.kf < g.nodes@[s.src as int].edges@.len()
    &&& s.km < g.nodes@[s.dst as int].edges@.len()
    &&& edge_matches(g.nodes@[s.src as int].edges@[s.kf as int], s.src, s.spos, s.dst, s.dpos)
    &&& edge_matches(g.nodes@[s.dst as int].edges@[s.km as int], s.dst, s.dpos, s.src, s.spos)
    &&& cp_of(g.nodes@[s.src as int].edges@[s.kf as int].copy_number) >= 1
    &&& cp_of(g.nodes@[s.dst as int].edges@[s.km as int].copy_number) >= 1
    &&& !(s.src == s.dst && s.kf == s.km)
}

pub open spec fn edge_matches(
    e: DitchEdge,
    from: usize,
    fpos: Position,
    to: usize,
    tpos: Position,
) -> bool {
    e.from == from && e.from_position == fpos && e.to == to && e.to_position == tpos
}

/// Two steps traverse four pairwise distinct edge records.
pub open spec fn slots_disjoint(a: Step, b: Step) -> bool {
    &&& !(a.src == b.src && a.kf == b.kf)
    &&& !(a.src == b.dst && a.kf == b.km)
    &&& !(a.dst == b.src && a.km == b.kf)
    &&& !(a.dst == b.dst && a.km == b.km)
}

proof fn lemma_count_occ_split(path: Seq<(usize, Position)>, from: int, mid: int, to: int, v: int)
    requires
        from <= mid <= to,
    ensures
        count_occ(path, from, to, v) == count_occ(path, from, mid, v) + count_occ(
            path,
            mid,
            to,
            v,
        ),
    decreases mid - from,
{
    if from < mid {
        lemma_count_occ_split(path, from + 1, mid, to, v);
    }
}

proof fn lemma_count_occ_prefix_le(
    path: Seq<(usize, Position)>,
    from: int,
    mid: int,
    to: int,
    v: int,
)
    requires
        from <= mid <= to,
    ensures
        count_occ(path, from, mid, v) <= count_occ(path, from, to, v),
{
    lemma_count_occ_split(path, from, mid, to, v);
    lemma_count_occ_nonneg(path, mid, to, v);
}

/// Where two arenas agree on every pre-existing edge record, the
/// pre-existing totals agree.
proof fn lemma_edge_prefix_agree(
    a: Seq<crate::graph::DitchNode>,
    b: Seq<crate::graph::DitchNode>,
    old: Seq<crate::graph::DitchNode>,
    n: int,
)
    requires
        n <= a.len(),
        n <= b.len(),
        n <= old.len(),
        forall|v: int|
            0 <= v < n ==> old[v].edges@.len() <= (#[trigger] a[v]).edges@.len() && old[v].edges@.len()
                <= b[v].edges@.len() && a[v].edges@.subrange(0, old[v].edges@.len() as int)
                == b[v].edges@.subrange(0, old[v].edges@.len() as int),
    ensures
        edge_prefix_sum(a, old, n) == edge_prefix_sum(b, old, n),
    decreases n,
{
    if n > 0 {
        lemma_edge_prefix_agree(a, b, old, n - 1);
    }
}

/// Pruning removes spent records only: every live edge record survives in
/// place, and every surviving record already stood in the old arena.
pub open spec fn spent_only_pruning(
    new: Seq<crate::graph::DitchNode>,
    old: Seq<crate::graph::DitchNode>,
) -> bool {
    &&& new.len() == old.len()
    &&& (forall|v: int, k: int|
        0 <= v < old.len() && 0 <= k < old[v].edges@.len() && cp_of(
            (#[trigger] old[v].edges@[k]).copy_number,
        ) > 0 ==> new[v].edges@.contains(old[v].edges@[k]))
    &&& (forall|v: int, k: int|
        0 <= v < new.len() && 0 <= k < new[v].edges@.len() ==> old[v].edges@.contains(
            #[trigger] new[v].edges@[k],
        ))
}

proof fn lemma_spent_only_refl(s: Seq<crate::graph::DitchNode>)
    ensures
        spent_only_pruning(s, s),
{
}

proof fn lemma_spent_only_trans(
    a: Seq<crate::graph::DitchNode>,
    b: Seq<crate::graph::DitchNode>,
    c: Seq<crate::graph::DitchNode>,
)
    requires
        spent_only_pruning(b, a),
        spent_only_pruning(c, b),
    ensures
        spent_only_pruning(c, a),
{
    assert forall|v: int, k: int|
        0 <= v < a.len() && 0 <= k < a[v].edges@.len() && cp_of(
            (#[trigger] a[v].edges@[k]).copy_number,
        ) > 0 implies c[v].edges@.contains(a[v].edges@[k]) by {
        let e = a[v].edges@[k];
        assert(b[v].edges@.contains(e));
        let kb = choose|kb: int| 0 <= kb < b[v].edges@.len() && b[v].edges@[kb] == e;
        assert(cp_of(b[v].edges@[kb].copy_number) > 0);
        assert(c[v].edges@.contains(b[v].edges@[kb]));
    }
    assert forall|v: int, k: int|
        0 <= v < c.len() && 0 <= k < c[v].edges@.len() implies a[v].edges@.contains(
        #[trigger] c[v].edges@[k],
    ) by {
        let e = c[v].edges@[k];
        assert(b[v].edges@.contains(e));
        let kb = choose|kb: int| 0 <= kb < b[v].edges@.len() && b[v].edges@[kb] == e;
        assert(a[v].edges@.contains(b[v].edges@[kb]));
    }
}

proof fn lemma_spent_only_same_edges(
    new: Seq<crate::graph::DitchNode>,
    old: Seq<crate::graph::DitchNode>,
)
    requires
        new.len() == old.len(),
        forall|v: int| 0 <= v < new.len() ==> (#[trigger] new[v]).edges@ == old[v].edges@,
    ensures
        spent_only_pruning(new, old),
{
    assert forall|v: int, k: int|
        0 <= v < old.len() && 0 <= k < old[v].edges@.len() && cp_of(
            (#[trigger] old[v].edges@[k]).copy_number,
        ) > 0 implies new[v].edges@.contains(old[v].edges@[k]) by {
        assert(new[v].edges@[k] == old[v].edges@[k]);
    }
    assert forall|v: int, k: int|
        0 <= v < new.len() && 0 <= k < new[v].edges@.len() implies old[v].edges@.contains(
        #[trigger] new[v].edges@[k],
    ) by {
        assert(old[v].edges@[k] == new[v].edges@[k]);
    }
}

/// Removing one spent record from one node's list is a spent-only pruning
/// of the whole arena.
proof fn lemma_spent_only_remove(
    new: Seq<crate::graph::DitchNode>,
    old: Seq<crate::graph::DitchNode>,
    i: int,
    k: int,
)
    requires
        0 <= i < old.len(),
        0 <= k < old[i].edges@.len(),
        new.len() == old.len(),
        new == old.update(i, new[i]),
        new[i].edges@ == old[i].edges@.remove(k),
        cp_of(old[i].edges@[k].copy_number) == 0,
    ensures
        spent_only_pruning(new, old),
{
    assert forall|v: int, k2: int|
        0 <= v < old.len() && 0 <= k2 < old[v].edges@.len() && cp_of(
            (#[trigger] old[v].edges@[k2]).copy_number,
        ) > 0 implies new[v].edges@.contains(old[v].edges@[k2]) by {
        if v == i {
            assert(k2 != k);
            if k2 < k {
                assert(new[v].edges@[k2] == old[v].edges@[k2]);
            } else {
                assert(new[v].edges@[k2 - 1] == old[v].edges@[k2]);
            }
        } else {
            assert(new[v] == old[v]);
            assert(new[v].edges@[k2] == old[v].edges@[k2]);
        }
    }
    assert forall|v: int, k2: int|
        0 <= v < new.len() && 0 <= k2 < new[v].edges@.len() implies old[v].edges@.contains(
        #[trigger] new[v].edges@[k2],
    ) by {
        if v == i {
            if k2 < k {
                assert(old[v].edges@[k2] == new[v].edges@[k2]);
            } else {
                assert(old[v].edges@[k2 + 1] == new[v].edges@[k2]);
            }
        } else {
            assert(new[v] == old[v]);
            assert(old[v].edges@[k2] == new[v].edges@[k2]);
        }
    }
}

/// All pre-existing edge records the unprocessed steps will traverse are
/// still exactly as they were.
pub open spec fn slots_intact(
    cur: Seq<crate::graph::DitchNode>,
    old: Seq<crate::graph::DitchNode>,
    steps: Seq<Step>,
    i: int,
) -> bool {
    forall|j: int|
        i <= j < steps.len() ==> {
            let s = #[trigger] steps[j];
            &&& cur[s.src as int].edges@[s.kf as int] == old[s.src as int].edges@[s.kf as int]
            &&& cur[s.dst as int].edges@[s.km as int] == old[s.dst as int].edges@[s.km as int]
        }
}

/// The immutable facts validation established about the steps, phrased
/// against the arena as it was then.
pub open spec fn steps_valid(
    old: Seq<crate::graph::DitchNode>,
    focus: &Focus,
    steps: Seq<Step>,
) -> bool {
    forall|j: int|
        0 <= j < steps.len() ==> {
            let s = #[trigger] steps[j];
            &&& s.src < old.len()
            &&& s.dst < old.len()
            &&& s.dst == focus.path@[j].0
            &&& s.kf < old[s.src as int].edges@.len()
            &&& s.km < old[s.dst as int].edges@.len()
            &&& edge_matches(old[s.src as int].edges@[s.kf as int], s.src, s.spos, s.dst, s.dpos)
            &&& edge_matches(old[s.dst as int].edges@[s.km as int], s.dst, s.dpos, s.src, s.spos)
            &&& cp_of(old[s.src as int].edges@[s.kf as int].copy_number) >= 1
            &&& cp_of(old[s.dst as int].edges@[s.km as int].copy_number) >= 1
            &&& !(s.src == s.dst && s.kf == s.km)
        }
}

/// The record at `k` is the only one of its node's list joining `(pos)` to
/// `(to, tpos)` - the canonical form, where parallel edges are merged.
pub open spec fn unique_match(
    edges: Seq<DitchEdge>,
    pos: Position,
    to: usize,
    tpos: Position,
    k: int,
) -> bool {
    forall|j: int|
        0 <= j < edges.len() && (#[trigger] edges[j]).from_position == pos && edges[j].to == to
            && edges[j].to_position == tpos ==> j == k
}

/// A complete set of validated steps for the focus path: every step names
/// the unique matching record at both endpoints of its edge with a copy to
/// give, the traversed records are pairwise distinct, and every interior
/// node carries as many copies as the path uses it.
pub open spec fn steps_witness(g: &DitchGraph, focus: &Focus, steps: Seq<Step>) -> bool {
    &&& steps.len() == focus.path@.len()
    &&& focus.path@.len() >= 1
    &&& focus.from < g.nodes@.len()
    &&& (forall|j: int| 0 <= j < steps.len() ==> step_ok(g, focus, steps, j))
    &&& (forall|j: int|
        0 <= j < steps.len() ==> unique_match(
            g.nodes@[(#[trigger] steps[j]).src as int].edges@,
            steps[j].spos,
            steps[j].dst,
            steps[j].dpos,
            steps[j].kf as int,
        ) && unique_match(
            g.nodes@[steps[j].dst as int].edges@,
            steps[j].dpos,
            steps[j].src,
            steps[j].spos,
            steps[j].km as int,
        ))
    &&& (forall|j1: int, j2: int|
        0 <= j1 < steps.len() && 0 <= j2 < steps.len() && j1 != j2 ==> slots_disjoint(
            #[trigger] steps[j1],
            #[trigger] steps[j2],
        ))
    &&& (forall|v: int|
        0 <= v < g.nodes@.len() ==> cp_of((#[trigger] g.nodes@[v]).copy_number) >= count_occ(
            focus.path@,
            0,
            focus.path@.len() - 1,
            v,
        ))
}

/// A focus path the rewrite applies on this graph: some steps witness it.
pub open spec fn path_validatable(g: &DitchGraph, focus: &Focus) -> bool {
    exists|steps: Seq<Step>| steps_witness(g, focus, steps)
}

/// The rewrite loop's running state: totals accounted so far, untraversed
/// records untouched, and enough copies left for the interior entries
/// still to come.
pub open spec fn rewrite_inv(
    g: DitchGraph,
    old_nodes: Seq<crate::graph::DitchNode>,
    focus: &Focus,
    steps: Seq<Step>,
    i: int,
    newly_len: int,
    prev_id: usize,
) -> bool {
    let old_count = old_nodes.len() as int;
    let n = steps.len() as int;
    &&& g.wf()
    &&& steps_valid(old_nodes, focus, steps)
    &&& (forall|j1: int, j2: int|
        0 <= j1 < steps.len() && 0 <= j2 < steps.len() && j1 != j2 ==> slots_disjoint(
            #[trigger] steps[j1],
            #[trigger] steps[j2],
        ))
    &&& slots_intact(g.nodes@, old_nodes, steps, i)
    &&& g.nodes@.len() == old_count + newly_len
    &&& prev_id < g.nodes@.len()
    &&& (forall|v: int|
        0 <= v < old_count ==> (#[trigger] old_nodes[v]).edges@.len() <= g.nodes@[v].edges@.len())
    &&& node_cp_sum(g.nodes@.subrange(0, old_count)) == node_cp_sum(old_nodes) - newly_len
    &&& node_cp_sum(g.nodes@) == node_cp_sum(old_nodes)
    &&& edge_prefix_sum(g.nodes@, old_nodes, old_count) == edge_cp_sum(old_nodes) - 2 * i
    &&& edge_cp_sum(g.nodes@) == edge_cp_sum(old_nodes)
    &&& (forall|v: int|
        0 <= v < old_count ==> cp_of((#[trigger] old_nodes[v]).copy_number) >= count_occ(
            focus.path@,
            0,
            n - 1,
            v,
        ))
    &&& (forall|v: int|
        0 <= v < old_count ==> (#[trigger] g.nodes@[v]).unit == old_nodes[v].unit
            && g.nodes@[v].cluster == old_nodes[v].cluster)
    &&& (forall|v: int|
        0 <= v < old_count ==> cp_of((#[trigger] g.nodes@[v]).copy_number) == cp_of(
            old_nodes[v].copy_number,
        ) - (count_occ(focus.path@, 0, n - 1, v) - count_occ(focus.path@, i, n - 1, v)))
    &&& (forall|w: int|
        old_count <= w < g.nodes@.len() ==> (#[trigger] g.nodes@[w]).copy_number == Some(1usize)
            && g.nodes@[w].unit == old_nodes[focus.path@[w - old_count].0 as int].unit
            && g.nodes@[w].cluster == old_nodes[focus.path@[w - old_count].0 as int].cluster
            && !g.nodes@[w].deleted)
}

proof fn lemma_node_cp_sum_agree(a: Seq<crate::graph::DitchNode>, b: Seq<crate::graph::DitchNode>)
    requires
        a.len() == b.len(),
        forall|v: int| 0 <= v < a.len() ==> (#[trigger] a[v]).copy_number == b[v].copy_number,
    ensures
        node_cp_sum(a) == node_cp_sum(b),
    decreases a.len(),
{
    if a.len() > 0 {
        lemma_node_cp_sum_agree(a.drop_last(), b.drop_last());
    }
}

proof fn lemma_count_occ_zero(path: Seq<(usize, Position)>, from: int, to: int, v: int)
    requires
        0 <= from,
        to <= path.len(),
        forall|j: int| from <= j < to ==> (#[trigger] path[j]).0 != v,
    ensures
        count_occ(path, from, to, v) == 0,
    decreases to - from,
{
    if from < to {
        lemma_count_occ_zero(path, from + 1, to, v);
    }
}


/// One rewrite step moves the per-element state forward: the stepped
/// interior node loses one copy, every other pre-existing node keeps its
/// copy number, and the allocated duplicates keep their copy-one labels.
proof fn lemma_step_elementwise(
    old_nodes: Seq<crate::graph::DitchNode>,
    focus: &Focus,
    i: int,
    dst: int,
    pre: Seq<crate::graph::DitchNode>,
    now: Seq<crate::graph::DitchNode>,
)
    requires
        0 <= i < focus.path@.len(),
        dst == focus.path@[i].0,
        0 <= dst < old_nodes.len(),
        old_nodes.len() <= pre.len() <= now.len(),
        pre.len() == old_nodes.len() + i,
        forall|v: int|
            0 <= v < pre.len() && v != dst ==> (#[trigger] now[v]).copy_number
                == pre[v].copy_number && now[v].unit == pre[v].unit && now[v].cluster
                == pre[v].cluster && now[v].deleted == pre[v].deleted,
        now[dst].unit == pre[dst].unit && now[dst].cluster == pre[dst].cluster && now[dst].deleted
            == pre[dst].deleted,
        i + 1 < focus.path@.len() ==> cp_of(now[dst].copy_number) == cp_of(pre[dst].copy_number)
            - 1 && now.len() == pre.len() + 1,
        i + 1 < focus.path@.len() ==> now[pre.len() as int].copy_number == Some(1usize)
            && now[pre.len() as int].unit == old_nodes[dst].unit && now[pre.len() as int].cluster
            == old_nodes[dst].cluster && !now[pre.len() as int].deleted,
        i + 1 >= focus.path@.len() ==> now.len() == pre.len() && now[dst].copy_number
            == pre[dst].copy_number,
        forall|v: int|
            0 <= v < old_nodes.len() ==> cp_of((#[trigger] pre[v]).copy_number) == cp_of(
                old_nodes[v].copy_number,
            ) - (count_occ(focus.path@, 0, focus.path@.len() - 1, v) - count_occ(
                focus.path@,
                i,
                focus.path@.len() - 1,
                v,
            )),
        forall|w: int|
            old_nodes.len() <= w < pre.len() ==> (#[trigger] pre[w]).copy_number == Some(1usize)
                && pre[w].unit == old_nodes[focus.path@[w - old_nodes.len()].0 as int].unit
                && pre[w].cluster == old_nodes[focus.path@[w - old_nodes.len()].0 as int].cluster
                && !pre[w].deleted,
    ensures
        forall|v: int|
            0 <= v < old_nodes.len() ==> cp_of((#[trigger] now[v]).copy_number) == cp_of(
                old_nodes[v].copy_number,
            ) - (count_occ(focus.path@, 0, focus.path@.len() - 1, v) - count_occ(
                focus.path@,
                i + 1,
                focus.path@.len() - 1,
                v,
            )),
        forall|w: int|
            old_nodes.len() <= w < now.len() ==> (#[trigger] now[w]).copy_number == Some(1usize)
                && now[w].unit == old_nodes[focus.path@[w - old_nodes.len()].0 as int].unit
                && now[w].cluster == old_nodes[focus.path@[w - old_nodes.len()].0 as int].cluster
                && !now[w].deleted,
{
    let n = focus.path@.len() as int;
    assert forall|v: int| 0 <= v < old_nodes.len() implies cp_of(
        (#[trigger] now[v]).copy_number,
    ) == cp_of(old_nodes[v].copy_number) - (count_occ(focus.path@, 0, n - 1, v) - count_occ(
        focus.path@,
        i + 1,
        n - 1,
        v,
    )) by {
        if i + 1 < n {
            lemma_count_occ_split(focus.path@, i, i + 1, n - 1, v);
            assert(count_occ(focus.path@, i, i + 1, v) == if focus.path@[i].0 == v {
                1int
            } else {
                0int
            }) by {
                assert(count_occ(focus.path@, i + 1, i + 1, v) == 0);
            }
        } else {
            assert(count_occ(focus.path@, i, n - 1, v) == 0);
            assert(count_occ(focus.path@, i + 1, n - 1, v) == 0);
        }
    }
    assert forall|w: int| old_nodes.len() <= w < now.len() implies (
    #[trigger] now[w]).copy_number == Some(1usize) && now[w].unit == old_nodes[focus.path@[w
        - old_nodes.len()].0 as int].unit && now[w].cluster == old_nodes[focus.path@[w
        - old_nodes.len()].0 as int].cluster && !now[w].deleted by {
        if w < pre.len() {
            assert(now[w].copy_number == pre[w].copy_number);
        } else {
            assert(w == pre.len() && i + 1 < n);
            assert(w - old_nodes.len() == i);
        }
    }
}

impl DitchGraph {
    /// One step of the rewrite: peel the interior node (all but the last
    /// step), decrement the traversed edge at both records, and string the
    /// fresh copy-one edge from the previous duplicate.
    #[verifier::rlimit(100)]
    #[verifier::loop_isolation(false)]
    fn apply_step(
        &mut self,
        focus: &Focus,
        steps: &Vec<Step>,
        i: usize,
        prev_id: usize,
        newly: &mut Vec<usize>,
        Ghost(old_nodes): Ghost<Seq<crate::graph::DitchNode>>,
    ) -> (r: usize)
        requires
            i < steps@.len(),
            steps@.len() == focus.path@.len(),
            old(newly)@.len() == i,
            forall|j: int|
                0 <= j < old(newly)@.len() ==> (#[trigger] old(newly)@[j]) as int == old_nodes.len()
                    + j,
            rewrite_inv(*old(self), old_nodes, focus, steps@, i as int, i as int, prev_id),
        ensures
            forall|j: int|
                0 <= j < final(newly)@.len() ==> (#[trigger] final(newly)@[j]) as int
                    == old_nodes.len() + j,
            rewrite_inv(
                *final(self),
                old_nodes,
                focus,
                steps@,
                i + 1,
                final(newly)@.len() as int,
                r,
            ),
            final(newly)@.len() == if i + 1 < steps@.len() {
                i + 1
            } else {
                i as int
            },
    {
        let ghost old_count = old_nodes.len() as int;
        let ghost n = steps@.len() as int;
        let src = steps[i].src;
        let spos = steps[i].spos;
        let dst = steps[i].dst;
        let dpos = steps[i].dpos;
        let kf = steps[i].kf;
        let km = steps[i].km;
        let ghost pre = self.nodes@;
        let new_idx: usize;
        if i < steps.len() - 1 {
            // an interior node: peel one copy off into a duplicate
            proof {
                assert(count_occ(focus.path@, i as int, n - 1, dst as int) >= 1) by {
                    lemma_count_occ_nonneg(focus.path@, i + 1 as int, n - 1, dst as int);
                }
                assert(cp_of(self.nodes@[dst as int].copy_number) >= 1) by {
                    lemma_count_occ_prefix_le(focus.path@, 0, i as int, n - 1, dst as int);
                    lemma_count_occ_split(focus.path@, 0, i as int, n - 1, dst as int);
                }
            }
            let occ_share = self.decrement_node_cp(dst);
            proof {
                assert(self.nodes@.subrange(0, old_count) =~= pre.subrange(0, old_count).update(
                    dst as int,
                    self.nodes@[dst as int],
                ));
                lemma_node_cp_sum_update(
                    pre.subrange(0, old_count),
                    dst as int,
                    self.nodes@[dst as int],
                );
                lemma_node_cp_sum_update(pre, dst as int, self.nodes@[dst as int]);
                lemma_edge_cp_sum_update(pre, dst as int, self.nodes@[dst as int]);
                assert forall|v: int| 0 <= v < old_count implies old_nodes[v].edges@.len() <= (
                #[trigger] self.nodes@[v]).edges@.len() && old_nodes[v].edges@.len()
                    <= pre[v].edges@.len() && self.nodes@[v].edges@.subrange(
                    0,
                    old_nodes[v].edges@.len() as int,
                ) == pre[v].edges@.subrange(0, old_nodes[v].edges@.len() as int) by {
                    assert(self.nodes@[v].edges == pre[v].edges);
                }
                lemma_edge_prefix_agree(self.nodes@, pre, old_nodes, old_count);
            }
            let ghost pre2 = self.nodes@;
            let u = self.nodes[dst].unit;
            let cl = self.nodes[dst].cluster;
            let idx = self.push_node(u, cl, occ_share, Some(1));
            newly.push(idx);
            proof {
                assert(self.nodes@.subrange(0, old_count) =~= pre2.subrange(0, old_count));
                lemma_node_cp_sum_push(pre2, self.nodes@.last());
                lemma_edge_cp_sum_push(pre2, self.nodes@.last());
                assert forall|v: int| 0 <= v < old_count implies old_nodes[v].edges@.len() <= (
                #[trigger] self.nodes@[v]).edges@.len() && old_nodes[v].edges@.len()
                    <= pre2[v].edges@.len() && self.nodes@[v].edges@.subrange(
                    0,
                    old_nodes[v].edges@.len() as int,
                ) == pre2[v].edges@.subrange(0, old_nodes[v].edges@.len() as int) by {
                    assert(self.nodes@[v].edges == pre2[v].edges);
                }
                lemma_edge_prefix_agree(self.nodes@, pre2, old_nodes, old_count);
            }
            new_idx = idx;
        } else {
            new_idx = dst;
        }
        let ghost pre3 = self.nodes@;
        // the traversed edge loses one copy, at both of its records
        let eshare = self.decrement_edge_at(src, kf);
        proof {
            let v = self.nodes@[src as int];
            assert(v.edges@.subrange(0, old_nodes[src as int].edges@.len() as int)
                =~= pre3[src as int].edges@.subrange(
                0,
                old_nodes[src as int].edges@.len() as int,
            ).update(kf as int, v.edges@[kf as int]));
            lemma_edge_prefix_update_dec(pre3, old_nodes, old_count, src as int, v, kf as int);
            assert(self.nodes@ == pre3.update(src as int, v));
            lemma_edge_cp_sum_update(pre3, src as int, v);
            lemma_edge_cp_sum_node_update(pre3[src as int].edges@, kf as int, v.edges@[kf as int]);
            lemma_node_cp_sum_update(pre3, src as int, v);
            assert(self.nodes@.subrange(0, old_count) =~= pre3.subrange(0, old_count).update(
                src as int,
                v,
            ));
            lemma_node_cp_sum_update(pre3.subrange(0, old_count), src as int, v);
        }
        let ghost pre4 = self.nodes@;
        let _mshare = self.decrement_edge_at(dst, km);
        proof {
            let v = self.nodes@[dst as int];
            assert(v.edges@.subrange(0, old_nodes[dst as int].edges@.len() as int)
                =~= pre4[dst as int].edges@.subrange(
                0,
                old_nodes[dst as int].edges@.len() as int,
            ).update(km as int, v.edges@[km as int]));
            lemma_edge_prefix_update_dec(pre4, old_nodes, old_count, dst as int, v, km as int);
            assert(self.nodes@ == pre4.update(dst as int, v));
            lemma_edge_cp_sum_update(pre4, dst as int, v);
            lemma_edge_cp_sum_node_update(pre4[dst as int].edges@, km as int, v.edges@[km as int]);
            lemma_node_cp_sum_update(pre4, dst as int, v);
            assert(self.nodes@.subrange(0, old_count) =~= pre4.subrange(0, old_count).update(
                dst as int,
                v,
            ));
            lemma_node_cp_sum_update(pre4.subrange(0, old_count), dst as int, v);
        }
        let ghost pre5 = self.nodes@;
        // string the fresh copy-one edge along
        self.add_edge(prev_id, spos, new_idx, dpos, eshare, Some(1));
        proof {
            assert forall|v: int| 0 <= v < old_count implies old_nodes[v].edges@.len() <= (
            #[trigger] self.nodes@[v]).edges@.len() && old_nodes[v].edges@.len()
                <= pre5[v].edges@.len() && self.nodes@[v].edges@.subrange(
                0,
                old_nodes[v].edges@.len() as int,
            ) == pre5[v].edges@.subrange(0, old_nodes[v].edges@.len() as int) by {
                if v == prev_id as int || v == new_idx as int {
                    assert(self.nodes@[v].edges@.subrange(0, old_nodes[v].edges@.len() as int)
                        =~= pre5[v].edges@.subrange(0, old_nodes[v].edges@.len() as int));
                } else {
                    assert(self.nodes@[v].edges == pre5[v].edges);
                }
            }
            lemma_edge_prefix_agree(self.nodes@, pre5, old_nodes, old_count);
            lemma_node_cp_sum_agree(
                self.nodes@.subrange(0, old_count),
                pre5.subrange(0, old_count),
            );
            assert(slots_intact(self.nodes@, old_nodes, steps@, i + 1)) by {
                assert forall|j: int| i + 1 <= j < steps@.len() implies {
                    let s = #[trigger] steps@[j];
                    &&& self.nodes@[s.src as int].edges@[s.kf as int] == old_nodes[s.src as int].edges@[s.kf as int]
                    &&& self.nodes@[s.dst as int].edges@[s.km as int] == old_nodes[s.dst as int].edges@[s.km as int]
                } by {
                    assert(slots_disjoint(steps@[i as int], steps@[j]));
                }
            }
            // per-node trajectory of this step, for the elementwise clauses
            let entry = old(self).nodes@;
            let nnow = self.nodes@;
            assert forall|v: int| 0 <= v < entry.len() && v != dst as int implies (
            #[trigger] nnow[v]).copy_number == entry[v].copy_number && nnow[v].unit
                == entry[v].unit && nnow[v].cluster == entry[v].cluster && nnow[v].deleted
                == entry[v].deleted by {
                assert(pre3[v].copy_number == entry[v].copy_number && pre3[v].unit
                    == entry[v].unit && pre3[v].cluster == entry[v].cluster && pre3[v].deleted
                    == entry[v].deleted);
                assert(pre5[v].copy_number == pre3[v].copy_number && pre5[v].unit == pre3[v].unit
                    && pre5[v].cluster == pre3[v].cluster && pre5[v].deleted == pre3[v].deleted);
                assert(nnow[v].copy_number == pre5[v].copy_number && nnow[v].unit == pre5[v].unit
                    && nnow[v].cluster == pre5[v].cluster && nnow[v].deleted == pre5[v].deleted);
            }
            assert(nnow[dst as int].unit == entry[dst as int].unit && nnow[dst as int].cluster
                == entry[dst as int].cluster && nnow[dst as int].deleted == entry[
                dst as int].deleted);
            if i + 1 < steps@.len() {
                assert(cp_of(nnow[dst as int].copy_number) == cp_of(entry[dst as int].copy_number)
                    - 1);
                assert(nnow.len() == entry.len() + 1);
                assert(nnow[entry.len() as int].copy_number == Some(1usize));
                assert(nnow[entry.len() as int].unit == old_nodes[dst as int].unit);
                assert(nnow[entry.len() as int].cluster == old_nodes[dst as int].cluster);
                assert(!nnow[entry.len() as int].deleted);
            } else {
                assert(nnow.len() == entry.len());
                assert(nnow[dst as int].copy_number == entry[dst as int].copy_number);
            }
            lemma_step_elementwise(old_nodes, focus, i as int, dst as int, entry, nnow);
        }
        new_idx
    }

    /// Apply one focus to the graph. Every interior path node loses one
    /// copy to a fresh copy-one duplicate, every traversed edge loses one
    /// copy to a fresh copy-one edge strung along the duplicates, and the
    /// terminus is re-linked. The rewrite happens exactly when some witness
    /// validates the path; a stale path leaves the graph untouched.
    ///
    /// On success the rewrite conserves the total copy number of nodes and
    /// of edge records, while over the pre-existing nodes the total drops
    /// by exactly one less than the path length, and over the pre-existing
    /// edge records by exactly twice the path length - that is, by one per
    /// traversed edge, each edge being recorded at both endpoints.
    #[verifier::rlimit(100)]
    #[verifier::loop_isolation(false)]
    pub fn duplicate_along(&mut self, focus: &Focus) -> (r: Option<Vec<usize>>)
        requires
            old(self).wf(),
        ensures
            final(self).wf(),
            r is None ==> *final(self) == *old(self),
            r is Some <==> path_validatable(old(self), focus),
            r is Some ==> ({
                let path_len = focus.path@.len() as int;
                let old_len = old(self).nodes@.len() as int;
                &&& path_len >= 1
                // one fresh copy-one node per interior path entry, labelled
                // like the node it was peeled from, in allocation order
                &&& (forall|j: int|
                    0 <= j < r->0@.len() ==> (#[trigger] r->0@[j]) as int == old_len + j)
                &&& (forall|w: int|
                    old_len <= w < final(self).nodes@.len() ==> (
                    #[trigger] final(self).nodes@[w]).copy_number == Some(1usize) && final(self).nodes@[w].unit == old(self).nodes@[focus.path@[w - old_len].0 as int].unit
                        && final(self).nodes@[w].cluster == old(self).nodes@[focus.path@[w
                        - old_len].0 as int].cluster && !final(self).nodes@[w].deleted)
                // every pre-existing node loses exactly one copy per use as
                // an interior path entry; the terminus is not decremented
                &&& (forall|v: int|
                    0 <= v < old_len ==> cp_of((#[trigger] final(self).nodes@[v]).copy_number)
                        == cp_of(old(self).nodes@[v].copy_number) - count_occ(
                        focus.path@,
                        0,
                        path_len - 1,
                        v,
                    ))
                &&& final(self).nodes@.len() == old_len + path_len - 1
                &&& r->0@.len() == path_len - 1
                &&& node_cp_sum(final(self).nodes@.subrange(0, old_len)) == node_cp_sum(
                    old(self).nodes@,
                ) - (path_len - 1)
                &&& node_cp_sum(final(self).nodes@) == node_cp_sum(old(self).nodes@)
                &&& edge_prefix_sum(final(self).nodes@, old(self).nodes@, old_len) == edge_cp_sum(
                    old(self).nodes@,
                ) - 2 * path_len
                &&& edge_cp_sum(final(self).nodes@) == edge_cp_sum(old(self).nodes@)
            }),
    {
        let steps = match self.validate_path(focus) {
            Some(s) => s,
            None => {
                return None;
            },
        };
        let n = steps.len();
        let ghost old_nodes = self.nodes@;
        proof {
            lemma_edge_prefix_base(old_nodes, old_nodes.len() as int);
            assert(old_nodes.subrange(0, old_nodes.len() as int) =~= old_nodes);
            assert(self.nodes@.subrange(0, old_nodes.len() as int) =~= old_nodes);
            assert(steps_valid(old_nodes, focus, steps@)) by {
                assert forall|j: int| 0 <= j < steps@.len() implies {
                    let s = #[trigger] steps@[j];
                    &&& s.src < old_nodes.len()
                    &&& s.dst < old_nodes.len()
                    &&& s.dst == focus.path@[j].0
                    &&& s.kf < old_nodes[s.src as int].edges@.len()
                    &&& s.km < old_nodes[s.dst as int].edges@.len()
                    &&& edge_matches(
                        old_nodes[s.src as int].edges@[s.kf as int],
                        s.src,
                        s.spos,
                        s.dst,
                        s.dpos,
                    )
                    &&& edge_matches(
                        old_nodes[s.dst as int].edges@[s.km as int],
                        s.dst,
                        s.dpos,
                        s.src,
                        s.spos,
                    )
                    &&& cp_of(old_nodes[s.src as int].edges@[s.kf as int].copy_number) >= 1
                    &&& cp_of(old_nodes[s.dst as int].edges@[s.km as int].copy_number) >= 1
                    &&& !(s.src == s.dst && s.kf == s.km)
                } by {
                    assert(step_ok(self, focus, steps@, j));
                }
            }
        }
        let mut newly: Vec<usize> = Vec::new();
        let mut prev_id = focus.from;
        let mut i: usize = 0;
        while i < n
            invariant
                i <= n,
                newly@.len() == if i < n {
                    i as int
                } else {
                    n - 1
                },
                forall|j: int|
                    0 <= j < newly@.len() ==> (#[trigger] newly@[j]) as int == old_nodes.len() + j,
                rewrite_inv(
                    *self,
                    old_nodes,
                    focus,
                    steps@,
                    i as int,
                    newly@.len() as int,
                    prev_id,
                ),
            decreases n - i,
        {
            prev_id = self.apply_step(focus, &steps, i, prev_id, &mut newly, Ghost(old_nodes));
            i += 1;
        }
        Some(newly)
    }
}

impl DitchGraph {
    /// Remove one edge record and its mirror, both already spent.
    /// The stored totals do not change: only records whose copy number is
    /// zero leave.
    fn remove_spent_pair(
        &mut self,
        src: usize,
        spos: Position,
        dst: usize,
        dpos: Position,
    ) -> (r: bool)
        requires
            old(self).wf(),
            src < old(self).nodes@.len(),
        ensures
            final(self).wf(),
            final(self).nodes@.len() == old(self).nodes@.len(),
            node_cp_sum(final(self).nodes@) == node_cp_sum(old(self).nodes@),
            edge_cp_sum(final(self).nodes@) == edge_cp_sum(old(self).nodes@),
            forall|v: int|
                0 <= v < old(self).nodes@.len() ==> (#[trigger] final(self).nodes@[v]).copy_number
                    == old(self).nodes@[v].copy_number,
            spent_only_pruning(final(self).nodes@, old(self).nodes@),
    {
        let kf = match self.find_edge_idx(src, spos, dst, dpos) {
            Some(k) => k,
            None => {
                proof {
                    lemma_spent_only_refl(self.nodes@);
                }
                return false;
            },
        };
        let e = self.edge_at(src, kf);
        let spent = match e.copy_number {
            Some(c) => c == 0,
            None => false,
        };
        if !spent {
            proof {
                lemma_spent_only_refl(self.nodes@);
            }
            return false;
        }
        let ghost g0 = self.nodes@;
        self.remove_edge_at(src, kf);
        proof {
            lemma_spent_only_remove(self.nodes@, g0, src as int, kf as int);
        }
        if dst < self.nodes.len() {
            match self.find_edge_idx(dst, dpos, src, spos) {
                Some(km) => {
                    let m = self.edge_at(dst, km);
                    let mspent = match m.copy_number {
                        Some(c) => c == 0,
                        None => false,
                    };
                    if mspent {
                        let ghost g1 = self.nodes@;
                        self.remove_edge_at(dst, km);
                        proof {
                            lemma_spent_only_remove(self.nodes@, g1, dst as int, km as int);
                            lemma_spent_only_trans(g0, g1, self.nodes@);
                        }
                    }
                },
                None => {},
            }
        }
        true
    }

    /// Remove the spent records along a focus path.
    pub fn remove_used_edges(&mut self, focus: &Focus)
        requires
            old(self).wf(),
        ensures
            final(self).wf(),
            final(self).nodes@.len() == old(self).nodes@.len(),
            node_cp_sum(final(self).nodes@) == node_cp_sum(old(self).nodes@),
            edge_cp_sum(final(self).nodes@) == edge_cp_sum(old(self).nodes@),
            forall|v: int|
                0 <= v < old(self).nodes@.len() ==> (#[trigger] final(self).nodes@[v]).copy_number
                    == old(self).nodes@[v].copy_number,
            spent_only_pruning(final(self).nodes@, old(self).nodes@),
    {
        proof {
            lemma_spent_only_refl(self.nodes@);
        }
        let mut src = focus.from;
        let mut spos = focus.from_position;
        let mut j: usize = 0;
        while j < focus.path.len()
            invariant
                self.wf(),
                self.nodes@.len() == old(self).nodes@.len(),
                node_cp_sum(self.nodes@) == node_cp_sum(old(self).nodes@),
                edge_cp_sum(self.nodes@) == edge_cp_sum(old(self).nodes@),
                forall|v: int|
                    0 <= v < old(self).nodes@.len() ==> (#[trigger] self.nodes@[v]).copy_number
                        == old(self).nodes@[v].copy_number,
                spent_only_pruning(self.nodes@, old(self).nodes@),
            decreases focus.path@.len() - j,
        {
            let (dst, dpos) = focus.path[j];
            if src < self.nodes.len() {
                let ghost gpre = self.nodes@;
                self.remove_spent_pair(src, spos, dst, dpos);
                proof {
                    lemma_spent_only_trans(old(self).nodes@, gpre, self.nodes@);
                }
            }
            src = dst;
            spos = dpos.flip();
            j += 1;
        }
    }

    /// Remove every spent record hanging off one node, with its mirror.
    fn remove_spent_at(&mut self, node: usize)
        requires
            old(self).wf(),
            node < old(self).nodes@.len(),
        ensures
            final(self).wf(),
            final(self).nodes@.len() == old(self).nodes@.len(),
            node_cp_sum(final(self).nodes@) == node_cp_sum(old(self).nodes@),
            edge_cp_sum(final(self).nodes@) == edge_cp_sum(old(self).nodes@),
            forall|v: int|
                0 <= v < old(self).nodes@.len() ==> (#[trigger] final(self).nodes@[v]).copy_number
                    == old(self).nodes@[v].copy_number,
            spent_only_pruning(final(self).nodes@, old(self).nodes@),
    {
        let mut targets: Vec<crate::graph::DitchEdge> = Vec::new();
        let mut k: usize = 0;
        while k < self.edge_count_of(node)
            invariant
                self.wf(),
                node < self.nodes@.len(),
            decreases self.nodes@[node as int].edges@.len() - k,
        {
            let e = self.edge_at(node, k);
            let spent = match e.copy_number {
                Some(c) => c == 0,
                None => false,
            };
            if spent {
                targets.push(e);
            }
            k += 1;
        }
        proof {
            lemma_spent_only_refl(self.nodes@);
        }
        let mut t: usize = 0;
        while t < targets.len()
            invariant
                self.wf(),
                self.nodes@.len() == old(self).nodes@.len(),
                node_cp_sum(self.nodes@) == node_cp_sum(old(self).nodes@),
                edge_cp_sum(self.nodes@) == edge_cp_sum(old(self).nodes@),
                forall|v: int|
                    0 <= v < old(self).nodes@.len() ==> (#[trigger] self.nodes@[v]).copy_number
                        == old(self).nodes@[v].copy_number,
                spent_only_pruning(self.nodes@, old(self).nodes@),
            decreases targets@.len() - t,
        {
            let e = &targets[t];
            if e.from < self.nodes.len() {
                let ghost gpre = self.nodes@;
                self.remove_spent_pair(e.from, e.from_position, e.to, e.to_position);
                proof {
                    lemma_spent_only_trans(old(self).nodes@, gpre, self.nodes@);
                }
            }
            t += 1;
        }
    }

    /// Remove the spent records branching off the origin port and off every
    /// path node.
    pub fn remove_neighbor_edges(&mut self, focus: &Focus)
        requires
            old(self).wf(),
        ensures
            final(self).wf(),
            final(self).nodes@.len() == old(self).nodes@.len(),
            node_cp_sum(final(self).nodes@) == node_cp_sum(old(self).nodes@),
            edge_cp_sum(final(self).nodes@) == edge_cp_sum(old(self).nodes@),
            forall|v: int|
                0 <= v < old(self).nodes@.len() ==> (#[trigger] final(self).nodes@[v]).copy_number
                    == old(self).nodes@[v].copy_number,
            spent_only_pruning(final(self).nodes@, old(self).nodes@),
    {
        proof {
            lemma_spent_only_refl(self.nodes@);
        }
        if focus.from < self.nodes.len() {
            self.remove_spent_at(focus.from);
        }
        let mut j: usize = 0;
        while j < focus.path.len()
            invariant
                self.wf(),
                self.nodes@.len() == old(self).nodes@.len(),
                node_cp_sum(self.nodes@) == node_cp_sum(old(self).nodes@),
                edge_cp_sum(self.nodes@) == edge_cp_sum(old(self).nodes@),
                forall|v: int|
                    0 <= v < old(self).nodes@.len() ==> (#[trigger] self.nodes@[v]).copy_number
                        == old(self).nodes@[v].copy_number,
                spent_only_pruning(self.nodes@, old(self).nodes@),
            decreases focus.path@.len() - j,
        {
            let (node, _) = focus.path[j];
            if node < self.nodes.len() {
                let ghost gpre = self.nodes@;
                self.remove_spent_at(node);
                proof {
                    lemma_spent_only_trans(old(self).nodes@, gpre, self.nodes@);
                }
            }
            j += 1;
        }
    }

    /// Tombstone every listed node whose edge list has emptied.
    pub fn clean_up(&mut self, affected: &Vec<usize>)
        requires
            old(self).wf(),
        ensures
            final(self).wf(),
            final(self).nodes@.len() == old(self).nodes@.len(),
            node_cp_sum(final(self).nodes@) == node_cp_sum(old(self).nodes@),
            edge_cp_sum(final(self).nodes@) == edge_cp_sum(old(self).nodes@),
            forall|v: int|
                0 <= v < old(self).nodes@.len() ==> (#[trigger] final(self).nodes@[v]).copy_number
                    == old(self).nodes@[v].copy_number,
            spent_only_pruning(final(self).nodes@, old(self).nodes@),
    {
        proof {
            lemma_spent_only_refl(self.nodes@);
        }
        let mut j: usize = 0;
        while j < affected.len()
            invariant
                self.wf(),
                self.nodes@.len() == old(self).nodes@.len(),
                node_cp_sum(self.nodes@) == node_cp_sum(old(self).nodes@),
                edge_cp_sum(self.nodes@) == edge_cp_sum(old(self).nodes@),
                forall|v: int|
                    0 <= v < old(self).nodes@.len() ==> (#[trigger] self.nodes@[v]).copy_number
                        == old(self).nodes@[v].copy_number,
                spent_only_pruning(self.nodes@, old(self).nodes@),
            decreases affected@.len() - j,
        {
            let node = affected[j];
            if node < self.nodes.len() {
                if !self.is_deleted(node) && self.edge_count_of(node) == 0 {
                    let ghost gpre = self.nodes@;
                    self.delete_node(node);
                    proof {
                        assert forall|v: int| 0 <= v < self.nodes@.len() implies (
                        #[trigger] self.nodes@[v]).edges@ == gpre[v].edges@ by {
                            if v != node as int {
                                assert(self.nodes@[v] == gpre[v]);
                            }
                        }
                        lemma_spent_only_same_edges(self.nodes@, gpre);
                        lemma_spent_only_trans(old(self).nodes@, gpre, self.nodes@);
                    }
                }
            }
            j += 1;
        }
    }

    /// Prune after a rewrite: drop the spent records along and beside the
    /// path, then tombstone the nodes the pruning emptied. Only records
    /// whose copy number is spent leave; every live record survives in its
    /// node's list, and nothing new appears.
    pub fn remove_along(&mut self, focus: &Focus, affected: &Vec<usize>)
        requires
            old(self).wf(),
        ensures
            final(self).wf(),
            final(self).nodes@.len() == old(self).nodes@.len(),
            node_cp_sum(final(self).nodes@) == node_cp_sum(old(self).nodes@),
            edge_cp_sum(final(self).nodes@) == edge_cp_sum(old(self).nodes@),
            forall|v: int|
                0 <= v < old(self).nodes@.len() ==> (#[trigger] final(self).nodes@[v]).copy_number
                    == old(self).nodes@[v].copy_number,
            spent_only_pruning(final(self).nodes@, old(self).nodes@),
    {
        self.remove_used_edges(focus);
        let ghost g1 = self.nodes@;
        self.remove_neighbor_edges(focus);
        let ghost g2 = self.nodes@;
        proof {
            lemma_spent_only_trans(old(self).nodes@, g1, g2);
        }
        self.clean_up(affected);
        proof {
            lemma_spent_only_trans(old(self).nodes@, g2, self.nodes@);
        }
    }

    /// Whether any branching exists at the origin, along the interior, or
    /// at the terminus of the path: without one there is nothing to peel
    /// apart.
    pub fn is_path_branching(&self, focus: &Focus) -> (r: bool)
        requires
            self.wf(),
            focus.from < self.nodes@.len(),
            forall|j: int|
                0 <= j < focus.path@.len() ==> (#[trigger] focus.path@[j]).0 < self.nodes@.len(),
        ensures
            r == path_branching(self, focus),
    {
        let n = focus.path.len();
        let at_origin = self.count_edges(focus.from, focus.from_position) > 1;
        let mut interior = false;
        let mut j: usize = 0;
        while j < n
            invariant
                self.wf(),
                j <= n,
                n == focus.path@.len(),
                forall|j2: int|
                    0 <= j2 < focus.path@.len() ==> (#[trigger] focus.path@[j2]).0
                        < self.nodes@.len(),
                interior ==> exists|j2: int|
                    0 <= j2 < n - 1 && interior_branch(self, #[trigger] focus.path@[j2].0),
                !interior ==> forall|j2: int|
                    0 <= j2 < j && j2 < n - 1 ==> !interior_branch(
                        self,
                        #[trigger] focus.path@[j2].0,
                    ),
            decreases n - j,
        {
            if j + 1 < n {
                let (node, _) = focus.path[j];
                let heads = self.count_edges(node, Position::Head);
                let tails = self.count_edges(node, Position::Tail);
                if heads > 1 || tails > 1 {
                    proof {
                        assert(interior_branch(self, focus.path@[j as int].0));
                    }
                    interior = true;
                }
            }
            j += 1;
        }
        let at_terminus = if n > 0 {
            let (node, pos) = focus.path[n - 1];
            self.count_edges(node, pos) > 1
        } else {
            false
        };
        at_origin || interior || at_terminus
    }

    /// Try one focus: re-check that untangling is possible, rewrite, and
    /// prune. The rewrite happens exactly when the path still offers a
    /// branch to peel apart and some witness validates it; on a skip the
    /// graph is untouched.
    pub fn survey_focus(&mut self, focus: &Focus) -> (r: bool)
        requires
            old(self).wf(),
            focus.from < old(self).nodes@.len(),
            forall|j: int|
                0 <= j < focus.path@.len() ==> (#[trigger] focus.path@[j]).0 < old(self).nodes@.len(),
        ensures
            final(self).wf(),
            !r ==> *final(self) == *old(self),
            r <==> path_branching(old(self), focus) && path_validatable(old(self), focus),
            r ==> ({
                let path_len = focus.path@.len() as int;
                let old_len = old(self).nodes@.len() as int;
                &&& path_len >= 1
                &&& final(self).nodes@.len() == old_len + path_len - 1
                &&& node_cp_sum(final(self).nodes@.subrange(0, old_len)) == node_cp_sum(
                    old(self).nodes@,
                ) - (path_len - 1)
                &&& node_cp_sum(final(self).nodes@) == node_cp_sum(old(self).nodes@)
                &&& edge_cp_sum(final(self).nodes@) == edge_cp_sum(old(self).nodes@)
            }),
    {
        if !self.is_path_branching(focus) {
            return false;
        }
        let newly = match self.duplicate_along(focus) {
            Some(v) => v,
            None => {
                return false;
            },
        };
        let ghost mid = self.nodes@;
        let mut affected = newly;
        let mut j: usize = 0;
        while j < focus.path.len()
            invariant
                self.wf(),
                self.nodes@ == mid,
            decreases focus.path@.len() - j,
        {
            affected.push(focus.path[j].0);
            j += 1;
        }
        affected.push(focus.from);
        self.remove_along(focus, &affected);
        proof {
            lemma_node_cp_sum_agree(
                self.nodes@.subrange(0, old(self).nodes@.len() as int),
                mid.subrange(0, old(self).nodes@.len() as int),
            );
        }
        true
    }
}


/// More than one edge leaves one of a node's ports.
pub open spec fn interior_branch(g: &DitchGraph, v: usize) -> bool {
    count_pos(g.nodes@[v as int].edges@, Position::Head) > 1 || count_pos(
        g.nodes@[v as int].edges@,
        Position::Tail,
    ) > 1
}

/// The path offers something to peel apart: a fork at the origin port, at
/// one of its interior nodes, or at the terminus port.
pub open spec fn path_branching(g: &DitchGraph, focus: &Focus) -> bool {
    ||| count_pos(g.nodes@[focus.from as int].edges@, focus.from_position) > 1
    ||| exists|j: int| 0 <= j < focus.path@.len() - 1 && interior_branch(g, (#[trigger] focus.path@[j]).0)
    ||| (focus.path@.len() > 0 && count_pos(
        g.nodes@[focus.path@.last().0 as int].edges@,
        focus.path@.last().1,
    ) > 1)
}

/// A focus the survey applies on graph `g`: endpoints in range, both still
/// carrying exactly one copy, path nodes in range, the origin port with
/// exactly one edge flowing into a joint with at least two incident edges,
/// and the path branching and validatable.
pub open spec fn focus_ready(g: &DitchGraph, focus: Focus) -> bool {
    &&& focus.from < g.nodes@.len()
    &&& focus.to < g.nodes@.len()
    &&& (forall|j: int|
        0 <= j < focus.path@.len() ==> (#[trigger] focus.path@[j]).0 < g.nodes@.len())
    &&& g.nodes@[focus.from as int].copy_number == Some(1usize)
    &&& g.nodes@[focus.to as int].copy_number == Some(1usize)
    &&& count_pos(g.nodes@[focus.from as int].edges@, focus.from_position) == 1
    &&& (forall|k: int|
        0 <= k < g.nodes@[focus.from as int].edges@.len() && (#[trigger] g.nodes@[focus.from
            as int].edges@[k]).from_position == focus.from_position
            ==> g.nodes@[focus.from as int].edges@[k].to < g.nodes@.len() && count_pos(
            g.nodes@[g.nodes@[focus.from as int].edges@[k].to as int].edges@,
            g.nodes@[focus.from as int].edges@[k].to_position,
        ) > 1)
    &&& path_branching(g, &focus)
    &&& path_validatable(g, &focus)
}

impl DitchGraph {
    /// Try the foci in the order given. A focus whose path touches a node an
    /// earlier rewrite already handled this round is skipped, as is one whose
    /// origin or terminus no longer carries exactly one copy, whose origin
    /// port is no longer unambiguous, or whose first edge no longer flows
    /// into a joint with at least two incident edges. The number of applied
    /// rewrites is returned; when it is zero, no focus in the list was ready
    /// on the untouched graph.
    pub fn survey_foci(&mut self, foci: &Vec<Focus>) -> (r: usize)
        requires
            old(self).wf(),
        ensures
            final(self).wf(),
            r <= foci@.len(),
            r == 0 ==> *final(self) == *old(self),
            r == 0 ==> forall|k: int|
                0 <= k < foci@.len() ==> !focus_ready(old(self), #[trigger] foci@[k]),
            final(self).nodes@.len() >= old(self).nodes@.len(),
    {
        let mut solved: usize = 0;
        let mut affected: Vec<usize> = Vec::new();
        let mut f: usize = 0;
        while f < foci.len()
            invariant
                self.wf(),
                f <= foci@.len(),
                solved <= f,
                solved == 0 ==> *self == *old(self),
                solved == 0 ==> affected@.len() == 0,
                solved == 0 ==> forall|k: int|
                    0 <= k < f ==> !focus_ready(old(self), #[trigger] foci@[k]),
                self.nodes@.len() >= old(self).nodes@.len(),
            decreases foci@.len() - f,
        {
            let focus = &foci[f];
            f += 1;
            // bounds and staleness checks
            if focus.from >= self.nodes.len() || focus.to >= self.nodes.len() {
                proof {
                    if solved == 0 {
                        assert(!focus_ready(old(self), foci@[f - 1]));
                    }
                }
                continue ;
            }
            let mut path_ok = true;
            let mut j: usize = 0;
            while j < focus.path.len()
                invariant
                    self.wf(),
                    path_ok ==> forall|j2: int|
                        0 <= j2 < j ==> (#[trigger] focus.path@[j2]).0 < self.nodes@.len()
                            && !affected@.contains(focus.path@[j2].0),
                    !path_ok ==> exists|j2: int|
                        0 <= j2 < focus.path@.len() && ((#[trigger] focus.path@[j2]).0
                            >= self.nodes@.len() || affected@.contains(focus.path@[j2].0)),
                decreases focus.path@.len() - j,
            {
                let (node, _) = focus.path[j];
                if node >= self.nodes.len() || crate::util::contains_usize(&affected, node) {
                    path_ok = false;
                }
                j += 1;
            }
            if !path_ok {
                proof {
                    if solved == 0 && focus_ready(old(self), foci@[f - 1]) {
                        let j2 = choose|j2: int|
                            0 <= j2 < focus.path@.len() && ((#[trigger] focus.path@[j2]).0
                                >= self.nodes@.len() || affected@.contains(focus.path@[j2].0));
                        assert(!affected@.contains(focus.path@[j2].0));
                        assert(false);
                    }
                }
                continue ;
            }
            // the origin and terminus must still carry exactly one copy
            let from_cp = self.node_copy_number(focus.from);
            let to_cp = self.node_copy_number(focus.to);
            let cp_ok = match (from_cp, to_cp) {
                (Some(a), Some(b)) => a == 1 && b == 1,
                _ => false,
            };
            if !cp_ok {
                proof {
                    if solved == 0 {
                        assert(!focus_ready(old(self), foci@[f - 1]));
                    }
                }
                continue ;
            }
            // the origin port must still have exactly one edge, flowing into
            // a joint with at least two incident edges
            if self.count_edges(focus.from, focus.from_position) != 1 {
                proof {
                    if solved == 0 {
                        assert(!focus_ready(old(self), foci@[f - 1]));
                    }
                }
                continue ;
            }
            let edge = match self.first_edge_from(focus.from, focus.from_position) {
                Some(e) => e,
                None => {
                    proof {
                        if solved == 0 {
                            assert(!focus_ready(old(self), foci@[f - 1]));
                        }
                    }
                    continue ;
                },
            };
            if edge.to >= self.nodes.len() || self.count_edges(edge.to, edge.to_position) <= 1 {
                proof {
                    if solved == 0 && focus_ready(old(self), foci@[f - 1]) {
                        let k = choose|k: int|
                            0 <= k < self.nodes@[focus.from as int].edges@.len() && (
                            #[trigger] self.nodes@[focus.from as int].edges@[k]) == edge
                                && edge.from_position == focus.from_position;
                        assert(self.nodes@[focus.from as int].edges@[k].to < self.nodes@.len()
                            && count_pos(
                            self.nodes@[self.nodes@[focus.from as int].edges@[k].to as int].edges@,
                            self.nodes@[focus.from as int].edges@[k].to_position,
                        ) > 1);
                        assert(false);
                    }
                }
                continue ;
            }
            let done = self.survey_focus(focus);
            if done {
                solved += 1;
                let mut j2: usize = 0;
                while j2 < focus.path.len()
                    invariant
                        self.wf(),
                    decreases focus.path@.len() - j2,
                {
                    affected.push(focus.path[j2].0);
                    j2 += 1;
                }
                affected.push(focus.from);
            } else {
                proof {
                    if solved == 0 {
                        assert(!focus_ready(old(self), foci@[f - 1]));
                    }
                }
            }
        }
        solved
    }

    /// The ports from which a focus may start: a node still carrying exactly
    /// one copy whose port has exactly one edge, flowing into a node with at
    /// least two copies and at least two edges on the met port.
    pub fn focus_entries(&self) -> (r: Vec<(usize, Position)>)
        requires
            self.wf(),
        ensures
            forall|k: int| 0 <= k < r@.len() ==> entry_qualifies(self, #[trigger] r@[k]),
            forall|i2: usize, pp: Position|
                i2 < self.nodes@.len() && #[trigger] entry_qualifies(self, (i2, pp))
                    ==> r@.contains((i2, pp)),
    {
        let mut r: Vec<(usize, Position)> = Vec::new();
        let mut i: usize = 0;
        while i < self.nodes.len()
            invariant
                self.wf(),
                i <= self.nodes@.len(),
                forall|k: int| 0 <= k < r@.len() ==> entry_qualifies(self, #[trigger] r@[k]),
                forall|i2: usize, pp: Position|
                    i2 < i && #[trigger] entry_qualifies(self, (i2, pp)) ==> r@.contains(
                        (i2, pp),
                    ),
            decreases self.nodes@.len() - i,
        {
            let single = match self.node_copy_number(i) {
                Some(c) => c == 1,
                None => false,
            };
            if single && !self.is_deleted(i) {
                let mut p: usize = 0;
                while p < 2
                    invariant
                        self.wf(),
                        p <= 2,
                        i < self.nodes@.len(),
                        !self.nodes@[i as int].deleted,
                        cp_of(self.nodes@[i as int].copy_number) == 1,
                        self.nodes@[i as int].copy_number is Some,
                        forall|k: int|
                            0 <= k < r@.len() ==> entry_qualifies(self, #[trigger] r@[k]),
                        forall|i2: usize, pp: Position|
                            i2 < i && #[trigger] entry_qualifies(self, (i2, pp)) ==> r@.contains(
                                (i2, pp),
                            ),
                        p >= 1 ==> (entry_qualifies(self, (i, Position::Head)) ==> r@.contains(
                            (i, Position::Head),
                        )),
                        p >= 2 ==> (entry_qualifies(self, (i, Position::Tail)) ==> r@.contains(
                            (i, Position::Tail),
                        )),
                    decreases 2 - p,
                {
                    let pos = if p == 0 {
                        Position::Head
                    } else {
                        Position::Tail
                    };
                    let ghost edges = self.nodes@[i as int].edges@;
                    if self.count_edges(i, pos) == 1 {
                        match self.first_edge_from(i, pos) {
                            Some(e) => {
                                let ghost kf = choose|kf: int|
                                    0 <= kf < edges.len() && (#[trigger] edges[kf]) == e
                                        && e.from_position == pos;
                                proof {
                                    assert(edges[kf].to < self.nodes@.len());
                                }
                                if e.to < self.nodes.len() {
                                    let siblings = self.count_edges(e.to, e.to_position);
                                    let multi = match self.node_copy_number(e.to) {
                                        Some(c) => c >= 2,
                                        None => false,
                                    };
                                    if siblings >= 2 && multi {
                                        let ghost pre_r = r@;
                                        r.push((i, pos));
                                        proof {
                                            assert(entry_qualifies(self, (i, pos)));
                                            assert(forall|k: int|
                                                0 <= k < pre_r.len() ==> r@[k] == pre_r[k]);
                                            assert(r@[r@.len() - 1] == (i, pos));
                                            assert(r@.contains((i, pos)));
                                        }
                                    } else {
                                        proof {
                                            if entry_qualifies(self, (i, pos)) {
                                                // the port has one record, so the
                                                // qualifying witness is the found one
                                                let w = choose|w: int|
                                                    {
                                                        &&& 0 <= w < edges.len()
                                                        &&& (#[trigger] edges[w]).from_position
                                                            == pos
                                                        &&& edges[w].to < self.nodes@.len()
                                                        &&& cp_of(
                                                            self.nodes@[edges[w].to as int].copy_number,
                                                        ) >= 2
                                                        &&& count_pos(
                                                            self.nodes@[edges[w].to as int].edges@,
                                                            edges[w].to_position,
                                                        ) >= 2
                                                    };
                                                if w != kf {
                                                    if w < kf {
                                                        crate::graph::lemma_count_pos_two(
                                                            edges,
                                                            pos,
                                                            w,
                                                            kf,
                                                        );
                                                    } else {
                                                        crate::graph::lemma_count_pos_two(
                                                            edges,
                                                            pos,
                                                            kf,
                                                            w,
                                                        );
                                                    }
                                                }
                                                assert(edges[w] == e);
                                                assert(false);
                                            }
                                        }
                                    }
                                }
                            },
                            None => {
                                proof {
                                    if entry_qualifies(self, (i, pos)) {
                                        let w = choose|w: int|
                                            0 <= w < edges.len() && (
                                            #[trigger] edges[w]).from_position == pos;
                                        crate::graph::lemma_count_pos_member(edges, pos, w);
                                        assert(false);
                                    }
                                }
                            },
                        }
                    } else {
                        proof {
                            if entry_qualifies(self, (i, pos)) {
                                assert(count_pos(edges, pos) == 1);
                                assert(false);
                            }
                        }
                    }
                    p += 1;
                }
            }
            i += 1;
        }
        r
    }
}

/// A listed focus entry is sound: the node still carries exactly one copy,
/// the port has exactly one edge record, and some record there flows into a
/// node with at least two copies and at least two edges on the met port.
pub open spec fn entry_qualifies(g: &DitchGraph, entry: (usize, Position)) -> bool {
    let (i, pos) = entry;
    &&& i < g.nodes@.len()
    &&& !g.nodes@[i as int].deleted
    &&& cp_of(g.nodes@[i as int].copy_number) == 1
    &&& g.nodes@[i as int].copy_number is Some
    &&& count_pos(g.nodes@[i as int].edges@, pos) == 1
    &&& exists|e: int|
        {
            &&& 0 <= e < g.nodes@[i as int].edges@.len()
            &&& (#[trigger] g.nodes@[i as int].edges@[e]).from_position == pos
            &&& g.nodes@[i as int].edges@[e].to < g.nodes@.len()
            &&& cp_of(g.nodes@[g.nodes@[i as int].edges@[e].to as int].copy_number) >= 2
            &&& count_pos(
                g.nodes@[g.nodes@[i as int].edges@[e].to as int].edges@,
                g.nodes@[i as int].edges@[e].to_position,
            ) >= 2
        }
}

/// One frontier entry of the layered traversal: its read support, the best
/// cumulative weight reaching it, the index of that predecessor in the
/// previous layer, and the (node, port) it stands on.
#[derive(Debug, Clone, Copy, PartialEq, Eq, Structural)]
pub struct TraverseNode {
    pub count: usize,
    pub max_weight: usize,
    pub parent: usize,
    pub node: usize,
    pub pos: Position,
}

/// Layers are sound for a graph: every entry stands on a live index and
/// names a predecessor inside the previous layer.
pub open spec fn layers_wf(layers: Seq<Vec<TraverseNode>>, n_nodes: int) -> bool {
    forall|d: int, k: int|
        0 <= d < layers.len() && 0 <= k < layers[d]@.len() ==> (#[trigger] layers[d]@[k]).node
            < n_nodes && (d > 0 ==> layers[d]@[k].parent < layers[d - 1]@.len())
}

fn bump_count(m: &mut Vec<((u64, u64), usize)>, key: (u64, u64)) {
    let mut k: usize = 0;
    while k < m.len()
        invariant
            k <= m@.len(),
        decreases m@.len() - k,
    {
        let (kk, c) = m[k];
        if kk.0 == key.0 && kk.1 == key.1 {
            if c < usize::MAX {
                m.set(k, (kk, c + 1));
            }
            return ;
        }
        k += 1;
    }
    m.push((key, 1));
}

fn get_count(m: &Vec<((u64, u64), usize)>, key: (u64, u64)) -> usize {
    let mut k: usize = 0;
    while k < m.len()
        invariant
            k <= m@.len(),
        decreases m@.len() - k,
    {
        let (kk, c) = m[k];
        if kk.0 == key.0 && kk.1 == key.1 {
            return c;
        }
        k += 1;
    }
    0
}

impl DitchGraph {
    /// For every distance from the starting port, how many reads place each
    /// unit label there, walking each read away from the start on its own
    /// strand. Reads that never meet the start are passed over.
    pub fn count_dist_nodes(
        &self,
        reads: &Vec<crate::reads::EncodedRead>,
        node_index: usize,
        pos: Position,
    ) -> (r: Vec<Vec<((u64, u64), usize)>>)
        requires
            node_index < self.nodes@.len(),
        ensures
            r@.len() >= 1,
    {
        let mut max_len: usize = 0;
        let mut i: usize = 0;
        while i < reads.len()
            invariant
                i <= reads@.len(),
            decreases reads@.len() - i,
        {
            if reads[i].nodes.len() > max_len {
                max_len = reads[i].nodes.len();
            }
            i += 1;
        }
        if max_len == usize::MAX {
            max_len = usize::MAX - 1;
        }
        let mut counts: Vec<Vec<((u64, u64), usize)>> = Vec::new();
        let mut d: usize = 0;
        while d <= max_len
            invariant
                counts@.len() == d,
                d <= max_len + 1,
                max_len < usize::MAX,
            decreases max_len + 1 - d,
        {
            counts.push(Vec::new());
            d += 1;
        }
        let unit = self.nodes[node_index].unit;
        let cluster = self.nodes[node_index].cluster;
        let mut i2: usize = 0;
        while i2 < reads.len()
            invariant
                i2 <= reads@.len(),
                counts@.len() == max_len + 1,
            decreases reads@.len() - i2,
        {
            let read = &reads[i2];
            // where the read meets the start label
            let mut start: usize = 0;
            let mut found = false;
            let mut j: usize = 0;
            while j < read.nodes.len()
                invariant
                    j <= read.nodes@.len(),
                    found ==> start < read.nodes@.len(),
                decreases read.nodes@.len() - j,
            {
                if !found && read.nodes[j].unit == unit && read.nodes[j].cluster == cluster {
                    start = j;
                    found = true;
                }
                j += 1;
            }
            if found && read.nodes.len() <= max_len {
                let forward_walk = match (read.nodes[start].is_forward, pos) {
                    (true, Position::Tail) => true,
                    (false, Position::Head) => true,
                    _ => false,
                };
                if forward_walk {
                    let mut dd: usize = 0;
                    while start + dd < read.nodes.len()
                        invariant
                            counts@.len() == max_len + 1,
                            start + dd <= read.nodes@.len(),
                            read.nodes@.len() <= max_len,
                        decreases read.nodes@.len() - start - dd,
                    {
                        let n = &read.nodes[start + dd];
                        let mut row = counts.remove(dd);
                        bump_count(&mut row, (n.unit, n.cluster));
                        counts.insert(dd, row);
                        proof {
                            assert(counts@.len() == max_len + 1);
                        }
                        dd += 1;
                    }
                } else {
                    let mut dd: usize = 0;
                    while dd <= start
                        invariant
                            counts@.len() == max_len + 1,
                            dd <= start + 1,
                            start < read.nodes@.len(),
                            read.nodes@.len() <= max_len,
                        decreases start + 1 - dd,
                    {
                        let n = &read.nodes[start - dd];
                        let mut row = counts.remove(dd);
                        bump_count(&mut row, (n.unit, n.cluster));
                        counts.insert(dd, row);
                        dd += 1;
                    }
                }
            }
            i2 += 1;
        }
        counts
    }

    /// The (node, port) pairs one more step out: every edge with copies left
    /// leaving the far port of a frontier entry, in sorted order without
    /// repeats.
    pub fn next_nodes(&self, nodes: &Vec<TraverseNode>) -> (r: Vec<(usize, Position)>)
        requires
            self.wf(),
            forall|k: int| 0 <= k < nodes@.len() ==> (#[trigger] nodes@[k]).node
                < self.nodes@.len(),
        ensures
            forall|k: int| 0 <= k < r@.len() ==> (#[trigger] r@[k]).0 < self.nodes@.len(),
    {
        let mut found: Vec<(usize, Position)> = Vec::new();
        let mut i: usize = 0;
        while i < nodes.len()
            invariant
                i <= nodes@.len(),
                self.wf(),
                forall|k: int| 0 <= k < nodes@.len() ==> (#[trigger] nodes@[k]).node
                    < self.nodes@.len(),
                forall|k: int| 0 <= k < found@.len() ==> (#[trigger] found@[k]).0
                    < self.nodes@.len(),
            decreases nodes@.len() - i,
        {
            let v = nodes[i].node;
            let away = nodes[i].pos.flip();
            let mut e: usize = 0;
            while e < self.edge_count_of(v)
                invariant
                    v < self.nodes@.len(),
                    self.wf(),
                    e <= self.nodes@[v as int].edges@.len(),
                    forall|k: int| 0 <= k < found@.len() ==> (#[trigger] found@[k]).0
                        < self.nodes@.len(),
                decreases self.nodes@[v as int].edges@.len() - e,
            {
                let edge = self.edge_at(v, e);
                let live = match edge.copy_number {
                    Some(c) => c > 0,
                    None => false,
                };
                if live && edge.from_position == away {
                    insert_sorted_dedup(&mut found, (edge.to, edge.to_position));
                }
                e += 1;
            }
            i += 1;
        }
        found
    }

    /// The layered traversal: layer zero is the far port of the start, each
    /// next layer the reachable (node, port) pairs with their read support
    /// and best-supported predecessor; it stops when the frontier's support
    /// falls below the span floor.
    pub fn traverse(
        &self,
        reads: &Vec<crate::reads::EncodedRead>,
        node_index: usize,
        pos: Position,
        min_span: usize,
    ) -> (r: Vec<Vec<TraverseNode>>)
        requires
            self.wf(),
            node_index < self.nodes@.len(),
        ensures
            layers_wf(r@, self.nodes@.len() as int),
            r@.len() >= 1,
            r@[0]@.len() == 1,
            r@[0]@[0] == (TraverseNode {
                count: 0,
                max_weight: 0,
                parent: 0,
                node: node_index,
                pos: pos.spec_flip(),
            }),
    {
        let counts = self.count_dist_nodes(reads, node_index, pos);
        let mut layers: Vec<Vec<TraverseNode>> = Vec::new();
        let mut layer0: Vec<TraverseNode> = Vec::new();
        layer0.push(
            TraverseNode { count: 0, max_weight: 0, parent: 0, node: node_index, pos: pos.flip() },
        );
        layers.push(layer0);
        let mut dist: usize = 0;
        while dist < counts.len()
            invariant
                self.wf(),
                layers@.len() == dist + 1,
                layers_wf(layers@, self.nodes@.len() as int),
                dist + 1 <= counts@.len() + 1,
                layers@[0]@.len() == 1,
                layers@[0]@[0] == (TraverseNode {
                    count: 0,
                    max_weight: 0,
                    parent: 0,
                    node: node_index,
                    pos: pos.spec_flip(),
                }),
            decreases counts@.len() - dist,
        {
            let prev = &layers[dist];
            proof {
                assert(forall|k: int|
                    0 <= k < prev@.len() ==> (#[trigger] prev@[k]).node < self.nodes@.len());
            }
            if prev.len() == 0 {
                break ;
            }
            let found = self.next_nodes(prev);
            let counts_len = counts.len();
            if dist + 1 >= counts_len {
                break ;
            }
            let mut layer: Vec<TraverseNode> = Vec::new();
            let mut f: usize = 0;
            while f < found.len()
                invariant
                    f <= found@.len(),
                    dist + 1 < counts_len == counts@.len(),
                    forall|k: int| 0 <= k < found@.len() ==> (#[trigger] found@[k]).0
                        < self.nodes@.len(),
                    forall|k: int| 0 <= k < layer@.len() ==> (#[trigger] layer@[k]).node
                        < self.nodes@.len() && layer@[k].parent == 0,
                decreases found@.len() - f,
            {
                let (idx, p) = found[f];
                let label = (self.nodes[idx].unit, self.nodes[idx].cluster);
                let c = get_count(&counts[dist + 1], label);
                layer.push(TraverseNode { count: c, max_weight: c, parent: 0, node: idx, pos: p });
                f += 1;
            }
            // track the best-supported predecessor of every frontier entry
            let mut i: usize = 0;
            while i < layers[dist].len()
                invariant
                    self.wf(),
                    layers@.len() == dist + 1,
                    layers_wf(layers@, self.nodes@.len() as int),
                    layers@[dist as int]@.len() >= 1,
                    i <= layers@[dist as int]@.len(),
                    forall|k: int| 0 <= k < layer@.len() ==> (#[trigger] layer@[k]).node
                        < self.nodes@.len() && layer@[k].parent < layers@[dist as int]@.len(),
                decreases layers@[dist as int]@.len() - i,
            {
                let src = layers[dist][i];
                let away = src.pos.flip();
                let v = src.node;
                let mut e: usize = 0;
                while e < self.edge_count_of(v)
                    invariant
                        self.wf(),
                        v < self.nodes@.len(),
                        layers@.len() == dist + 1,
                        i < layers@[dist as int]@.len(),
                        e <= self.nodes@[v as int].edges@.len(),
                        forall|k: int| 0 <= k < layer@.len() ==> (#[trigger] layer@[k]).node
                            < self.nodes@.len() && layer@[k].parent
                            < layers@[dist as int]@.len(),
                    decreases self.nodes@[v as int].edges@.len() - e,
                {
                    let edge = self.edge_at(v, e);
                    let live = match edge.copy_number {
                        Some(c) => c > 0,
                        None => false,
                    };
                    if live && edge.from_position == away {
                        // find the frontier slot this edge reaches
                        let mut t: usize = 0;
                        while t < layer.len()
                            invariant
                                t <= layer@.len(),
                                i < layers@[dist as int]@.len(),
                                layers@.len() == dist + 1,
                                forall|k: int|
                                    0 <= k < layer@.len() ==> (#[trigger] layer@[k]).node
                                        < self.nodes@.len() && layer@[k].parent
                                        < layers@[dist as int]@.len(),
                            decreases layer@.len() - t,
                        {
                            if layer[t].node == edge.to && layer[t].pos == edge.to_position {
                                let slot = layer[t];
                                let cand = if src.max_weight <= usize::MAX - slot.count {
                                    src.max_weight + slot.count
                                } else {
                                    usize::MAX
                                };
                                if slot.max_weight < cand {
                                    layer.set(
                                        t,
                                        TraverseNode {
                                            count: slot.count,
                                            max_weight: cand,
                                            parent: i,
                                            node: slot.node,
                                            pos: slot.pos,
                                        },
                                    );
                                }
                            }
                            t += 1;
                        }
                    }
                    e += 1;
                }
                i += 1;
            }
            // stop once the frontier's support falls below the floor
            let mut total: usize = 0;
            let mut s: usize = 0;
            while s < layer.len()
                invariant
                    s <= layer@.len(),
                decreases layer@.len() - s,
            {
                if total <= usize::MAX - layer[s].count {
                    total += layer[s].count;
                }
                s += 1;
            }
            if total < min_span {
                break ;
            }
            layers.push(layer);
            dist += 1;
        }
        layers
    }

    /// Walk the max-weight predecessors back from a chosen terminus,
    /// recovering the path from the start out to it.
    pub fn trackback(layers: &Vec<Vec<TraverseNode>>, dist: usize, target: (usize, Position)) -> (r:
        Option<Vec<(usize, Position)>>)
        requires
            layers@.len() >= 1,
            forall|d: int, k: int|
                0 <= d < layers@.len() && 0 <= k < layers@[d]@.len() ==> (d > 0 ==> (
                #[trigger] layers@[d]@[k]).parent < layers@[d - 1]@.len()),
        ensures
            r is Some ==> r->0@.len() == dist,
            r is Some && dist >= 1 ==> r->0@.last() == target,
            dist < layers@.len() && (exists|k: int|
                0 <= k < layers@[dist as int]@.len() && (#[trigger] layers@[dist as int]@[k]).node
                    == target.0 && layers@[dist as int]@[k].pos == target.1) ==> r is Some,
    {
        if dist >= layers.len() {
            return None;
        }
        let mut at: usize = 0;
        let mut found = false;
        let mut k: usize = 0;
        while k < layers[dist].len()
            invariant
                dist < layers@.len(),
                k <= layers@[dist as int]@.len(),
                found ==> at < layers@[dist as int]@.len() && layers@[dist as int]@[at as int].node
                    == target.0 && layers@[dist as int]@[at as int].pos == target.1,
                !found ==> forall|k2: int|
                    0 <= k2 < k ==> !((#[trigger] layers@[dist as int]@[k2]).node == target.0
                        && layers@[dist as int]@[k2].pos == target.1),
            decreases layers@[dist as int]@.len() - k,
        {
            if !found && layers[dist][k].node == target.0 && layers[dist][k].pos == target.1 {
                at = k;
                found = true;
            }
            k += 1;
        }
        if !found {
            proof {
                assert(forall|k2: int|
                    0 <= k2 < layers@[dist as int]@.len() ==> !((
                    #[trigger] layers@[dist as int]@[k2]).node == target.0
                        && layers@[dist as int]@[k2].pos == target.1));
            }
            return None;
        }
        let mut back: Vec<(usize, Position)> = Vec::new();
        let mut d = dist;
        while d > 0
            invariant
                d <= dist < layers@.len(),
                at < layers@[d as int]@.len() || d == 0,
                back@.len() == dist - d,
                d < dist ==> back@[0].0 == target.0 && back@[0].1 == target.1,
                at < layers@[d as int]@.len() && d == dist && dist >= 1 ==> layers@[d as int]@[
                    at as int].node == target.0 && layers@[d as int]@[at as int].pos == target.1,
                forall|d2: int, k2: int|
                    0 <= d2 < layers@.len() && 0 <= k2 < layers@[d2]@.len() ==> (d2 > 0 ==> (
                    #[trigger] layers@[d2]@[k2]).parent < layers@[d2 - 1]@.len()),
            decreases d,
        {
            let entry = layers[d][at];
            back.push((entry.node, entry.pos));
            at = entry.parent;
            d -= 1;
        }
        // the walk ran terminus-first
        let path = crate::util::vec_reverse(&back);
        proof {
            if dist >= 1 {
                assert(path@.last() == back@[0]);
            }
        }
        Some(path)
    }
}

fn pos_rank(p: Position) -> u8 {
    match p {
        Position::Head => 0,
        Position::Tail => 1,
    }
}

/// Insert in (node, port) order unless already present.
fn insert_sorted_dedup(v: &mut Vec<(usize, Position)>, x: (usize, Position))
    ensures
        final(v)@.len() <= old(v)@.len() + 1,
        forall|k: int|
            0 <= k < final(v)@.len() ==> (#[trigger] final(v)@[k]) == x || old(v)@.contains(
                final(v)@[k],
            ),
{
    let mut k: usize = 0;
    while k < v.len()
        invariant
            k <= v@.len(),
        decreases v@.len() - k,
    {
        if v[k].0 == x.0 && v[k].1 == x.1 {
            return ;
        }
        if v[k].0 > x.0 || (v[k].0 == x.0 && pos_rank(v[k].1) > pos_rank(x.1)) {
            break ;
        }
        k += 1;
    }
    let ghost pre = v@;
    v.insert(k, x);
    proof {
        assert forall|k2: int| 0 <= k2 < v@.len() implies (#[trigger] v@[k2]) == x || pre.contains(
            v@[k2],
        ) by {
            if k2 < k {
                assert(v@[k2] == pre[k2]);
            } else if k2 > k {
                assert(v@[k2] == pre[k2 - 1]);
            }
        }
    }
}

} // verus!
