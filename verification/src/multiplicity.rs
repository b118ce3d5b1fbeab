//! Purging over-represented units: chunks at or above a copy-number ceiling
//! leave the chunk set, and every read drops the nodes that named them.

use crate::graph::cp_of;
use crate::reads::EncodedRead;
use vstd::prelude::*;

verus! {

/// One selected chunk with its estimated copy number.
#[derive(Debug, Clone, Copy, PartialEq, Eq, Structural)]
pub struct Chunk {
    pub id: u64,
    pub copy_num: usize,
    pub cluster_num: usize,
}

/// Whether some chunk names this unit with a copy number at the ceiling.
pub open spec fn unit_purged(chunks: Seq<Chunk>, upper: int, u: u64) -> bool {
    exists|t: int| 0 <= t < chunks.len() && (#[trigger] chunks[t]).id == u && chunks[t].copy_num >= upper
}

/// Remove every chunk whose copy number reaches `upper` (keeping the rest
/// in order), drop each read's nodes that named a removed chunk, and drop
/// the reads that emptied.
pub fn purge_multiplicity(chunks: &mut Vec<Chunk>, reads: &mut Vec<EncodedRead>, upper: usize)
    ensures
        final(chunks)@ == old(chunks)@.filter(|c: Chunk| c.copy_num < upper),
        forall|i: int|
            0 <= i < final(chunks)@.len() ==> (#[trigger] final(chunks)@[i]).copy_num < upper,
        final(chunks)@.len() <= old(chunks)@.len(),
        forall|i: int| 0 <= i < final(reads)@.len() ==> (#[trigger] final(reads)@[i]).nodes@.len()
            > 0,
        forall|i: int, j: int|
            0 <= i < final(reads)@.len() && 0 <= j < final(reads)@[i].nodes@.len()
                ==> !unit_purged(
                old(chunks)@,
                upper as int,
                (#[trigger] final(reads)@[i].nodes@[j]).unit,
            ),
{
    reveal(Seq::filter);
    let ghost pred = |c: Chunk| c.copy_num < upper;
    let mut to_remove: Vec<u64> = Vec::new();
    let mut k: usize = 0;
    while k < chunks.len()
        invariant
            k <= chunks@.len(),
            chunks@ == old(chunks)@,
            forall|u: u64|
                to_remove@.contains(u) ==> unit_purged(chunks@, upper as int, u),
            forall|t: int|
                0 <= t < k && (#[trigger] chunks@[t]).copy_num >= upper ==> to_remove@.contains(
                    chunks@[t].id,
                ),
        decreases chunks@.len() - k,
    {
        if chunks[k].copy_num >= upper {
            let ghost pre = to_remove@;
            to_remove.push(chunks[k].id);
            proof {
                assert(to_remove@.last() == chunks@[k as int].id);
                assert forall|u: u64| to_remove@.contains(u) implies unit_purged(
                    chunks@,
                    upper as int,
                    u,
                ) by {
                    let w = choose|w: int| 0 <= w < to_remove@.len() && to_remove@[w] == u;
                    if w < pre.len() {
                        assert(pre.contains(u));
                    } else {
                        assert(chunks@[k as int].id == u && chunks@[k as int].copy_num >= upper);
                    }
                }
                assert forall|t: int|
                    0 <= t < k + 1 && (#[trigger] chunks@[t]).copy_num >= upper implies
                    to_remove@.contains(chunks@[t].id) by {
                    if t < k {
                        assert(pre.contains(chunks@[t].id));
                        let w = choose|w: int| 0 <= w < pre.len() && pre[w] == chunks@[t].id;
                        assert(to_remove@[w] == chunks@[t].id);
                    } else {
                        assert(to_remove@.last() == chunks@[t].id);
                    }
                }
            }
        }
        k += 1;
    }
    let mut kept: Vec<Chunk> = Vec::new();
    proof {
        assert(chunks@.subrange(0, 0) =~= Seq::<Chunk>::empty());
        assert(kept@ =~= chunks@.subrange(0, 0).filter(pred));
    }
    let mut k2: usize = 0;
    while k2 < chunks.len()
        invariant
            k2 <= chunks@.len(),
            chunks@ == old(chunks)@,
            kept@ == chunks@.subrange(0, k2 as int).filter(|c: Chunk| c.copy_num < upper),
            kept@.len() <= k2,
            forall|i: int| 0 <= i < kept@.len() ==> (#[trigger] kept@[i]).copy_num < upper,
        decreases chunks@.len() - k2,
    {
        proof {
            reveal(Seq::filter);
            assert(chunks@.subrange(0, k2 + 1 as int).drop_last() =~= chunks@.subrange(
                0,
                k2 as int,
            ));
            assert(chunks@.subrange(0, k2 + 1 as int).last() == chunks@[k2 as int]);
        }
        if chunks[k2].copy_num < upper {
            kept.push(chunks[k2]);
        }
        k2 += 1;
    }
    proof {
        reveal(Seq::filter);
        assert(chunks@.subrange(0, chunks@.len() as int) =~= chunks@);
    }
    *chunks = kept;
    let ghost removed_iff_old = old(chunks)@;
    let mut new_reads: Vec<EncodedRead> = Vec::new();
    while reads.len() > 0
        invariant
            forall|u: u64|
                to_remove@.contains(u) ==> unit_purged(removed_iff_old, upper as int, u),
            forall|t: int|
                0 <= t < removed_iff_old.len() && (#[trigger] removed_iff_old[t]).copy_num
                    >= upper ==> to_remove@.contains(removed_iff_old[t].id),
            forall|i: int|
                0 <= i < new_reads@.len() ==> (#[trigger] new_reads@[i]).nodes@.len() > 0,
            forall|i: int, j: int|
                0 <= i < new_reads@.len() && 0 <= j < new_reads@[i].nodes@.len() ==> !unit_purged(
                    removed_iff_old,
                    upper as int,
                    (#[trigger] new_reads@[i].nodes@[j]).unit,
                ),
        decreases reads@.len(),
    {
        let mut read = reads.pop().unwrap();
        let mut kept_nodes: Vec<crate::reads::ReadNode> = Vec::new();
        while read.nodes.len() > 0
            invariant
                forall|u: u64|
                    to_remove@.contains(u) ==> unit_purged(removed_iff_old, upper as int, u),
                forall|t: int|
                    0 <= t < removed_iff_old.len() && (#[trigger] removed_iff_old[t]).copy_num
                        >= upper ==> to_remove@.contains(removed_iff_old[t].id),
                forall|j: int|
                    0 <= j < kept_nodes@.len() ==> !unit_purged(
                        removed_iff_old,
                        upper as int,
                        (#[trigger] kept_nodes@[j]).unit,
                    ),
            decreases read.nodes@.len(),
        {
            let node = read.nodes.pop().unwrap();
            if !contains_u64(&to_remove, node.unit) {
                proof {
                    assert(!unit_purged(removed_iff_old, upper as int, node.unit)) by {
                        if unit_purged(removed_iff_old, upper as int, node.unit) {
                            let t = choose|t: int|
                                0 <= t < removed_iff_old.len() && (#[trigger] removed_iff_old[t]).id
                                    == node.unit && removed_iff_old[t].copy_num >= upper;
                            assert(to_remove@.contains(removed_iff_old[t].id));
                        }
                    }
                }
                kept_nodes.push(node);
            }
        }
        // the pops walked backwards; restore the original order
        let mut ordered: Vec<crate::reads::ReadNode> = Vec::new();
        while kept_nodes.len() > 0
            invariant
                forall|j: int|
                    0 <= j < kept_nodes@.len() ==> !unit_purged(
                        removed_iff_old,
                        upper as int,
                        (#[trigger] kept_nodes@[j]).unit,
                    ),
                forall|j: int|
                    0 <= j < ordered@.len() ==> !unit_purged(
                        removed_iff_old,
                        upper as int,
                        (#[trigger] ordered@[j]).unit,
                    ),
            decreases kept_nodes@.len(),
        {
            ordered.push(kept_nodes.pop().unwrap());
        }
        read.nodes = ordered;
        if read.nodes.len() > 0 {
            new_reads.push(read);
        }
    }
    // the outer pops walked backwards too
    let mut ordered_reads: Vec<EncodedRead> = Vec::new();
    while new_reads.len() > 0
        invariant
            forall|i: int|
                0 <= i < new_reads@.len() ==> (#[trigger] new_reads@[i]).nodes@.len() > 0,
            forall|i: int|
                0 <= i < ordered_reads@.len() ==> (#[trigger] ordered_reads@[i]).nodes@.len() > 0,
            forall|i: int, j: int|
                0 <= i < new_reads@.len() && 0 <= j < new_reads@[i].nodes@.len() ==> !unit_purged(
                    removed_iff_old,
                    upper as int,
                    (#[trigger] new_reads@[i].nodes@[j]).unit,
                ),
            forall|i: int, j: int|
                0 <= i < ordered_reads@.len() && 0 <= j < ordered_reads@[i].nodes@.len()
                    ==> !unit_purged(
                    removed_iff_old,
                    upper as int,
                    (#[trigger] ordered_reads@[i].nodes@[j]).unit,
                ),
        decreases new_reads@.len(),
    {
        let r = new_reads.pop().unwrap();
        ordered_reads.push(r);
    }
    *reads = ordered_reads;
}

/// Whether a unit id is listed.
pub fn contains_u64(v: &Vec<u64>, x: u64) -> (r: bool)
    ensures
        r <==> v@.contains(x),
{
    let mut k: usize = 0;
    while k < v.len()
        invariant
            k <= v@.len(),
            forall|j: int| 0 <= j < k ==> v@[j] != x,
        decreases v@.len() - k,
    {
        if v[k] == x {
            return true;
        }
        k += 1;
    }
    false
}

/// Total copy number of the live graph nodes labelled with one unit.
pub open spec fn unit_cp_total(nodes: Seq<crate::graph::DitchNode>, unit: u64) -> int
    decreases nodes.len(),
{
    if nodes.len() == 0 {
        0
    } else {
        unit_cp_total(nodes.drop_last(), unit) + if !nodes.last().deleted && nodes.last().unit
            == unit {
            cp_of(nodes.last().copy_number)
        } else {
            0
        }
    }
}

proof fn lemma_unit_cp_total_nonneg(nodes: Seq<crate::graph::DitchNode>, unit: u64)
    ensures
        unit_cp_total(nodes, unit) >= 0,
    decreases nodes.len(),
{
    if nodes.len() > 0 {
        lemma_unit_cp_total_nonneg(nodes.drop_last(), unit);
    }
}

/// What a chunk's copy number becomes: the unit's live total, clipped to
/// the machine and floored at one.
pub open spec fn chunk_cp_spec(g: &crate::graph::DitchGraph, unit: u64) -> int {
    let t = unit_cp_total(g.nodes@, unit);
    if t == 0 {
        1
    } else if t <= usize::MAX {
        t
    } else {
        usize::MAX as int
    }
}

/// Aggregate graph copy numbers onto chunks: each chunk takes the total
/// copy number of the live graph nodes labelled with its unit, floored at
/// one.
#[verifier::loop_isolation(false)]
pub fn assign_chunk_copy_numbers(chunks: &mut Vec<Chunk>, graph: &crate::graph::DitchGraph)
    requires
        graph.wf(),
    ensures
        final(chunks)@.len() == old(chunks)@.len(),
        forall|i: int|
            0 <= i < final(chunks)@.len() ==> (#[trigger] final(chunks)@[i]).id == old(chunks)@[i].id && final(chunks)@[i].cluster_num == old(chunks)@[i].cluster_num && final(chunks)@[i].copy_num == chunk_cp_spec(graph, old(chunks)@[i].id),
        forall|i: int| 0 <= i < final(chunks)@.len() ==> (#[trigger] final(chunks)@[i]).copy_num
            >= 1,
{
    let mut out: Vec<Chunk> = Vec::new();
    let ghost orig = chunks@;
    let mut k: usize = 0;
    while k < chunks.len()
        invariant
            k <= chunks@.len(),
            chunks@ == orig,
            out@.len() == k,
            forall|i: int|
                0 <= i < out@.len() ==> (#[trigger] out@[i]).id == orig[i].id && out@[i].cluster_num
                    == orig[i].cluster_num && out@[i].copy_num == chunk_cp_spec(graph, orig[i].id),
            forall|i: int| 0 <= i < out@.len() ==> (#[trigger] out@[i]).copy_num >= 1,
        decreases chunks@.len() - k,
    {
        let unit = chunks[k].id;
        let mut total: usize = 0;
        let mut v: usize = 0;
        proof {
            assert(graph.nodes@.subrange(0, 0) =~= Seq::<crate::graph::DitchNode>::empty());
        }
        while v < graph.nodes.len()
            invariant
                v <= graph.nodes@.len(),
                k < chunks@.len(),
                unit == orig[k as int].id,
                total as int == ({
                    let t = unit_cp_total(graph.nodes@.subrange(0, v as int), unit);
                    if t <= usize::MAX {
                        t
                    } else {
                        usize::MAX as int
                    }
                }),
            decreases graph.nodes@.len() - v,
        {
            proof {
                assert(graph.nodes@.subrange(0, v + 1 as int).drop_last() =~= graph.nodes@.subrange(
                    0,
                    v as int,
                ));
                lemma_unit_cp_total_nonneg(graph.nodes@.subrange(0, v as int), unit);
            }
            if !graph.is_deleted(v) && graph.nodes[v].unit == unit {
                match graph.node_copy_number(v) {
                    Some(c) => {
                        if total > usize::MAX - c {
                            total = usize::MAX;
                        } else {
                            total += c;
                        }
                    },
                    None => {},
                }
            }
            v += 1;
        }
        proof {
            assert(graph.nodes@.subrange(0, graph.nodes@.len() as int) =~= graph.nodes@);
        }
        let cp = if total == 0 {
            1
        } else {
            total
        };
        out.push(Chunk { id: unit, copy_num: cp, cluster_num: chunks[k].cluster_num });
        k += 1;
    }
    *chunks = out;
}

} // verus!
