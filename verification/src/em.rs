//! Clustering-correction interfaces: the configuration and the per-read
//! context the expectation-maximization engine consumes. The engine itself
//! works in floating point and sits with the caller.

use crate::reads::EncodedRead;
use vstd::prelude::*;

verus! {

#[derive(Debug, Clone)]
pub struct Config {
    pub repeat_num: usize,
    pub seed: u64,
    pub cluster_num: usize,
    pub coverage_thr: usize,
    pub focal: u64,
}

impl Config {
    pub fn new(repeat_num: usize, seed: u64, cluster_num: usize, focal: u64, coverage: usize) -> (r:
        Config)
        ensures
            r.repeat_num == repeat_num,
            r.seed == seed,
            r.cluster_num == cluster_num,
            r.focal == focal,
            r.coverage_thr == coverage,
    {
        Config { repeat_num, seed, cluster_num, focal, coverage_thr: coverage }
    }
}

/// The unit runs of `nodes[from..to)`, walked left to right, filtered to the
/// units in use.
pub open spec fn units_ahead(
    nodes: Seq<crate::reads::ReadNode>,
    from: int,
    to: int,
    use_units: Seq<u64>,
) -> Seq<(u64, u64)>
    decreases to - from,
{
    if from >= to || from < 0 || to > nodes.len() {
        Seq::empty()
    } else {
        let rest = units_ahead(nodes, from + 1, to, use_units);
        if use_units.contains(nodes[from].unit) {
            seq![(nodes[from].unit, nodes[from].cluster)] + rest
        } else {
            rest
        }
    }
}

/// The unit runs of `nodes[lo..hi)`, walked right to left, filtered to the
/// units in use.
pub open spec fn units_behind(
    nodes: Seq<crate::reads::ReadNode>,
    hi: int,
    lo: int,
    use_units: Seq<u64>,
) -> Seq<(u64, u64)>
    decreases hi - lo,
{
    if hi <= lo || lo < 0 || hi > nodes.len() {
        Seq::empty()
    } else {
        let rest = units_behind(nodes, hi - 1, lo, use_units);
        if use_units.contains(nodes[hi - 1].unit) {
            seq![(nodes[hi - 1].unit, nodes[hi - 1].cluster)] + rest
        } else {
            rest
        }
    }
}

proof fn lemma_units_ahead_snoc(
    nodes: Seq<crate::reads::ReadNode>,
    from: int,
    to: int,
    use_units: Seq<u64>,
)
    requires
        0 <= from <= to < nodes.len(),
    ensures
        units_ahead(nodes, from, to + 1, use_units) == if use_units.contains(nodes[to].unit) {
            units_ahead(nodes, from, to, use_units).push((nodes[to].unit, nodes[to].cluster))
        } else {
            units_ahead(nodes, from, to, use_units)
        },
    decreases to - from,
{
    if from < to {
        lemma_units_ahead_snoc(nodes, from + 1, to, use_units);
        if use_units.contains(nodes[to].unit) && use_units.contains(nodes[from].unit) {
            assert(seq![(nodes[from].unit, nodes[from].cluster)] + units_ahead(
                nodes,
                from + 1,
                to,
                use_units,
            ).push((nodes[to].unit, nodes[to].cluster)) =~= (seq![
                (nodes[from].unit, nodes[from].cluster),
            ] + units_ahead(nodes, from + 1, to, use_units)).push(
                (nodes[to].unit, nodes[to].cluster),
            ));
        }
    } else {
        assert(units_ahead(nodes, from, to, use_units) =~= Seq::<(u64, u64)>::empty());
        assert(units_ahead(nodes, from + 1, to + 1, use_units) =~= Seq::<(u64, u64)>::empty());
        if use_units.contains(nodes[to].unit) {
            assert(units_ahead(nodes, from, to + 1, use_units) =~= seq![
                (nodes[to].unit, nodes[to].cluster),
            ]);
            assert(Seq::<(u64, u64)>::empty().push((nodes[to].unit, nodes[to].cluster)) =~= seq![
                (nodes[to].unit, nodes[to].cluster),
            ]);
        } else {
            assert(units_ahead(nodes, from, to + 1, use_units) =~= Seq::<(u64, u64)>::empty());
        }
    }
}

proof fn lemma_units_behind_snoc(
    nodes: Seq<crate::reads::ReadNode>,
    hi: int,
    lo: int,
    use_units: Seq<u64>,
)
    requires
        0 < lo <= hi <= nodes.len(),
    ensures
        units_behind(nodes, hi, lo - 1, use_units) == if use_units.contains(nodes[lo - 1].unit) {
            units_behind(nodes, hi, lo, use_units).push(
                (nodes[lo - 1].unit, nodes[lo - 1].cluster),
            )
        } else {
            units_behind(nodes, hi, lo, use_units)
        },
    decreases hi - lo,
{
    if lo < hi {
        lemma_units_behind_snoc(nodes, hi - 1, lo, use_units);
        if use_units.contains(nodes[lo - 1].unit) && use_units.contains(nodes[hi - 1].unit) {
            assert(seq![(nodes[hi - 1].unit, nodes[hi - 1].cluster)] + units_behind(
                nodes,
                hi - 1,
                lo,
                use_units,
            ).push((nodes[lo - 1].unit, nodes[lo - 1].cluster)) =~= (seq![
                (nodes[hi - 1].unit, nodes[hi - 1].cluster),
            ] + units_behind(nodes, hi - 1, lo, use_units)).push(
                (nodes[lo - 1].unit, nodes[lo - 1].cluster),
            ));
        }
    } else {
        assert(units_behind(nodes, hi, lo, use_units) =~= Seq::<(u64, u64)>::empty());
        assert(units_behind(nodes, hi - 1, lo - 1, use_units) =~= Seq::<(u64, u64)>::empty());
        if use_units.contains(nodes[lo - 1].unit) {
            assert(units_behind(nodes, hi, lo - 1, use_units) =~= seq![
                (nodes[lo - 1].unit, nodes[lo - 1].cluster),
            ]);
            assert(Seq::<(u64, u64)>::empty().push((nodes[lo - 1].unit, nodes[lo - 1].cluster))
                =~= seq![(nodes[lo - 1].unit, nodes[lo - 1].cluster)]);
        } else {
            assert(units_behind(nodes, hi, lo - 1, use_units) =~= Seq::<(u64, u64)>::empty());
        }
    }
}

/// One occurrence of the focal unit on a read, with the unit runs seen
/// before and after it, walked away from the occurrence on the read's own
/// strand.
#[derive(Debug, Clone)]
pub struct Context {
    pub id: u64,
    pub index: usize,
    pub unit: u64,
    pub cluster: u64,
    pub forward: Vec<(u64, u64)>,
    pub backward: Vec<(u64, u64)>,
}

impl Context {
    pub fn with_attrs(
        id: u64,
        index: usize,
        unit: u64,
        cluster: u64,
        forward: Vec<(u64, u64)>,
        backward: Vec<(u64, u64)>,
    ) -> (r: Context)
        ensures
            r.id == id,
            r.index == index,
            r.unit == unit,
            r.cluster == cluster,
            r.forward == forward,
            r.backward == backward,
    {
        Context { id, index, unit, cluster, forward, backward }
    }

    /// Extract the context of one node of a read: the runs after and before
    /// the node, filtered to the units in use, swapped when the node lies on
    /// the reverse strand.
    #[verifier::loop_isolation(false)]
    pub fn new(read: &EncodedRead, index: usize, use_units: &Vec<u64>) -> (r: Context)
        requires
            index < read.nodes@.len(),
        ensures
            r.id == read.id,
            r.index == index,
            r.unit == read.nodes@[index as int].unit,
            r.cluster == read.nodes@[index as int].cluster,
            read.nodes@[index as int].is_forward ==> r.forward@ == units_ahead(
                read.nodes@,
                index + 1,
                read.nodes@.len() as int,
                use_units@,
            ) && r.backward@ == units_behind(read.nodes@, index as int, 0, use_units@),
            !read.nodes@[index as int].is_forward ==> r.backward@ == units_ahead(
                read.nodes@,
                index + 1,
                read.nodes@.len() as int,
                use_units@,
            ) && r.forward@ == units_behind(read.nodes@, index as int, 0, use_units@),
    {
        let unit = read.nodes[index].unit;
        let cluster = read.nodes[index].cluster;
        let mut forward: Vec<(u64, u64)> = Vec::new();
        let n_len = read.nodes.len();
        let mut k: usize = index + 1;
        proof {
            assert(units_ahead(read.nodes@, index + 1, index + 1, use_units@)
                =~= Seq::<(u64, u64)>::empty());
        }
        while k < n_len
            invariant
                index + 1 <= k <= n_len,
                forward@ == units_ahead(read.nodes@, index + 1, k as int, use_units@),
            decreases n_len - k,
        {
            let n = &read.nodes[k];
            proof {
                lemma_units_ahead_snoc(read.nodes@, index + 1, k as int, use_units@);
            }
            if crate::em::unit_in(use_units, n.unit) {
                forward.push((n.unit, n.cluster));
            }
            k += 1;
        }
        let mut backward: Vec<(u64, u64)> = Vec::new();
        let mut j: usize = index;
        proof {
            assert(units_behind(read.nodes@, index as int, index as int, use_units@)
                =~= Seq::<(u64, u64)>::empty());
        }
        while j > 0
            invariant
                j <= index,
                backward@ == units_behind(read.nodes@, index as int, j as int, use_units@),
            decreases j,
        {
            proof {
                lemma_units_behind_snoc(read.nodes@, index as int, j as int, use_units@);
            }
            j -= 1;
            let n = &read.nodes[j];
            if crate::em::unit_in(use_units, n.unit) {
                backward.push((n.unit, n.cluster));
            }
        }
        if read.nodes[index].is_forward {
            Context { id: read.id, index, unit, cluster, forward, backward }
        } else {
            Context { id: read.id, index, unit, cluster, forward: backward, backward: forward }
        }
    }
}

/// Whether a unit id is among those in use.
pub fn unit_in(units: &Vec<u64>, x: u64) -> (r: bool)
    ensures
        r <==> units@.contains(x),
{
    let mut k: usize = 0;
    while k < units.len()
        invariant
            k <= units@.len(),
            forall|j: int| 0 <= j < k ==> units@[j] != x,
        decreases units@.len() - k,
    {
        if units[k] == x {
            return true;
        }
        k += 1;
    }
    false
}

} // verus!
