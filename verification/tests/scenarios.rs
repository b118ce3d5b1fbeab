use rand::Rng;
use rand::SeedableRng;
use haplotyper::alignment::Alignment;
use haplotyper::focus::Focus;
use haplotyper::graph::{DitchGraph, Position};
use haplotyper::ops::Op;
use haplotyper::polish::{polish, polish_seg, split_sequences, IdentityPolisher, PolishConfig};
use haplotyper::truncate::TRUNCATE_LEN;

fn matches(n: usize) -> Vec<Op> {
    vec![Op::Match; n]
}

fn full_match_alignment(contig: &str, read_id: u64, seq: &[u8]) -> Alignment {
    Alignment {
        read_id,
        contig: contig.to_string(),
        contig_start: 0,
        contig_end: seq.len(),
        query: seq.to_vec(),
        ops: matches(seq.len()),
        is_forward: true,
    }
}

// A homopolymer run extended past the cap by insertions is truncated to the
// cap, ops and bases together.
#[test]
fn homopolymer_cap() {
    let mut aln = Alignment {
        read_id: 0,
        contig: "tig".to_string(),
        contig_start: 0,
        contig_end: 4,
        query: b"TAAAAAAA".to_vec(),
        ops: vec![
            Op::Match,
            Op::Match,
            Op::Match,
            Op::Match,
            Op::Ins,
            Op::Ins,
            Op::Ins,
            Op::Ins,
        ],
        is_forward: true,
    };
    aln.truncate_long_homopolymers(TRUNCATE_LEN);
    assert_eq!(aln.query, b"TAAAAA".to_vec());
    assert_eq!(
        aln.ops,
        vec![Op::Match, Op::Match, Op::Match, Op::Match, Op::Ins, Op::Ins]
    );
    assert_eq!(aln.contig_start, 0);
    assert_eq!(aln.contig_end, 4);
}

// Zero polishing rounds leave the contig and every alignment untouched.
#[test]
fn polish_no_op() {
    let draft = b"ACGTACGTACGT".to_vec();
    let mut alignments = vec![
        full_match_alignment("tig", 0, &draft),
        full_match_alignment("tig", 1, &draft),
        full_match_alignment("tig", 2, &draft),
    ];
    let config = PolishConfig::new(0, 3, 4, 10, 0);
    let out = polish(&draft, &mut alignments, &IdentityPolisher, &config);
    assert_eq!(out, draft);
    assert_eq!(alignments.len(), 3);
    for aln in alignments.iter() {
        assert_eq!(aln.ops, matches(12));
        assert_eq!(aln.contig_start, 0);
        assert_eq!(aln.contig_end, 12);
    }
}

// One identity round keeps the contig and re-derives all-match alignments.
#[test]
fn polish_identity_round() {
    let draft = b"ACGTACGTACGT".to_vec();
    let mut alignments = vec![
        full_match_alignment("tig", 0, &draft),
        full_match_alignment("tig", 1, &draft),
        full_match_alignment("tig", 2, &draft),
    ];
    let config = PolishConfig::new(0, 3, 4, 10, 1);
    let out = polish(&draft, &mut alignments, &IdentityPolisher, &config);
    assert_eq!(out, draft);
    for aln in alignments.iter() {
        assert_eq!(aln.ops, matches(12));
        assert_eq!(aln.query, draft);
        assert_eq!(aln.contig_start, 0);
        assert_eq!(aln.contig_end, 12);
    }
}

// A read that starts halfway into a window: the leading tip is re-aligned,
// the full window is spliced, and the identity pass reconstructs the
// original op run.
#[test]
fn window_boundary_read() {
    let mut contig: Vec<u8> = Vec::new();
    let bases = b"ACGT";
    for i in 0..108usize {
        contig.push(bases[(i * 7 + i / 4) % 4]);
    }
    let read: Vec<u8> = contig[2..8].to_vec();
    let aln = Alignment {
        read_id: 7,
        contig: "tig".to_string(),
        contig_start: 2,
        contig_end: 8,
        query: read.clone(),
        ops: matches(6),
        is_forward: true,
    };
    let mut alignments = vec![aln];
    let config = PolishConfig::new(0, 3, 4, 10, 1);
    let out = polish(&contig, &mut alignments, &IdentityPolisher, &config);
    assert_eq!(out, contig);
    assert_eq!(alignments[0].contig_start, 2);
    assert_eq!(alignments[0].contig_end, 8);
    assert_eq!(alignments[0].ops, matches(6));
    assert_eq!(alignments[0].query, read);
}

// A query far from the median length is left out of the model's pileup and
// re-aligned afterwards; its ops still span the polished window.
#[test]
fn out_of_band_query() {
    let draft = vec![b'A'; 200];
    let seqs = vec![vec![b'A'; 198], vec![b'A'; 200], vec![b'A'; 202], vec![b'A'; 350]];
    let mut opss: Vec<Vec<Op>> = Vec::new();
    for s in seqs.iter() {
        opss.push(haplotyper::align::global_align(s, &draft));
    }
    // the median is 200 and only the long query falls out of band
    let (_, _, _, in_band) = split_sequences(&seqs, &opss, 200, draft.len());
    assert_eq!(in_band, vec![true, true, true, false]);
    let (polished, out_ops) = polish_seg(&IdentityPolisher, &draft, &seqs, opss, 10);
    assert_eq!(polished, draft);
    let non_ins = out_ops[3].iter().filter(|&&op| op != Op::Ins).count();
    assert_eq!(non_ins, polished.len());
    let non_del = out_ops[3].iter().filter(|&&op| op != Op::Del).count();
    assert_eq!(non_del, 350);
}

fn tandem_graph() -> DitchGraph {
    let mut g = DitchGraph::new();
    let a = g.push_node(0, 0, 2, Some(1));
    let r = g.push_node(1, 0, 4, Some(2));
    let b = g.push_node(2, 0, 2, Some(1));
    g.add_edge(a, Position::Tail, r, Position::Head, 2, Some(1));
    g.add_edge(r, Position::Tail, r, Position::Head, 2, Some(1));
    g.add_edge(r, Position::Tail, b, Position::Head, 2, Some(1));
    g
}

fn node_cp(g: &DitchGraph, i: usize) -> usize {
    g.nodes[i].copy_number.unwrap_or(0)
}

// Applying the tandem-duplication focus peels the repeat into a linear path
// of single-copy nodes, and the copy-number total over the pre-existing
// nodes drops by one less than the path length.
#[test]
fn tandem_dup_rewrite() {
    let mut g = tandem_graph();
    let before: usize = (0..3).map(|i| node_cp(&g, i)).sum();
    let focus = Focus {
        from: 0,
        from_position: Position::Tail,
        to: 2,
        to_position: Position::Head,
        dist: 3,
        counts: vec![2, 2, 2],
        path: vec![(1, Position::Head), (1, Position::Head), (2, Position::Head)],
    };
    let done = g.survey_focus(&focus);
    assert!(done);
    // the repeat node emptied and was tombstoned; two fresh copies carry it
    assert_eq!(g.nodes.len(), 5);
    assert!(g.nodes[1].deleted);
    let after_old: usize = (0..3).map(|i| node_cp(&g, i)).sum();
    assert_eq!(after_old, before - 2);
    for i in [0usize, 2, 3, 4] {
        assert_eq!(node_cp(&g, i), 1);
        assert!(!g.nodes[i].deleted);
    }
    // the peeled path runs origin, first copy, second copy, terminus
    assert!(g.nodes[0].edges.iter().any(|e| e.to == 3 && e.copy_number == Some(1)));
    assert!(g.nodes[3].edges.iter().any(|e| e.to == 4 && e.copy_number == Some(1)));
    assert!(g.nodes[4].edges.iter().any(|e| e.to == 2 && e.copy_number == Some(1)));
}

// A linear all-single-copy graph offers no focus entry at all.
#[test]
fn no_branch_skip() {
    let mut g = DitchGraph::new();
    let a = g.push_node(0, 0, 1, Some(1));
    let b = g.push_node(1, 0, 1, Some(1));
    let c = g.push_node(2, 0, 1, Some(1));
    g.add_edge(a, Position::Tail, b, Position::Head, 1, Some(1));
    g.add_edge(b, Position::Tail, c, Position::Head, 1, Some(1));
    assert!(g.focus_entries().is_empty());
}

// A stale focus is skipped and the graph left alone.
#[test]
fn stale_focus_skipped() {
    let mut g = tandem_graph();
    let focus = Focus {
        from: 0,
        from_position: Position::Tail,
        to: 2,
        to_position: Position::Head,
        dist: 3,
        counts: vec![],
        path: vec![(1, Position::Tail), (1, Position::Tail), (2, Position::Tail)],
    };
    let done = g.survey_focus(&focus);
    assert!(!done);
    assert_eq!(g.nodes.len(), 3);
    assert_eq!(node_cp(&g, 1), 2);
}

// With a fixed seed the sampling stream, and so every chain pick, repeats
// exactly across runs.
#[test]
fn fixed_seed_determinism() {
    let mut a: rand_xoshiro::Xoroshiro128PlusPlus = SeedableRng::seed_from_u64(42);
    let mut b: rand_xoshiro::Xoroshiro128PlusPlus = SeedableRng::seed_from_u64(42);
    for _ in 0..100 {
        let x: u64 = a.gen();
        let y: u64 = b.gen();
        assert_eq!(x, y);
    }
    // and the chain scorer itself is a pure function
    let nodes = vec![
        haplotyper::chain::ChainNode { contig_index: 0, contig_start: 0, read_start: 0, read_index: 0 },
        haplotyper::chain::ChainNode { contig_index: 1, contig_start: 5, read_start: 3, read_index: 1 },
    ];
    assert_eq!(haplotyper::chain::min_chain(&nodes), haplotyper::chain::min_chain(&nodes));
}

// A window with fewer pileup rows than the coverage floor keeps its draft.
#[test]
fn low_coverage_window_kept() {
    let draft = b"ACGTACGTACGTACGT".to_vec();
    let aln = full_match_alignment("tig", 0, &draft);
    let mut alignments = vec![aln];
    let config = PolishConfig::new(0, 3, 4, 10, 2);
    let out = polish(&draft, &mut alignments, &IdentityPolisher, &config);
    assert_eq!(out, draft);
    assert!(alignments[0].ops.iter().filter(|&&op| op != Op::Ins).count()
        == alignments[0].contig_end - alignments[0].contig_start);
}

// An empty read set polishes to the draft itself.
#[test]
fn empty_read_set() {
    let draft = b"ACGT".to_vec();
    let mut alignments: Vec<Alignment> = Vec::new();
    let config = PolishConfig::default();
    let out = polish(&draft, &mut alignments, &IdentityPolisher, &config);
    assert_eq!(out, draft);
}

fn unit_read(id: u64, units: &[u64]) -> haplotyper::reads::EncodedRead {
    haplotyper::reads::EncodedRead {
        id,
        original_length: 0,
        nodes: units
            .iter()
            .map(|&u| haplotyper::reads::ReadNode {
                unit: u,
                cluster: 0,
                is_forward: true,
                position_from_start: 0,
                seq: Vec::new(),
                cigar: Vec::new(),
            })
            .collect(),
    }
}

// The layered traversal of the tandem graph: read support accumulates per
// distance and the max-weight walk recovers the through-the-repeat path.
#[test]
fn tandem_traversal_layers() {
    let g = tandem_graph();
    let reads = vec![
        unit_read(0, &[0, 1, 1, 2]),
        unit_read(1, &[0, 1, 1, 2]),
        unit_read(2, &[0, 1]),
        unit_read(3, &[0, 1]),
        unit_read(4, &[1, 2]),
    ];
    let layers = g.traverse(&reads, 0, Position::Tail, 1);
    assert_eq!(layers.len(), 4);
    // distance one: the repeat node, seen by every read that holds the start
    assert_eq!(layers[1].len(), 1);
    assert_eq!(layers[1][0].node, 1);
    assert_eq!(layers[1][0].count, 4);
    // distance three: the terminus carries the spanning support
    let counts: Vec<usize> = layers[3].iter().map(|t| t.count).collect();
    assert_eq!(counts, vec![0, 2]);
    let path = DitchGraph::trackback(&layers, 3, (2, Position::Head)).unwrap();
    assert_eq!(
        path,
        vec![(1, Position::Head), (1, Position::Head), (2, Position::Head)]
    );
}

// The survey driver applies a qualifying focus once and skips a second
// focus whose path the rewrite already touched.
#[test]
fn survey_order_and_affected() {
    let mut g = tandem_graph();
    let focus = Focus {
        from: 0,
        from_position: Position::Tail,
        to: 2,
        to_position: Position::Head,
        dist: 3,
        counts: vec![0, 2],
        path: vec![(1, Position::Head), (1, Position::Head), (2, Position::Head)],
    };
    let again = Focus { counts: vec![0, 2], ..focus.clone() };
    let solved = g.survey_foci(&vec![focus, again]);
    assert_eq!(solved, 1);
}

// A path whose edge key is held by two parallel records is not in the
// canonical merged form, and the rewrite refuses it untouched.
#[test]
fn parallel_records_rejected() {
    let mut g = tandem_graph();
    // a second record for the origin's only key
    g.add_edge(0, Position::Tail, 1, Position::Head, 2, Some(1));
    let focus = Focus {
        from: 0,
        from_position: Position::Tail,
        to: 2,
        to_position: Position::Head,
        dist: 3,
        counts: vec![2, 2, 2],
        path: vec![(1, Position::Head), (1, Position::Head), (2, Position::Head)],
    };
    let before = g.nodes.clone();
    assert!(g.duplicate_along(&focus).is_none());
    assert_eq!(g.nodes.len(), before.len());
    for (a, b) in g.nodes.iter().zip(before.iter()) {
        assert_eq!(a.copy_number, b.copy_number);
        assert_eq!(a.edges.len(), b.edges.len());
    }
}
