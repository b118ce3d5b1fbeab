use haplotyper::align::{align_leading, align_trailing};
use haplotyper::chain::{alignment, get_range, min_chain, ChainNode, LightNode, UnitAlignmentInfo};
use haplotyper::ops::Op;

fn mock_chain_node(rstart: usize, cstart: usize) -> ChainNode {
    ChainNode { contig_index: 0, contig_start: cstart, read_start: rstart, read_index: 0 }
}

#[test]
fn to_test() {
    let s1 = mock_chain_node(0, 0);
    let s2 = mock_chain_node(1, 1);
    let s3 = mock_chain_node(1, 2);
    let s4 = mock_chain_node(2, 1);
    let s5 = mock_chain_node(2, 2);
    assert_eq!(s1.to(&s2), Some(2));
    assert_eq!(s3.to(&s1), None);
    assert_eq!(s4.to(&s2), None);
    assert_eq!(s2.to(&s5), Some(2));
    assert_eq!(s5.to(&s2), None);
}

#[test]
fn seek_ops() {
    let (del, ins, mat, mism) = (Op::Del, Op::Ins, Op::Match, Op::Mismatch);
    let mut ops = vec![del, ins, mat, ins, del, mism, mat, ins, del];
    let start = ChainNode { contig_index: 10, contig_start: 0, read_start: 0, read_index: 1 };
    let (start_range, end_range) = get_range(start, &mut ops);
    assert_eq!(ops, vec![mat, ins, del, mism, mat]);
    assert_eq!(start_range, (2, 11));
    assert_eq!(end_range, (6, 15));
}

fn unit_aln_info((unit, cluster): (u64, u64), direction: bool) -> UnitAlignmentInfo {
    UnitAlignmentInfo::new((unit, cluster), (direction, 0, 0), (0, 0), 0)
}

#[test]
fn test_alignment() {
    let range = (0, 0);
    let query: Vec<_> = vec![
        LightNode::new((0, 0), true, range),
        LightNode::new((1, 0), true, range),
        LightNode::new((2, 0), true, range),
        LightNode::new((3, 1), true, range),
        LightNode::new((4, 0), true, range),
    ];
    let refr = vec![
        unit_aln_info((7, 0), true),
        unit_aln_info((1, 0), true),
        unit_aln_info((2, 1), true),
        unit_aln_info((3, 1), true),
        unit_aln_info((6, 0), true),
    ];
    let ops = alignment(&query, &refr);
    assert_eq!(
        ops,
        vec![Op::Del, Op::Ins, Op::Match, Op::Match, Op::Match, Op::Del, Op::Ins]
    );
}

fn chain_node(read_start: usize, contig_start: usize) -> ChainNode {
    ChainNode { contig_index: 0, contig_start, read_start, read_index: 0 }
}

#[test]
fn min_chain_test() {
    let chain_nodes = vec![
        chain_node(0, 0),
        chain_node(1, 1),
        chain_node(1, 3),
        chain_node(2, 2),
    ];
    let answer = vec![0, 1, 3];
    let indices = min_chain(&chain_nodes);
    assert_eq!(indices, answer);
    let chain_nodes = vec![
        chain_node(0, 0),
        chain_node(0, 5),
        chain_node(1, 1),
        chain_node(1, 6),
        chain_node(1, 10),
        chain_node(2, 2),
        chain_node(2, 10),
        chain_node(3, 11),
    ];
    let answer = vec![1, 3, 6, 7];
    let indices = min_chain(&chain_nodes);
    assert_eq!(indices, answer);
}

#[test]
fn leading_aln_test() {
    let seq = b"AAAAA".to_vec();
    let leading = b"TTTTTTTTAAAAAC".to_vec();
    let (ops, len) = align_leading(&seq, &leading);
    assert_eq!(ops, vec![vec![Op::Match; 5], vec![Op::Del]].concat());
    assert_eq!(len, 6);
}

#[test]
fn trailing_aln_test() {
    let seq = b"AAAAA".to_vec();
    let trailing = b"GAAAAATTTTTTTTTTTTC".to_vec();
    let (ops, len) = align_trailing(&seq, &trailing);
    assert_eq!(ops, vec![vec![Op::Mismatch], vec![Op::Match; 4]].concat());
    assert_eq!(len, 5);
}
