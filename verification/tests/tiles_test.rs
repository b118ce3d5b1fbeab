use haplotyper::chain::{enumerate_chain, ln_ceil, ContigEncoding, UnitAlignmentInfo};
use haplotyper::ops::Op;
use haplotyper::polish::within_range;
use haplotyper::reads::{CigarOp, EncodedRead, ReadNode, Segment};
use haplotyper::tiles::{base_pair_alignment, convert_into_tiles, revcmp};

fn one_tile_encoding(id: &str, unit: u64, len: usize) -> ContigEncoding {
    ContigEncoding {
        id: id.to_string(),
        tiles: vec![UnitAlignmentInfo::new((unit, 0), (true, 0, len), (0, len), len)],
    }
}

fn perfect_read(id: u64, unit: u64, seq: &[u8]) -> EncodedRead {
    EncodedRead {
        id,
        original_length: seq.len(),
        nodes: vec![ReadNode {
            unit,
            cluster: 0,
            is_forward: true,
            position_from_start: 0,
            seq: seq.to_vec(),
            cigar: vec![CigarOp::Match(seq.len())],
        }],
    }
}

// A read that covers one tile exactly renders into an all-match alignment
// over the whole contig.
#[test]
fn render_single_tile_chain() {
    let contig = b"ACGTACGT".to_vec();
    let seg = Segment { sid: "tig".to_string(), sequence: contig.clone() };
    let enc = one_tile_encoding("tig", 0, 8);
    let read = perfect_read(0, 0, &contig);
    let chains = enumerate_chain(&read, &vec![enc.clone()]);
    assert!(!chains.is_empty());
    let chain = &chains[0];
    let aln = base_pair_alignment(&read, &contig, chain, &seg, &enc).unwrap();
    assert_eq!(aln.contig_start, 0);
    assert_eq!(aln.contig_end, 8);
    assert_eq!(aln.query, contig);
    assert_eq!(aln.ops, vec![Op::Match; 8]);
}

// A node whose internal alignment disagrees with its tile's unit length is
// malformed input and renders nothing.
#[test]
fn malformed_tile_rejected() {
    let contig = b"ACGTACGT".to_vec();
    let enc = one_tile_encoding("tig", 0, 8);
    let mut read = perfect_read(0, 0, &contig);
    // the alignment claims a shorter unit than the tile
    read.nodes[0].cigar = vec![CigarOp::Match(4), CigarOp::Ins(4)];
    let chains = enumerate_chain(&read, &vec![enc.clone()]);
    assert!(!chains.is_empty());
    let tiles = convert_into_tiles(&read, &chains[0], &enc, 8);
    assert!(tiles.is_none());
}

#[test]
fn reverse_complement_round_trip() {
    let seq = b"ACGTTGCAN".to_vec();
    let rc = revcmp(&seq);
    assert_eq!(rc, b"NTGCAACGT".to_vec());
    assert_eq!(revcmp(&rc), seq);
}

// The chaining gap penalty is the rounded-up natural logarithm.
#[test]
fn gap_penalty_values() {
    assert_eq!(ln_ceil(1), 0);
    assert_eq!(ln_ceil(2), 1);
    assert_eq!(ln_ceil(3), 2);
    assert_eq!(ln_ceil(7), 2);
    assert_eq!(ln_ceil(8), 3);
    assert_eq!(ln_ceil(20), 3);
    assert_eq!(ln_ceil(21), 4);
    assert_eq!(ln_ceil(22026), 10);
    assert_eq!(ln_ceil(22027), 11);
}

// The in-band test is a strict twenty-percent bound.
#[test]
fn within_range_formula() {
    assert!(within_range(200, 239));
    assert!(!within_range(200, 240));
    assert!(within_range(200, 161));
    assert!(!within_range(200, 160));
    assert!(!within_range(0, 0));
    assert!(within_range(5, 5));
}
