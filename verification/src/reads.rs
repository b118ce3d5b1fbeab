//! Encoded reads and contig drafts: the plain-value inputs both core loops
//! consume.

use vstd::prelude::*;

verus! {

/// One run-length operation of a node's internal alignment to its unit.
#[derive(Debug, Clone, Copy, PartialEq, Eq, Structural)]
pub enum CigarOp {
    Match(usize),
    Ins(usize),
    Del(usize),
}

/// One read tile: a unit hit with its cluster, orientation, placement on the
/// raw read, bases, and internal alignment.
#[derive(Debug, Clone)]
pub struct ReadNode {
    pub unit: u64,
    pub cluster: u64,
    pub is_forward: bool,
    pub position_from_start: usize,
    pub seq: Vec<u8>,
    pub cigar: Vec<CigarOp>,
}

impl ReadNode {
    /// Number of raw read bases this tile covers.
    pub fn query_length(&self) -> (r: usize)
        ensures
            r == self.seq@.len(),
    {
        self.seq.len()
    }
}

/// A read as a sequence of unit hits.
#[derive(Debug, Clone)]
pub struct EncodedRead {
    pub id: u64,
    pub original_length: usize,
    pub nodes: Vec<ReadNode>,
}

/// A draft contig: an id and its bases.
#[derive(Debug, Clone)]
pub struct Segment {
    pub sid: String,
    pub sequence: Vec<u8>,
}

} // verus!
