//! Haplotype-resolved assembly core: repeat resolution on a bidirected
//! assembly graph, and windowed consensus polishing of draft contigs.
//!
//! The graph side models contigs as an arena of two-port nodes with integer
//! copy numbers; a focus names a path from a unique node through a repeat,
//! and applying it peels one copy off the path while conserving the
//! copy-number totals. The consensus side places encoded reads onto contigs
//! by minimum-cost chaining, cuts every alignment into contig windows,
//! polishes each window against its pileup behind a substitutable model, and
//! stitches the alignments back so that their two length invariants hold at
//! every step: the ops that consume contig bases span exactly the contig
//! range, and the ops that consume query bases spell exactly the query.
//!
//! Likelihood scoring, clustering and weighted sampling work in floating
//! point and live with the caller; the library hands them integer traversal
//! layers, contexts and scores, and takes back plain choices.

pub mod align;
pub mod alignment;
pub mod chain;
pub mod em;
pub mod focus;
pub mod graph;
pub mod multiplicity;
pub mod ops;
pub mod polish;
pub mod reads;
pub mod splitjoin;
pub mod tiles;
pub mod truncate;
pub mod util;
