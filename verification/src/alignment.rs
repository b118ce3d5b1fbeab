//! A read-to-contig alignment and its two length invariants.
//!
//! Every alignment keeps, at all times, the op count that consumes reference
//! bases equal to its contig span, and the op count that consumes query bases
//! equal to its query length.

use crate::ops::{lemma_spans_bounds, lemma_spans_drop_first, lemma_spans_split, query_len, ref_len, Op};
use crate::util::vec_slice;
use vstd::prelude::*;

verus! {

/// One read placed on one contig.
#[derive(Debug, Clone)]
pub struct Alignment {
    pub read_id: u64,
    pub contig: String,
    pub contig_start: usize,
    pub contig_end: usize,
    pub query: Vec<u8>,
    pub ops: Vec<Op>,
    pub is_forward: bool,
}

impl Alignment {
    /// The two length invariants: non-insertion ops span the contig range and
    /// non-deletion ops spell the query.
    pub open spec fn wf(self) -> bool {
        &&& self.contig_start <= self.contig_end
        &&& ref_len(self.ops@) == self.contig_end - self.contig_start
        &&& query_len(self.ops@) == self.query@.len()
    }

    /// Build an alignment, trimming insertions and deletions hanging off
    /// either end so that the ops begin and end on a consumed contig base.
    pub fn new(
        read_id: u64,
        contig: String,
        contig_range: (usize, usize),
        query: Vec<u8>,
        ops: Vec<Op>,
        is_forward: bool,
    ) -> (r: Alignment)
        requires
            contig_range.0 <= contig_range.1,
            ref_len(ops@) == contig_range.1 - contig_range.0,
            query_len(ops@) == query@.len(),
        ensures
            r.wf(),
            r.read_id == read_id,
            r.contig == contig,
            r.is_forward == is_forward,
            r.contig_end <= contig_range.1,
            r.contig_start >= contig_range.0,
            exists|a: int, b: int|
                {
                    &&& 0 <= a <= b <= ops@.len()
                    &&& r.ops@ == ops@.subrange(a, b)
                    &&& r.query@ == query@.subrange(
                        query_len(ops@.subrange(0, a)),
                        query@.len() - query_len(ops@.subrange(b, ops@.len() as int)),
                    )
                    &&& r.contig_start == contig_range.0 + ref_len(ops@.subrange(0, a))
                    &&& r.contig_end == contig_range.1 - ref_len(
                        ops@.subrange(b, ops@.len() as int),
                    )
                    &&& (a < b ==> !(ops@[a] is Ins) && !(ops@[a] is Del) && !(ops@[b - 1] is Ins)
                        && !(ops@[b - 1] is Del))
                },
            ops@.len() > 0 && !(ops@[0] is Ins) && !(ops@[0] is Del) && !(ops@[ops@.len()
                - 1] is Ins) && !(ops@[ops@.len() - 1] is Del) ==> r.ops@ == ops@ && r.query@
                == query@ && r.contig_start == contig_range.0 && r.contig_end == contig_range.1,
    {
        let (contig_start, contig_end) = contig_range;
        // Trim the trailing insertions and deletions.
        let mut b: usize = ops.len();
        let mut del_back: usize = 0;
        let mut ins_back: usize = 0;
        while b > 0 && (ops[b - 1] == Op::Ins || ops[b - 1] == Op::Del)
            invariant
                0 <= b <= ops@.len() <= usize::MAX,
                del_back == ref_len(ops@.subrange(b as int, ops@.len() as int)),
                ins_back == query_len(ops@.subrange(b as int, ops@.len() as int)),
                del_back + ins_back == ops@.len() - b,
                forall|i: int| b <= i < ops@.len() ==> ops@[i] is Ins || ops@[i] is Del,
            decreases b,
        {
            proof {
                let s = ops@.subrange(b - 1, ops@.len() as int);
                lemma_spans_drop_first(s);
                assert(s.drop_first() =~= ops@.subrange(b as int, ops@.len() as int));
                assert(s[0] == ops@[b - 1]);
            }
            if ops[b - 1] == Op::Del {
                del_back += 1;
            } else {
                ins_back += 1;
            }
            b -= 1;
        }
        // Trim the leading insertions and deletions.
        let mut a: usize = 0;
        let mut del_front: usize = 0;
        let mut ins_front: usize = 0;
        while a < b && (ops[a] == Op::Ins || ops[a] == Op::Del)
            invariant
                0 <= a <= b <= ops@.len(),
                del_front == ref_len(ops@.subrange(0, a as int)),
                ins_front == query_len(ops@.subrange(0, a as int)),
                del_front + ins_front == a,
                forall|i: int| 0 <= i < a ==> ops@[i] is Ins || ops@[i] is Del,
            decreases b - a,
        {
            proof {
                assert(ops@.subrange(0, a + 1 as int).drop_last() =~= ops@.subrange(0, a as int));
            }
            if ops[a] == Op::Del {
                del_front += 1;
            } else {
                ins_front += 1;
            }
            a += 1;
        }
        proof {
            lemma_spans_bounds(ops@);
            lemma_spans_split(ops@, b as int);
            lemma_spans_split(ops@.subrange(0, b as int), a as int);
            assert(ops@.subrange(0, b as int).subrange(0, a as int) =~= ops@.subrange(0, a as int));
            lemma_spans_bounds(ops@.subrange(0, a as int));
            lemma_spans_bounds(ops@.subrange(b as int, ops@.len() as int));
            lemma_spans_bounds(ops@.subrange(0, b as int).subrange(a as int, b as int));
        }
        let new_ops = vec_slice(&ops, a, b);
        let new_query = vec_slice(&query, ins_front, query.len() - ins_back);
        let r = Alignment {
            read_id,
            contig,
            contig_start: contig_start + del_front,
            contig_end: contig_end - del_back,
            query: new_query,
            ops: new_ops,
            is_forward,
        };
        proof {
            assert(r.ops@ =~= ops@.subrange(0, b as int).subrange(a as int, b as int));
            let tail = ops@.subrange(b as int, ops@.len() as int);
            assert(0 <= a as int <= b as int <= ops@.len());
            assert(r.ops@ == ops@.subrange(a as int, b as int));
            assert(r.contig_start == contig_range.0 + ref_len(ops@.subrange(0, a as int)));
            assert(r.contig_end == contig_range.1 - ref_len(tail));
            assert(a < b ==> !(ops@[a as int] is Ins) && !(ops@[a as int] is Del) && !(ops@[b
                - 1] is Ins) && !(ops@[b - 1] is Del));
            if ops@.len() > 0 && !(ops@[0] is Ins) && !(ops@[0] is Del) && !(ops@[ops@.len()
                - 1] is Ins) && !(ops@[ops@.len() - 1] is Del) {
                assert(b == ops@.len());
                assert(a == 0);
                assert(r.ops@ =~= ops@);
                assert(r.query@ =~= query@);
            }
        }
        r
    }
}

} // verus!
