//! Small verified helpers over vectors.

use vstd::prelude::*;

verus! {

/// Copy of `v[a..b]`.
pub fn vec_slice<T: Copy>(v: &Vec<T>, a: usize, b: usize) -> (r: Vec<T>)
    requires
        a <= b <= v@.len(),
    ensures
        r@ == v@.subrange(a as int, b as int),
{
    let mut r: Vec<T> = Vec::new();
    let mut k: usize = a;
    while k < b
        invariant
            a <= k <= b <= v@.len(),
            r@ == v@.subrange(a as int, k as int),
        decreases b - k,
    {
        r.push(v[k]);
        proof {
            assert(v@.subrange(a as int, k + 1 as int) =~= v@.subrange(a as int, k as int).push(
                v@[k as int],
            ));
        }
        k += 1;
    }
    r
}

/// Append a copy of `s[a..b]` to `dst`.
pub fn vec_extend_slice<T: Copy>(dst: &mut Vec<T>, s: &Vec<T>, a: usize, b: usize)
    requires
        a <= b <= s@.len(),
        old(dst)@.len() + (b - a) <= usize::MAX,
    ensures
        final(dst)@ == old(dst)@ + s@.subrange(a as int, b as int),
{
    let mut k: usize = a;
    while k < b
        invariant
            a <= k <= b <= s@.len(),
            dst@ == old(dst)@ + s@.subrange(a as int, k as int),
        decreases b - k,
    {
        dst.push(s[k]);
        proof {
            assert(old(dst)@ + s@.subrange(a as int, k + 1 as int) =~= (old(dst)@ + s@.subrange(
                a as int,
                k as int,
            )).push(s@[k as int]));
        }
        k += 1;
    }
}

/// Append a copy of the whole of `s` to `dst`.
pub fn vec_extend<T: Copy>(dst: &mut Vec<T>, s: &Vec<T>)
    requires
        old(dst)@.len() + s@.len() <= usize::MAX,
    ensures
        final(dst)@ == old(dst)@ + s@,
{
    vec_extend_slice(dst, s, 0, s.len());
    proof {
        assert(s@.subrange(0, s@.len() as int) =~= s@);
    }
}

/// The reverse of `v`.
pub fn vec_reverse<T: Copy>(v: &Vec<T>) -> (r: Vec<T>)
    ensures
        r@ == v@.reverse(),
{
    let mut r: Vec<T> = Vec::new();
    let mut k: usize = v.len();
    while k > 0
        invariant
            k <= v@.len(),
            r@.len() == v@.len() - k,
            forall|i: int| 0 <= i < r@.len() ==> r@[i] == v@[v@.len() - 1 - i],
        decreases k,
    {
        k -= 1;
        r.push(v[k]);
    }
    proof {
        assert(r@ =~= v@.reverse());
    }
    r
}

pub open spec fn seq_sorted(s: Seq<usize>) -> bool {
    forall|i: int, j: int| 0 <= i <= j < s.len() ==> s[i] <= s[j]
}

/// Sort a vector of lengths ascending; the result holds the same values.
pub fn sort_usize(v: &Vec<usize>) -> (r: Vec<usize>)
    ensures
        seq_sorted(r@),
        r@.to_multiset() == v@.to_multiset(),
        r@.len() == v@.len(),
{
    broadcast use vstd::seq_lib::to_multiset_insert, vstd::seq_lib::to_multiset_build;

    let mut r: Vec<usize> = Vec::new();
    proof {
        assert(v@.subrange(0, 0) =~= Seq::<usize>::empty());
        assert(r@ =~= Seq::<usize>::empty());
    }
    let mut k: usize = 0;
    while k < v.len()
        invariant
            k <= v@.len(),
            seq_sorted(r@),
            r@.len() == k,
            r@.to_multiset() == v@.subrange(0, k as int).to_multiset(),
        decreases v@.len() - k,
    {
        let x = v[k];
        // find insertion point
        let mut p: usize = 0;
        while p < r.len() && r[p] <= x
            invariant
                p <= r@.len(),
                forall|i: int| 0 <= i < p ==> r@[i] <= x,
            decreases r@.len() - p,
        {
            p += 1;
        }
        let ghost old_r = r@;
        r.insert(p, x);
        proof {
            assert(seq_sorted(r@)) by {
                assert(forall|i: int| 0 <= i < p ==> r@[i] == old_r[i]);
                assert(forall|i: int| p < i < r@.len() ==> r@[i] == old_r[i - 1]);
                assert(r@[p as int] == x);
                assert(forall|i: int| p <= i < old_r.len() ==> x <= old_r[i]) by {
                    assert(p < old_r.len() ==> !(old_r[p as int] <= x));
                }
            }
            assert(r@.to_multiset() == v@.subrange(0, k + 1 as int).to_multiset()) by {
                vstd::seq_lib::to_multiset_insert(old_r, p as int, x);
                vstd::seq_lib::to_multiset_build(v@.subrange(0, k as int), x);
                assert(r@ == old_r.insert(p as int, x));
                assert(v@.subrange(0, k + 1 as int) =~= v@.subrange(0, k as int).push(x));
            }
        }
        k += 1;
    }
    proof {
        assert(v@.subrange(0, v@.len() as int) =~= v@);
    }
    r
}

/// Whether `x` occurs in `v`.
pub fn contains_usize(v: &Vec<usize>, x: usize) -> (r: bool)
    ensures
        r <==> v@.contains(x),
{
    let mut k: usize = 0;
    while k < v.len()
        invariant
            k <= v@.len(),
            forall|j: int| 0 <= j < k ==> v@[j] != x,
        decreases v@.len() - k,
    {
        if v[k] == x {
            return true;
        }
        k += 1;
    }
    false
}

/// Two sorted sequences holding the same values are the same sequence.
pub proof fn lemma_sorted_unique(a: Seq<usize>, b: Seq<usize>)
    requires
        seq_sorted(a),
        seq_sorted(b),
        a.to_multiset() == b.to_multiset(),
    ensures
        a == b,
    decreases a.len(),
{
    broadcast use vstd::seq_lib::group_to_multiset_ensures;

    if a.len() == 0 {
        vstd::seq_lib::to_multiset_len::<usize>(a);
        vstd::seq_lib::to_multiset_len::<usize>(b);
        assert(a =~= b);
    } else {
        vstd::seq_lib::to_multiset_len::<usize>(a);
        vstd::seq_lib::to_multiset_len::<usize>(b);
        assert(a.len() == b.len());
        assert(b.to_multiset().count(a.last()) > 0);
        assert(b.contains(a.last()));
        assert(a.to_multiset().count(b.last()) > 0);
        assert(a.contains(b.last()));
        assert(a.last() == b.last()) by {
            let i = choose|i: int| 0 <= i < b.len() && b[i] == a.last();
            let j = choose|j: int| 0 <= j < a.len() && a[j] == b.last();
            assert(b[i] <= b.last());
            assert(a[j] <= a.last());
        }
        assert(a.drop_last().to_multiset() == b.drop_last().to_multiset()) by {
            assert(a.drop_last() =~= a.remove(a.len() - 1));
            assert(b.drop_last() =~= b.remove(b.len() - 1));
            assert(a.remove(a.len() - 1).to_multiset() =~= a.to_multiset().remove(a.last()));
            assert(b.remove(b.len() - 1).to_multiset() =~= b.to_multiset().remove(b.last()));
        }
        lemma_sorted_unique(a.drop_last(), b.drop_last());
        assert(a =~= a.drop_last().push(a.last()));
        assert(b =~= b.drop_last().push(b.last()));
        assert(a =~= b);
    }
}

/// The unique sorted arrangement of a sequence's values.
pub open spec fn sorted_of(s: Seq<usize>) -> Seq<usize> {
    choose|t: Seq<usize>| seq_sorted(t) && t.to_multiset() == s.to_multiset()
}

} // verus!
