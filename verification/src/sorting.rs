//! Descending selection sort for the reported cluster sizes.

use vstd::prelude::*;
use vstd::seq_lib::to_multiset_update;
use vstd::seq_lib::to_multiset_contains;

verus! {

/// The sequence is sorted in descending order.
pub open spec fn sorted_desc(s: Seq<u64>) -> bool {
    forall|p: int, q: int| 0 <= p <= q < s.len() ==> s[p] >= s[q]
}

/// Swapping two positions of a sequence keeps its multiset of values.
proof fn lemma_swap_multiset(s: Seq<u64>, i: int, j: int)
    requires
        0 <= i < s.len(),
        0 <= j < s.len(),
    ensures
        s.update(i, s[j]).update(j, s[i]).to_multiset() == s.to_multiset(),
{
    broadcast use vstd::multiset::group_multiset_axioms;

    if i == j {
        assert(s.update(i, s[j]).update(j, s[i]) =~= s);
    } else {
        let s1 = s.update(i, s[j]);
        let s2 = s1.update(j, s[i]);
        to_multiset_update(s, i, s[j]);
        to_multiset_update(s1, j, s[i]);
        to_multiset_contains(s, s[i]);
        to_multiset_contains(s, s[j]);
        assert(s.contains(s[i]));
        assert(s.contains(s[j]));
        assert(s1[j] == s[j]);
        assert(s2.to_multiset() =~= s.to_multiset());
    }
}

/// Sorts the vector in place into descending order; the multiset of
/// values is unchanged, so the same sizes are reported, largest first.
pub fn sort_desc(v: &mut Vec<u64>)
    ensures
        sorted_desc(final(v)@),
        final(v)@.to_multiset() == old(v)@.to_multiset(),
        final(v)@.len() == old(v)@.len(),
{
    let mut i: usize = 0;
    while i < v.len()
        invariant
            i <= v@.len(),
            v@.len() == old(v)@.len(),
            v@.to_multiset() == old(v)@.to_multiset(),
            forall|p: int, q: int| 0 <= p <= q < i ==> v@[p] >= v@[q],
            forall|p: int, q: int| 0 <= p < i && i <= q < v@.len() ==> v@[p] >= v@[q],
        decreases v@.len() - i,
    {
        let mut m: usize = i;
        let mut t: usize = i + 1;
        while t < v.len()
            invariant
                i <= m < t <= v@.len(),
                forall|q: int| i <= q < t ==> v@[m as int] >= v@[q],
            decreases v@.len() - t,
        {
            if v[t] > v[m] {
                m = t;
            }
            t += 1;
        }
        let a: u64 = v[i];
        let b: u64 = v[m];
        let ghost before = v@;
        v[i] = b;
        v[m] = a;
        proof {
            assert(v@ == before.update(i as int, b).update(m as int, a));
            lemma_swap_multiset(before, i as int, m as int);
        }
        i += 1;
    }
}

} // verus!
