//! The retrieval correctness oracle: a backend's reconstructed member list
//! for a group must hold exactly the ids the generator recorded, compared
//! order-insensitively. This is the sole correctness check replayed
//! uniformly against every storage backend.

use crate::memo::{members_seq, RawMemo};
use vstd::prelude::*;
use vstd::seq_lib::lemma_sorted_unique;

verus! {

broadcast use vstd::seq_lib::group_to_multiset_ensures;

/// Ascending order.
pub open spec fn sorted(s: Seq<usize>) -> bool {
    forall|i: int, j: int| 0 <= i < j < s.len() ==> s[i] <= s[j]
}

/// Sorts the ids ascending in place, keeping exactly the same multiset of
/// values.
pub fn sort_ids(v: &mut Vec<usize>)
    ensures
        sorted(final(v)@),
        final(v)@.to_multiset() == old(v)@.to_multiset(),
{
    let n = v.len();
    if n <= 1 {
        return ;
    }
    let mut i: usize = 1;
    while i < n
        invariant
            1 <= i <= n,
            n == v.len(),
            sorted(v@.take(i as int)),
            v@.to_multiset() == old(v)@.to_multiset(),
        decreases n - i,
    {
        let ghost iold = i as int;
        proof {
            assert forall|a: int, b: int| 0 <= a < b <= iold && b != iold implies v@[a]
                <= v@[b] by {
                assert(v@.take(iold)[a] == v@[a]);
                assert(v@.take(iold)[b] == v@[b]);
            }
        }
        let mut j: usize = i;
        while j > 0 && v[j - 1] > v[j]
            invariant
                j <= i < n,
                n == v.len(),
                v@.to_multiset() == old(v)@.to_multiset(),
                forall|a: int, b: int| 0 <= a < b <= i && b != j ==> v@[a] <= v@[b],
            decreases j,
        {
            let ghost pre = v@;
            let x = v[j - 1];
            let y = v[j];
            v.set(j - 1, y);
            v.set(j, x);
            proof {
                assert(v@ =~= pre.update(j - 1, y).update(j as int, x));
                assert(v@.to_multiset() =~= pre.to_multiset());
            }
            j -= 1;
        }
        proof {
            assert forall|a: int, b: int| 0 <= a < b <= iold implies v@[a] <= v@[b] by {
                if b == j && j > 0 {
                    if a < j - 1 {
                        assert(v@[a] <= v@[j - 1]);
                    }
                }
            }
            assert(sorted(v@.take(iold + 1))) by {
                assert forall|a: int, b: int|
                    #![trigger v@.take(iold + 1)[a], v@.take(iold + 1)[b]]
                    0 <= a < b < iold + 1 implies v@.take(iold + 1)[a] <= v@.take(
                    iold + 1,
                )[b] by {
                    assert(v@.take(iold + 1)[a] == v@[a]);
                    assert(v@.take(iold + 1)[b] == v@[b]);
                }
            }
        }
        i += 1;
    }
    proof {
        assert(v@.take(n as int) =~= v@);
    }
}

/// Compares two id vectors element by element.
pub fn ids_equal(a: &Vec<usize>, b: &Vec<usize>) -> (r: bool)
    ensures
        r == (a@ == b@),
{
    let n = a.len();
    if n != b.len() {
        return false;
    }
    let mut i: usize = 0;
    while i < n
        invariant
            i <= n,
            n == a.len() == b.len(),
            forall|t: int| 0 <= t < i ==> a@[t] == b@[t],
        decreases n - i,
    {
        if a[i] != b[i] {
            return false;
        }
        i += 1;
    }
    proof {
        assert(a@ =~= b@);
    }
    true
}

/// Whether the two lists hold exactly the same ids with the same
/// multiplicities: both are sorted and compared, so the order in which a
/// backend returned them does not matter.
pub fn ids_match(a: &Vec<usize>, b: &Vec<usize>) -> (r: bool)
    ensures
        r == (a@.to_multiset() == b@.to_multiset()),
{
    let mut sa = crate::memo::copy_ids(a);
    let mut sb = crate::memo::copy_ids(b);
    sort_ids(&mut sa);
    sort_ids(&mut sb);
    let r = ids_equal(&sa, &sb);
    proof {
        if r {
            assert(a@.to_multiset() == b@.to_multiset());
        } else {
            if a@.to_multiset() == b@.to_multiset() {
                let leq = |x: usize, y: usize| x <= y;
                assert(vstd::relations::total_ordering(leq)) by {
                    assert(forall|x: usize, y: usize, z: usize|
                        #![trigger leq(x, y), leq(y, z)]
                        leq(x, y) && leq(y, z) ==> leq(x, z));
                }
                assert(vstd::relations::sorted_by(sa@, leq)) by {
                    assert(forall|i: int, j: int|
                        0 <= i < j < sa@.len() ==> leq(#[trigger] sa@[i], #[trigger] sa@[j]));
                }
                assert(vstd::relations::sorted_by(sb@, leq)) by {
                    assert(forall|i: int, j: int|
                        0 <= i < j < sb@.len() ==> leq(#[trigger] sb@[i], #[trigger] sb@[j]));
                }
                lemma_sorted_unique(sa@, sb@, leq);
                assert(false);
            }
        }
    }
    r
}

impl RawMemo {
    /// The retrieval oracle: the ids a backend handed back for logical group
    /// `gid` must equal, as a multiset, the members this memo records for it.
    pub fn check_retrieval(&self, gid: usize, retrieved: &Vec<usize>) -> (r: bool)
        ensures
            r == (retrieved@.to_multiset() == members_seq(self@.groups, gid).to_multiset()),
    {
        let expected = self.members_of(gid);
        ids_match(retrieved, &expected)
    }
}

} // verus!
