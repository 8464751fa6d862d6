//! Sorting the point set into Morton order.  The octree needs the points
//! arranged along the space-filling curve once at construction; the sort
//! keeps, for every point, the position it held in the caller's ordering.
use vstd::prelude::*;

verus! {

broadcast use vstd::seq_lib::group_to_multiset_ensures;

/// One point while the octree is built: the Morton code of the point's
/// deepest-level cell, and the point's position in the caller's ordering.
#[derive(Clone, Copy, PartialEq, Eq, Structural, Debug)]
pub struct PointRecord {
    pub code: u64,
    pub index: usize,
}

pub open spec fn sorted_by_code(s: Seq<PointRecord>) -> bool {
    forall|i: int, j: int| 0 <= i < j < s.len() ==> s[i].code <= s[j].code
}

/// Sorts the records by Morton code; the result holds exactly the records
/// that went in.
pub fn sort_by_code(v: &mut Vec<PointRecord>)
    ensures
        sorted_by_code(final(v)@),
        final(v)@.to_multiset() == old(v)@.to_multiset(),
        final(v)@.len() == old(v)@.len(),
{
    let ghost m0 = v@.to_multiset();
    let n = v.len();
    if n == 0 {
        return ;
    }
    let mut i: usize = 1;
    while i < n
        invariant
            1 <= i <= n,
            v@.len() == n,
            v@.to_multiset() == m0,
            sorted_by_code(v@.take(i as int)),
        decreases n - i,
    {
        proof {
            assert forall|a: int, b: int| 0 <= a < b < i implies v@[a].code <= v@[b].code by {
                assert(v@.take(i as int)[a] == v@[a] && v@.take(i as int)[b] == v@[b]);
            }
        }
        let mut j: usize = i;
        while j > 0 && v[j - 1].code > v[j].code
            invariant
                0 <= j <= i < n,
                v@.len() == n,
                v@.to_multiset() == m0,
                forall|a: int, b: int|
                    0 <= a < b <= i && a != j && b != j ==> v@[a].code <= v@[b].code,
                forall|b: int| j < b <= i ==> v@[j as int].code <= v@[b].code,
            decreases j,
        {
            let lo = v[j - 1];
            let hi = v[j];
            let ghost s = v@;
            v.set(j - 1, hi);
            v.set(j, lo);
            proof {
                assert(v@ == s.update(j - 1, hi).update(j as int, lo));
                assert(s.update(j - 1, hi)[j as int] == s[j as int]);
                assert(s.contains(lo)) by {
                    assert(s[j - 1] == lo);
                }
                assert(s.contains(hi)) by {
                    assert(s[j as int] == hi);
                }
                assert(v@.to_multiset() =~= s.to_multiset());
            }
            j = j - 1;
        }
        proof {
            assert forall|a: int, b: int| 0 <= a < b <= i implies v@[a].code <= v@[b].code by {
                if b == j {
                    assert(j > 0 ==> v@[j - 1].code <= v@[j as int].code);
                    if a < j - 1 {
                        assert(v@[a].code <= v@[j - 1].code);
                    }
                } else if a == j {
                    assert(v@[j as int].code <= v@[b].code);
                }
            }
            assert(sorted_by_code(v@.take(i + 1)));
        }
        i = i + 1;
    }
    proof {
        assert(v@.take(n as int) == v@);
    }
}

/// Sequences with the same multiset hold the same records: every record of
/// either appears in the other.
pub proof fn lemma_rearranged_members(s: Seq<PointRecord>, t: Seq<PointRecord>)
    requires
        s.to_multiset() == t.to_multiset(),
    ensures
        forall|i: int| 0 <= i < t.len() ==> s.contains(#[trigger] t[i]),
        forall|j: int| 0 <= j < s.len() ==> t.contains(#[trigger] s[j]),
{
    assert forall|i: int| 0 <= i < t.len() implies s.contains(#[trigger] t[i]) by {
        assert(t.contains(t[i]));
        assert(t.to_multiset().count(t[i]) > 0);
        assert(s.to_multiset().count(t[i]) > 0);
    }
    assert forall|j: int| 0 <= j < s.len() implies t.contains(#[trigger] s[j]) by {
        assert(s.contains(s[j]));
        assert(s.to_multiset().count(s[j]) > 0);
        assert(t.to_multiset().count(s[j]) > 0);
    }
}

} // verus!
