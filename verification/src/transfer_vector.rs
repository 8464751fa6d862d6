//! Transfer vectors: the translation identity between a well-separated
//! source and target cell pair.  Kernel homogeneity makes every M2L operator
//! depend only on this identity, so one operator per distinct vector is
//! precomputed and reused.
use vstd::prelude::*;

use crate::morton::{MortonKey, lemma_octant_identity, lemma_pow2_bounds, lemma_pow2_mono};

verus! {

/// The relative offset between a source and a target cell of one level,
/// with the bijective hash that identifies it, and the representative pair
/// it was found on.
#[derive(Clone, Copy, PartialEq, Eq, Structural, Debug)]
pub struct TransferVector {
    /// Anchor difference `source - target` along the first axis.
    pub cx: i64,
    /// Anchor difference `source - target` along the second axis.
    pub cy: i64,
    /// Anchor difference `source - target` along the third axis.
    pub cz: i64,
    /// Bijective encoding of the components.
    pub hash: u64,
    pub source: MortonKey,
    pub target: MortonKey,
}

/// The level at which every distinct well-separated translation occurs:
/// the coarsest with a full interaction pattern.
pub const TRANSFER_VECTOR_LEVEL: u64 = 3;

/// Whether `source` lies in the V-list of `target`: a same-level cell,
/// child of one of the target's parent's neighbors, not itself adjacent
/// to the target.
pub open spec fn in_v_list(source: MortonKey, target: MortonKey) -> bool {
    &&& source.wf()
    &&& target.wf()
    &&& source.level == target.level
    &&& source.level >= 1
    &&& target.spec_parent().spec_adjacent(source.spec_parent())
    &&& !target.spec_adjacent(source)
}

impl TransferVector {
    /// Integrity of one entry: a valid well-separated pair at the reference
    /// level, with components and hash computed from it.
    pub open spec fn wf(self) -> bool {
        &&& in_v_list(self.source, self.target)
        &&& self.source.level == TRANSFER_VECTOR_LEVEL
        &&& self.hash == self.source.spec_transfer_hash(self.target)
        &&& self.cx == self.source.x - self.target.x
        &&& self.cy == self.source.y - self.target.y
        &&& self.cz == self.source.z - self.target.z
    }
}

/// Builds the transfer vector of one source-target pair.
fn make_transfer_vector(source: MortonKey, target: MortonKey) -> (tv: TransferVector)
    requires
        source.wf(),
        target.wf(),
        source.level == target.level,
    ensures
        tv.source == source,
        tv.target == target,
        tv.hash == source.spec_transfer_hash(target),
        tv.cx == source.x - target.x,
        tv.cy == source.y - target.y,
        tv.cz == source.z - target.z,
{
    proof {
        lemma_pow2_mono(source.level as nat, crate::morton::MAX_LEVEL as nat);
        lemma_pow2_bounds();
    }
    let cx: i64 = source.x as i64 - target.x as i64;
    let cy: i64 = source.y as i64 - target.y as i64;
    let cz: i64 = source.z as i64 - target.z as i64;
    let hash = source.find_transfer_vector(&target);
    TransferVector { cx, cy, cz, hash, source, target }
}

/// Whether some entry carries a given transfer hash.
pub open spec fn hash_present(rs: Seq<TransferVector>, h: int) -> bool {
    exists|i: int| 0 <= i < rs.len() && rs[i].hash == h
}

/// Every well-separated pair whose target code lies below `c` has its
/// translation hash present.
spec fn covered_below(rs: Seq<TransferVector>, c: int) -> bool {
    forall|s: MortonKey, t: MortonKey|
        #![trigger s.spec_transfer_hash(t)]
        in_v_list(s, t) && t.level == TRANSFER_VECTOR_LEVEL && t.spec_code() < c ==> hash_present(
            rs,
            s.spec_transfer_hash(t),
        )
}

/// Every V-list source of `target` whose parent stands among the first `o`
/// halo cells has its translation hash present.
spec fn covered_neighbors(
    rs: Seq<TransferVector>,
    target: MortonKey,
    ns: Seq<MortonKey>,
    o: int,
) -> bool {
    forall|s: MortonKey, o2: int|
        #![trigger ns[o2], s.spec_transfer_hash(target)]
        0 <= o2 < o && in_v_list(s, target) && s.spec_parent() == ns[o2] ==> hash_present(
            rs,
            s.spec_transfer_hash(target),
        )
}

/// Every V-list source of `target` below octant `d` of the halo cell `pn`
/// has its translation hash present.
spec fn covered_octants(rs: Seq<TransferVector>, target: MortonKey, pn: MortonKey, d: int) -> bool {
    forall|s: MortonKey|
        #![trigger s.spec_transfer_hash(target)]
        in_v_list(s, target) && s.spec_parent() == pn && s.spec_octant() < d ==> hash_present(
            rs,
            s.spec_transfer_hash(target),
        )
}

/// Appending an entry keeps every present hash present.
proof fn lemma_push_preserves_hashes(rs: Seq<TransferVector>, tv: TransferVector)
    ensures
        forall|h: int| #[trigger] hash_present(rs, h) ==> hash_present(rs.push(tv), h),
{
    assert forall|h: int| #[trigger] hash_present(rs, h) implies hash_present(rs.push(tv), h) by {
        let i = choose|i: int| 0 <= i < rs.len() && rs[i].hash == h;
        assert(rs.push(tv)[i] == rs[i]);
    }
}

/// Enumerates one representative source-target pair for every distinct
/// well-separated translation at the reference level: the hashes of the
/// result are pairwise distinct, every entry is a genuine V-list pair, and
/// every V-list pair of the level finds its translation in the result.
pub fn compute_transfer_vectors() -> (r: Vec<TransferVector>)
    ensures
        forall|i: int, j: int| 0 <= i < j < r@.len() ==> (#[trigger] r@[i]).hash
            != (#[trigger] r@[j]).hash,
        forall|i: int| 0 <= i < r@.len() ==> (#[trigger] r@[i]).wf(),
        forall|s: MortonKey, t: MortonKey|
            in_v_list(s, t) && t.level == TRANSFER_VECTOR_LEVEL ==> #[trigger] hash_present(
                r@,
                s.spec_transfer_hash(t),
            ),
{
    let mut r: Vec<TransferVector> = Vec::new();
    let nkeys: u64 = 512;
    proof {
        reveal_with_fuel(crate::morton::pow8, 5);
        assert(crate::morton::pow8(TRANSFER_VECTOR_LEVEL as nat) == 512);
        assert(covered_below(r@, 0)) by {
            assert forall|s: MortonKey, t: MortonKey|
                in_v_list(s, t) && t.level == TRANSFER_VECTOR_LEVEL && t.spec_code() < 0
                implies hash_present(r@, #[trigger] s.spec_transfer_hash(t)) by {
                crate::morton::lemma_code_bound(t);
            }
        }
    }
    let mut c: u64 = 0;
    while c < nkeys
        invariant
            c <= nkeys == 512,
            crate::morton::pow8(TRANSFER_VECTOR_LEVEL as nat) == 512,
            forall|i: int, j: int|
                0 <= i < j < r@.len() ==> (#[trigger] r@[i]).hash != (#[trigger] r@[j]).hash,
            forall|i: int| 0 <= i < r@.len() ==> (#[trigger] r@[i]).wf(),
            covered_below(r@, c as int),
        decreases nkeys - c,
    {
        let target = MortonKey::from_code(c, TRANSFER_VECTOR_LEVEL);
        let parent = target.parent();
        let neighbors = parent.neighbors();
        let mut o: usize = 0;
        while o < neighbors.len()
            invariant
                o <= neighbors@.len(),
                target.wf(),
                target.level == TRANSFER_VECTOR_LEVEL,
                parent == target.spec_parent(),
                forall|d: int| 0 <= d < neighbors@.len() ==> (#[trigger] neighbors@[d]).wf(),
                forall|d: int| 0 <= d < neighbors@.len() ==> (#[trigger] neighbors@[d]).level
                    == parent.level,
                forall|d: int|
                    0 <= d < neighbors@.len() ==> parent.spec_adjacent(#[trigger] neighbors@[d]),
                forall|i: int, j: int|
                    0 <= i < j < r@.len() ==> (#[trigger] r@[i]).hash != (#[trigger] r@[j]).hash,
                forall|i: int| 0 <= i < r@.len() ==> (#[trigger] r@[i]).wf(),
                covered_below(r@, c as int),
                covered_neighbors(r@, target, neighbors@, o as int),
            decreases neighbors@.len() - o,
        {
            let pn = neighbors[o];
            let children = pn.children();
            proof {
                assert forall|e: int| 0 <= e < 8 implies (#[trigger] children@[e]).level
                    == target.level by {
                    assert(children@[e] == pn.spec_child(e));
                    assert(pn.level == target.level - 1);
                }
            }
            let mut d: usize = 0;
            while d < 8
                invariant
                    d <= 8,
                    target.wf(),
                    target.level == TRANSFER_VECTOR_LEVEL,
                    parent == target.spec_parent(),
                    pn.wf(),
                    pn.level == parent.level,
                    parent.spec_adjacent(pn),
                    o < neighbors@.len(),
                    pn == neighbors@[o as int],
                    children@.len() == 8,
                    forall|e: int| 0 <= e < 8 ==> children@[e] == pn.spec_child(e),
                    forall|e: int| 0 <= e < 8 ==> (#[trigger] children@[e]).wf(),
                    forall|e: int| 0 <= e < 8 ==> (#[trigger] children@[e]).spec_parent() == pn,
                    forall|e: int| 0 <= e < 8 ==> (#[trigger] children@[e]).level
                        == target.level,
                    forall|d2: int| 0 <= d2 < neighbors@.len() ==> (
                    #[trigger] neighbors@[d2]).wf(),
                    forall|d2: int|
                        0 <= d2 < neighbors@.len() ==> (#[trigger] neighbors@[d2]).level
                            == parent.level,
                    forall|d2: int|
                        0 <= d2 < neighbors@.len() ==> parent.spec_adjacent(
                            #[trigger] neighbors@[d2],
                        ),
                    forall|i: int, j: int|
                        0 <= i < j < r@.len() ==> (#[trigger] r@[i]).hash != (
                        #[trigger] r@[j]).hash,
                    forall|i: int| 0 <= i < r@.len() ==> (#[trigger] r@[i]).wf(),
                    covered_below(r@, c as int),
                    covered_neighbors(r@, target, neighbors@, o as int),
                    covered_octants(r@, target, pn, d as int),
                decreases 8 - d,
            {
                let source = children[d];
                if !target.is_adjacent(&source) {
                    let tv = make_transfer_vector(source, target);
                    let mut seen = false;
                    let mut i: usize = 0;
                    while i < r.len()
                        invariant
                            i <= r@.len(),
                            seen <==> exists|j: int| 0 <= j < i && (#[trigger] r@[j]).hash
                                == tv.hash,
                            forall|i2: int, j: int|
                                0 <= i2 < j < r@.len() ==> (#[trigger] r@[i2]).hash != (
                                #[trigger] r@[j]).hash,
                            forall|i2: int| 0 <= i2 < r@.len() ==> (#[trigger] r@[i2]).wf(),
                            covered_below(r@, c as int),
                            covered_neighbors(r@, target, neighbors@, o as int),
                            covered_octants(r@, target, pn, d as int),
                        decreases r@.len() - i,
                    {
                        if r[i].hash == tv.hash {
                            seen = true;
                        }
                        i = i + 1;
                    }
                    let ghost r_b = r@;
                    if !seen {
                        r.push(tv);
                    }
                    proof {
                        if !seen {
                            lemma_push_preserves_hashes(r_b, tv);
                            assert(r@ == r_b.push(tv));
                            assert(r@[r@.len() - 1] == tv);
                        }
                        assert(hash_present(r@, source.spec_transfer_hash(target))) by {
                            if seen {
                                let j = choose|j: int|
                                    0 <= j < r_b.len() && r_b[j].hash == tv.hash;
                                assert(r@[j].hash == tv.hash);
                            }
                        }
                        assert forall|s: MortonKey, t: MortonKey|
                            in_v_list(s, t) && t.level == TRANSFER_VECTOR_LEVEL && t.spec_code()
                                < c implies hash_present(r@, #[trigger] s.spec_transfer_hash(t))
                            by {
                            assert(hash_present(r_b, s.spec_transfer_hash(t)));
                        }
                        assert forall|s: MortonKey, o2: int|
                            0 <= o2 < o && in_v_list(s, target) && s.spec_parent()
                                == #[trigger] neighbors@[o2] implies hash_present(
                            r@,
                            #[trigger] s.spec_transfer_hash(target),
                        ) by {
                            assert(hash_present(r_b, s.spec_transfer_hash(target)));
                        }
                        assert forall|s: MortonKey|
                            in_v_list(s, target) && s.spec_parent() == pn && s.spec_octant() < d
                                + 1 implies hash_present(
                            r@,
                            #[trigger] s.spec_transfer_hash(target),
                        ) by {
                            if s.spec_octant() == d {
                                lemma_octant_identity(s);
                                assert(s == pn.spec_child(d as int));
                                assert(s == source);
                            } else {
                                assert(hash_present(r_b, s.spec_transfer_hash(target)));
                            }
                        }
                    }
                } else {
                    proof {
                        assert forall|s: MortonKey|
                            in_v_list(s, target) && s.spec_parent() == pn && s.spec_octant() < d
                                + 1 implies hash_present(
                            r@,
                            #[trigger] s.spec_transfer_hash(target),
                        ) by {
                            if s.spec_octant() == d {
                                lemma_octant_identity(s);
                                assert(s == source);
                                assert(!target.spec_adjacent(s));
                                assert(false);
                            }
                        }
                    }
                }
                d = d + 1;
            }
            proof {
                assert forall|s: MortonKey, o2: int|
                    0 <= o2 < o + 1 && in_v_list(s, target) && s.spec_parent()
                        == #[trigger] neighbors@[o2] implies hash_present(
                    r@,
                    #[trigger] s.spec_transfer_hash(target),
                ) by {
                    if o2 == o {
                        assert(0 <= s.spec_octant() < 8);
                    }
                }
            }
            o = o + 1;
        }
        proof {
            assert forall|s: MortonKey, t: MortonKey|
                in_v_list(s, t) && t.level == TRANSFER_VECTOR_LEVEL && t.spec_code() < c + 1
                implies hash_present(r@, #[trigger] s.spec_transfer_hash(t)) by {
                if t.spec_code() == c {
                    crate::morton::lemma_code_injective(t, target);
                    assert(t == target);
                    crate::morton::lemma_parent_wf(s);
                    assert(s.spec_parent().wf() && s.spec_parent().level == parent.level);
                    assert(parent.spec_adjacent(s.spec_parent()));
                    assert(parent.spec_neighbors().contains(s.spec_parent()));
                    let o2 = choose|o2: int|
                        0 <= o2 < neighbors@.len() && neighbors@[o2] == s.spec_parent();
                    assert(neighbors@[o2] == s.spec_parent());
                }
            }
        }
        c = c + 1;
    }
    proof {
        assert forall|s: MortonKey, t: MortonKey|
            in_v_list(s, t) && t.level == TRANSFER_VECTOR_LEVEL implies #[trigger] hash_present(
            r@,
            s.spec_transfer_hash(t),
        ) by {
            crate::morton::lemma_code_bound(t);
        }
    }
    r
}

} // verus!
