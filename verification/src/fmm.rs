//! Index plans for the translation passes.  Every pass is data-parallel
//! over disjoint chunks of boxes; the plans here carve the flat expansion
//! arrays into those chunks so that no two tasks ever write the same index,
//! and fix the order of the passes of a whole run.  The numerical work the
//! plans drive is floating point and lives with the caller.
use vstd::prelude::*;

use crate::morton::MortonKey;
use crate::tree::{Octree, has_key};

verus! {

/// Most leaves one P2M task handles at a time.
pub const P2M_MAX_CHUNK_SIZE: usize = 256;

/// Most parents one M2M task handles at a time.
pub const M2M_MAX_CHUNK_SIZE: usize = 256;

/// Whether a chunk size divides a workload evenly.
pub open spec fn divides_evenly(c: int, n: int) -> bool {
    n % c == 0
}

/// The largest chunk size up to `max_chunk_size` that divides a workload of
/// `n` items evenly, so that chunked iteration leaves no remainder.
pub fn find_chunk_size(n: usize, max_chunk_size: usize) -> (c: usize)
    requires
        1 <= max_chunk_size,
    ensures
        1 <= c <= max_chunk_size,
        divides_evenly(c as int, n as int),
        forall|d: int| c < d <= max_chunk_size ==> !#[trigger] divides_evenly(d, n as int),
{
    let mut d = max_chunk_size;
    while d > 1
        invariant
            1 <= d <= max_chunk_size,
            forall|e: int| d < e <= max_chunk_size ==> !#[trigger] divides_evenly(e, n as int),
        decreases d,
    {
        if n % d == 0 {
            return d;
        }
        d = d - 1;
    }
    1
}

/// One M2M work item: the child boxes at contiguous level indices
/// `child_lo .. child_hi` all accumulate into the single parent at
/// `parent_index` one level up.  Distinct items name distinct parents, so
/// parallel tasks write disjoint targets.
#[derive(Clone, Copy, PartialEq, Eq, Structural, Debug)]
pub struct M2mGroup {
    /// Index of the shared parent in the coarser level's key list.
    pub parent_index: usize,
    /// First child index in the finer level's key list.
    pub child_lo: usize,
    /// One past the last child index.
    pub child_hi: usize,
}

/// Groups the boxes of a level by parent: the groups partition the level's
/// index range contiguously, each child of a group has the group's parent,
/// and the parent indices are strictly increasing, so accumulation targets
/// of different groups never alias.  Boxes may be missing at either level;
/// only parents that do have children appear.
/// Finds the group of consecutive boxes starting at `lo` of a level that
/// share one parent, together with that parent's index one level up.
#[verifier::rlimit(100)]
fn next_m2m_group(tree: &Octree, level: u64, lo: usize) -> (group: M2mGroup)
    requires
        tree.wf(),
        1 <= level < tree.level_keys@.len(),
        lo < tree.level_keys@[level as int]@.len(),
    ensures
        ({
            let cs = tree.level_keys@[level as int]@;
            let ps = tree.level_keys@[level as int - 1]@;
            &&& group.child_lo == lo
            &&& lo < group.child_hi <= cs.len()
            &&& group.parent_index < ps.len()
            &&& forall|t: int|
                group.child_lo <= t < group.child_hi ==> #[trigger] cs[t].spec_parent() == ps[
                    group.parent_index as int]
            &&& (group.child_hi < cs.len() ==> cs[group.child_hi as int].spec_parent()
                != cs[group.child_hi - 1].spec_parent())
        }),
{
    let children = &tree.level_keys[level as usize];
    let n = children.len();
    let ghost cs = tree.level_keys@[level as int]@;
    let ghost ps = tree.level_keys@[level as int - 1]@;
    proof {
        assert(cs[lo as int].wf() && cs[lo as int].level == level);
        crate::morton::lemma_parent_wf(cs[lo as int]);
    }
    let p = children[lo].parent();
    let mut j = lo + 1;
    while j < n && children[j].parent() == p
        invariant
            lo < j <= n == cs.len(),
            tree.wf(),
            1 <= level < tree.level_keys@.len(),
            children == tree.level_keys@[level as int],
            cs == tree.level_keys@[level as int]@,
            p == cs[lo as int].spec_parent(),
            forall|t: int| lo <= t < j ==> #[trigger] cs[t].spec_parent() == p,
        decreases n - j,
    {
        j = j + 1;
    }
    match tree.level_index_of(&p) {
        Some(pi) => M2mGroup { parent_index: pi, child_lo: lo, child_hi: j },
        None => {
            proof {
                assert(has_key(ps, cs[lo as int].spec_parent()));
                let w = choose|w: int| 0 <= w < ps.len() && ps[w] == p;
                assert(tree.level_keys@[p.level as int]@[w] == p);
                assert(false);
            }
            M2mGroup { parent_index: 0, child_lo: lo, child_hi: j }
        },
    }
}

/// Groups the boxes of a level by parent: the groups partition the level's
/// index range contiguously, each child of a group has the group's parent,
/// and the parent indices are strictly increasing, so accumulation targets
/// of different groups never alias.  Boxes may be missing at either level;
/// only parents that do have children appear.
#[verifier::rlimit(100)]
pub fn m2m_index_plan(tree: &Octree, level: u64) -> (plan: Vec<M2mGroup>)
    requires
        tree.wf(),
        1 <= level < tree.level_keys@.len(),
    ensures
        ({
            let children = tree.level_keys@[level as int]@;
            let parents = tree.level_keys@[level as int - 1]@;
            &&& (children.len() == 0 ==> plan@.len() == 0)
            &&& (children.len() > 0 ==> plan@.len() > 0 && plan@[0].child_lo == 0
                && plan@[plan@.len() - 1].child_hi == children.len())
            &&& forall|g: int|
                0 <= g < plan@.len() ==> (#[trigger] plan@[g]).child_lo < plan@[g].child_hi
                    <= children.len() && plan@[g].parent_index < parents.len()
            &&& forall|g: int|
                0 <= g < plan@.len() - 1 ==> (#[trigger] plan@[g]).child_hi == plan@[g
                    + 1].child_lo
            &&& forall|g: int|
                0 <= g < plan@.len() - 1 ==> (#[trigger] plan@[g]).parent_index < plan@[g
                    + 1].parent_index
            &&& forall|g: int, j: int|
                #![trigger plan@[g], children[j]]
                0 <= g < plan@.len() && plan@[g].child_lo <= j < plan@[g].child_hi
                    ==> children[j].spec_parent() == parents[plan@[g].parent_index as int]
        }),
{
    let n = tree.level_keys[level as usize].len();
    let ghost cs = tree.level_keys@[level as int]@;
    let ghost ps = tree.level_keys@[level as int - 1]@;
    let mut plan: Vec<M2mGroup> = Vec::new();
    let mut j: usize = 0;
    while j < n
        invariant
            j <= n == cs.len(),
            tree.wf(),
            1 <= level < tree.level_keys@.len(),
            cs == tree.level_keys@[level as int]@,
            ps == tree.level_keys@[level as int - 1]@,
            j == 0 ==> plan@.len() == 0,
            j > 0 ==> plan@.len() > 0 && plan@[0].child_lo == 0 && plan@[plan@.len() - 1].child_hi
                == j,
            forall|g: int|
                0 <= g < plan@.len() ==> (#[trigger] plan@[g]).child_lo < plan@[g].child_hi <= j
                    && plan@[g].parent_index < ps.len(),
            forall|g: int|
                0 <= g < plan@.len() - 1 ==> (#[trigger] plan@[g]).child_hi == plan@[g
                    + 1].child_lo,
            forall|g: int|
                0 <= g < plan@.len() - 1 ==> (#[trigger] plan@[g]).parent_index < plan@[g
                    + 1].parent_index,
            forall|g: int, t: int|
                #![trigger plan@[g], cs[t]]
                0 <= g < plan@.len() && plan@[g].child_lo <= t < plan@[g].child_hi ==> cs[
                    t].spec_parent() == ps[plan@[g].parent_index as int],
            j > 0 && j < n ==> cs[j as int].spec_parent() != cs[j - 1].spec_parent(),
        decreases n - j,
    {
        let group = next_m2m_group(tree, level, j);
        let ghost plan_b = plan@;
        plan.push(group);
        proof {
            if plan_b.len() > 0 {
                let prev = plan_b[plan_b.len() - 1];
                assert(cs[j - 1].spec_parent() == ps[prev.parent_index as int]);
                assert(cs[j as int].spec_parent() == ps[group.parent_index as int]);
                assert(cs[j as int].spec_parent() != cs[j - 1].spec_parent());
                lemma_parent_order(*tree, level, j - 1, j as int, prev.parent_index as int,
                    group.parent_index as int);
            }
        }
        j = group.child_hi;
    }
    plan
}

/// Children in sorted level order with distinct parents have their parents
/// in strictly increasing position of the coarser level's sorted list.
proof fn lemma_parent_order(tree: Octree, level: u64, a: int, b: int, ia: int, ib: int)
    requires
        tree.wf(),
        1 <= level < tree.level_keys@.len(),
        0 <= a < b < tree.level_keys@[level as int]@.len(),
        0 <= ia < tree.level_keys@[level as int - 1]@.len(),
        0 <= ib < tree.level_keys@[level as int - 1]@.len(),
        tree.level_keys@[level as int]@[a].spec_parent() == tree.level_keys@[level as int
            - 1]@[ia],
        tree.level_keys@[level as int]@[b].spec_parent() == tree.level_keys@[level as int
            - 1]@[ib],
        tree.level_keys@[level as int]@[a].spec_parent() != tree.level_keys@[level as int
            ]@[b].spec_parent(),
    ensures
        ia < ib,
{
    let ka = tree.level_keys@[level as int]@[a];
    let kb = tree.level_keys@[level as int]@[b];
    let pa = ka.spec_parent();
    let pb = kb.spec_parent();
    assert(ka.wf() && kb.wf() && ka.level == level && kb.level == level);
    crate::morton::lemma_parent_wf(ka);
    crate::morton::lemma_parent_wf(kb);
    crate::morton::lemma_code_bound(ka.spec_parent());
    crate::morton::lemma_code_bound(kb.spec_parent());
    assert(ka.spec_code() < kb.spec_code());
    assert(ka.spec_code() == 8 * pa.spec_code() + ka.spec_octant());
    assert(kb.spec_code() == 8 * pb.spec_code() + kb.spec_octant());
    assert(0 <= ka.spec_octant() < 8 && 0 <= kb.spec_octant() < 8);
    assert(pa.spec_code() <= pb.spec_code()) by (nonlinear_arith)
        requires
            8 * pa.spec_code() + ka.spec_octant() < 8 * pb.spec_code() + kb.spec_octant(),
            0 <= ka.spec_octant() < 8,
            0 <= kb.spec_octant() < 8;
    if pa.spec_code() == pb.spec_code() {
        crate::morton::lemma_code_injective(pa, pb);
        assert(false);
    }
    if ia >= ib {
        if ia == ib {
            assert(pa == pb);
            assert(false);
        } else {
            assert(tree.level_keys@[level as int - 1]@[ib].spec_code() < tree.level_keys@[level
                as int - 1]@[ia].spec_code());
            assert(false);
        }
    }
}

/// Decides whether a charge dictionary's key set matches the tree's point
/// indices exactly: as many keys as points, all in range, none repeated.
pub fn check_charge_keys(keys: &Vec<usize>, npoints: usize) -> (ok: bool)
    ensures
        ok <==> (keys@.len() == npoints && (forall|i: int|
            0 <= i < keys@.len() ==> #[trigger] keys@[i] < npoints) && (forall|i: int, j: int|
            0 <= i < j < keys@.len() ==> keys@[i] != keys@[j])),
{
    if keys.len() != npoints {
        return false;
    }
    let mut seen: Vec<bool> = Vec::new();
    let mut i: usize = 0;
    while i < npoints
        invariant
            i <= npoints,
            seen@.len() == i,
            forall|t: int| 0 <= t < i ==> #[trigger] seen@[t] == false,
        decreases npoints - i,
    {
        seen.push(false);
        i = i + 1;
    }
    let mut i: usize = 0;
    while i < npoints
        invariant
            i <= npoints == keys@.len() == seen@.len(),
            forall|t: int| 0 <= t < i ==> #[trigger] keys@[t] < npoints,
            forall|v: int|
                0 <= v < npoints ==> (#[trigger] seen@[v] == exists|t: int|
                    0 <= t < i && keys@[t] == v),
            forall|t: int, u: int| 0 <= t < u < i ==> keys@[t] != keys@[u],
        decreases npoints - i,
    {
        let k = keys[i];
        if k >= npoints {
            return false;
        }
        if seen[k] {
            proof {
                let t = choose|t: int| 0 <= t < i && keys@[t] == k;
                assert(keys@[t] == keys@[i as int]);
            }
            return false;
        }
        seen.set(k, true);
        i = i + 1;
    }
    proof {
        assert forall|t: int, u: int| 0 <= t < u < keys@.len() implies keys@[t] != keys@[u] by {}
    }
    true
}

/// Reorders values by a permutation: entry `i` of the result is
/// `values[perm[i]]`.  Used to carry charges into Morton order.
pub fn permute<T: Copy>(values: &Vec<T>, perm: &Vec<usize>) -> (r: Vec<T>)
    requires
        forall|i: int| 0 <= i < perm@.len() ==> #[trigger] perm@[i] < values@.len(),
    ensures
        r@.len() == perm@.len(),
        forall|i: int| 0 <= i < r@.len() ==> #[trigger] r@[i] == values@[perm@[i] as int],
{
    let n = perm.len();
    let mut r: Vec<T> = Vec::new();
    let mut i: usize = 0;
    while i < n
        invariant
            i <= n == perm@.len(),
            forall|t: int| 0 <= t < n ==> #[trigger] perm@[t] < values@.len(),
            r@.len() == i,
            forall|t: int| 0 <= t < i ==> #[trigger] r@[t] == values@[perm@[t] as int],
        decreases n - i,
    {
        r.push(values[perm[i]]);
        i = i + 1;
    }
    r
}

/// Scatters values back through a permutation: position `perm[i]` of the
/// result holds `values[i]`.  Used to return per-point results in the
/// caller's original ordering.
pub fn scatter<T: Copy>(values: &Vec<T>, perm: &Vec<usize>, fill: T) -> (r: Vec<T>)
    requires
        values@.len() == perm@.len(),
        forall|i: int| 0 <= i < perm@.len() ==> #[trigger] perm@[i] < perm@.len(),
        forall|i: int, j: int| 0 <= i < j < perm@.len() ==> perm@[i] != perm@[j],
    ensures
        r@.len() == perm@.len(),
        forall|i: int| 0 <= i < perm@.len() ==> r@[#[trigger] perm@[i] as int] == values@[i],
{
    let n = perm.len();
    let mut r: Vec<T> = Vec::new();
    let mut i: usize = 0;
    while i < n
        invariant
            i <= n,
            r@.len() == i,
        decreases n - i,
    {
        r.push(fill);
        i = i + 1;
    }
    let mut i: usize = 0;
    while i < n
        invariant
            i <= n == perm@.len() == values@.len(),
            r@.len() == n,
            forall|t: int| 0 <= t < n ==> #[trigger] perm@[t] < n,
            forall|t: int, u: int| 0 <= t < u < n ==> perm@[t] != perm@[u],
            forall|t: int| 0 <= t < i ==> r@[#[trigger] perm@[t] as int] == values@[t],
        decreases n - i,
    {
        r.set(perm[i], values[i]);
        i = i + 1;
    }
    r
}

/// One step of the FMM loop.
#[derive(Clone, Copy, PartialEq, Eq, Structural, Debug)]
pub enum FmmPass {
    /// Point-to-multipole over every leaf.
    P2m,
    /// Multipole-to-multipole from the boxes of a level into their parents.
    M2m(u64),
    /// Multipole-to-local over the V-lists of a level.
    M2l(u64),
    /// Local-to-local from the boxes of a level into their children.
    L2l(u64),
    /// Direct near-field evaluation and local-to-point at the leaves.
    NearField,
}

/// The pass order of one full run over a tree of a given depth: P2M once;
/// M2M from the deepest level up to level 1; M2L for levels 2 through the
/// depth (it is undefined on the two coarsest levels); L2L for the levels
/// that distribute down to children; near field last.
pub fn fmm_schedule(depth: u64) -> (r: Vec<FmmPass>)
    requires
        2 <= depth <= crate::morton::MAX_LEVEL,
    ensures
        r@.len() == 3 * depth - 1,
        r@[0] == FmmPass::P2m,
        forall|i: int| 0 <= i < depth ==> #[trigger] r@[1 + i] == FmmPass::M2m((depth - i) as u64),
        forall|i: int| 0 <= i < depth - 1 ==> #[trigger] r@[1 + depth + i] == FmmPass::M2l((2 + i) as u64),
        forall|i: int|
            0 <= i < depth - 2 ==> #[trigger] r@[depth + depth + i] == FmmPass::L2l((2 + i) as u64),
        r@[3 * depth - 2] == FmmPass::NearField,
{
    let mut r: Vec<FmmPass> = Vec::new();
    r.push(FmmPass::P2m);
    let mut l: u64 = depth;
    while l >= 1
        invariant
            l <= depth,
            r@.len() == 1 + (depth - l),
            r@[0] == FmmPass::P2m,
            forall|i: int| 0 <= i < depth - l ==> #[trigger] r@[1 + i] == FmmPass::M2m((depth - i) as u64),
        decreases l,
    {
        r.push(FmmPass::M2m(l));
        l = l - 1;
    }
    let mut l: u64 = 2;
    while l <= depth
        invariant
            2 <= l <= depth + 1,
            2 <= depth <= crate::morton::MAX_LEVEL,
            r@.len() == 1 + depth + (l - 2),
            r@[0] == FmmPass::P2m,
            forall|i: int| 0 <= i < depth ==> #[trigger] r@[1 + i] == FmmPass::M2m((depth - i) as u64),
            forall|i: int| 0 <= i < l - 2 ==> #[trigger] r@[1 + depth + i] == FmmPass::M2l((2 + i) as u64),
        decreases depth + 1 - l,
    {
        r.push(FmmPass::M2l(l));
        l = l + 1;
    }
    let mut l: u64 = 2;
    while l < depth
        invariant
            2 <= l <= depth,
            2 <= depth <= crate::morton::MAX_LEVEL,
            r@.len() == depth + depth + (l - 2),
            r@[0] == FmmPass::P2m,
            forall|i: int| 0 <= i < depth ==> #[trigger] r@[1 + i] == FmmPass::M2m((depth - i) as u64),
            forall|i: int| 0 <= i < depth - 1 ==> #[trigger] r@[1 + depth + i] == FmmPass::M2l((2 + i) as u64),
            forall|i: int| 0 <= i < l - 2 ==> #[trigger] r@[depth + depth + i] == FmmPass::L2l((2 + i) as u64),
        decreases depth - l,
    {
        r.push(FmmPass::L2l(l));
        l = l + 1;
    }
    r.push(FmmPass::NearField);
    r
}

/// Exponent of the level-dependent M2L scale factor `2^(level - 3)` for a
/// homogeneous kernel: at level 2 the factor is one half, and it doubles
/// with every level.  Levels below 2 have no M2L translation at all, so
/// they are outside this function's domain.
pub fn m2l_scale_power(level: u64) -> (p: i64)
    requires
        2 <= level <= crate::morton::MAX_LEVEL,
    ensures
        p == level - 3,
{
    level as i64 - 3
}

} // verus!
