//! The linear octree: a flat, pointer-free partition of a 3D point set into
//! Morton-keyed boxes.  Points are permuted into Morton order once at
//! construction; every leaf owns a half-open range of the sorted points, and
//! each level holds a sorted, deduplicated key list that doubles as a
//! key-to-contiguous-index map.
use vstd::prelude::*;

use crate::ConfigError;
use crate::morton::{MortonKey, MAX_LEVEL, pow8, pow8_u64, lemma_pow8_pos, lemma_pow8_mono,
    lemma_pow8_adds, lemma_pow2_bounds, lemma_code_bound};
use crate::sort::{PointRecord, sort_by_code, lemma_rearranged_members};

verus! {

/// A point of the input cloud, reduced to the deepest-level lattice cell
/// that holds it.  The caller maps raw coordinates onto the `2^16` lattice
/// of the bounding domain.
#[derive(Clone, Copy, PartialEq, Eq, Structural, Debug)]
pub struct PointAnchor {
    pub x: u64,
    pub y: u64,
    pub z: u64,
}

impl PointAnchor {
    pub open spec fn wf(self) -> bool {
        self.x < 65536 && self.y < 65536 && self.z < 65536
    }

    /// The deepest-level key of the cell holding this point.
    pub open spec fn spec_key(self) -> MortonKey {
        MortonKey { x: self.x, y: self.y, z: self.z, level: MAX_LEVEL }
    }

    /// The Morton code of the cell holding this point.
    pub open spec fn spec_code(self) -> int {
        self.spec_key().spec_code()
    }
}

/// Whether a key list holds a given key.
pub open spec fn has_key(keys: Seq<MortonKey>, k: MortonKey) -> bool {
    exists|j: int| 0 <= j < keys.len() && keys[j] == k
}

/// First deepest-level code inside a key's volume.
pub open spec fn key_start(k: MortonKey) -> int {
    k.spec_code() * pow8((MAX_LEVEL - k.level) as nat)
}

/// One past the last deepest-level code inside a key's volume.
pub open spec fn key_end(k: MortonKey) -> int {
    (k.spec_code() + 1) * pow8((MAX_LEVEL - k.level) as nat)
}

/// The octree itself: per-level sorted key lists, the global leaf list with
/// one half-open point range per leaf, and the permutation that carried the
/// points into Morton order.
pub struct Octree {
    /// Deepest leaf level of the tree.
    pub depth: u64,
    /// Whether the tree was refined adaptively or built at a uniform depth.
    pub adaptive: bool,
    /// For each position of the sorted order, the caller's point index.
    pub global_indices: Vec<usize>,
    /// The deepest-level Morton codes of the points, in sorted order.
    pub sorted_codes: Vec<u64>,
    /// All leaves, in Morton order.
    pub leaves: Vec<MortonKey>,
    /// For each leaf, the half-open range of sorted points it owns.
    pub leaf_ranges: Vec<(usize, usize)>,
    /// For each level `0 ..= depth`, the keys of that level sorted by code.
    pub level_keys: Vec<Vec<MortonKey>>,
}

impl Octree {
    pub open spec fn npoints(self) -> int {
        self.global_indices@.len() as int
    }

    /// Structural validity: sorted points, leaf ranges that partition them,
    /// leaves in Morton order with codes inside their volumes, and sorted
    /// parent-closed key lists per level.
    pub open spec fn wf(self) -> bool {
        &&& self.depth <= MAX_LEVEL
        &&& self.npoints() > 0
        &&& self.sorted_codes@.len() == self.npoints()
        &&& forall|s: int| 0 <= s < self.npoints() ==> #[trigger] self.sorted_codes@[s] < pow8(
            MAX_LEVEL as nat)
        &&& forall|s: int, u: int|
            0 <= s < u < self.npoints() ==> self.sorted_codes@[s] <= self.sorted_codes@[u]
        &&& forall|s: int| 0 <= s < self.npoints() ==> #[trigger] self.global_indices@[s]
            < self.npoints()
        &&& self.leaf_ranges@.len() == self.leaves@.len()
        &&& self.leaves@.len() > 0
        &&& forall|i: int| 0 <= i < self.leaves@.len() ==> (#[trigger] self.leaves@[i]).wf()
        &&& forall|i: int| 0 <= i < self.leaves@.len() ==> (#[trigger] self.leaves@[i]).level
            <= self.depth
        &&& self.leaf_ranges@[0].0 == 0
        &&& self.leaf_ranges@[self.leaf_ranges@.len() - 1].1 == self.npoints()
        &&& forall|i: int| 0 <= i < self.leaf_ranges@.len() ==> (#[trigger] self.leaf_ranges@[i]).0
            <= self.leaf_ranges@[i].1
        &&& forall|i: int|
            0 <= i < self.leaf_ranges@.len() - 1 ==> (#[trigger] self.leaf_ranges@[i]).1
                == self.leaf_ranges@[i + 1].0
        &&& forall|i: int, t: int|
            #![trigger self.leaves@[i], self.sorted_codes@[t]]
            0 <= i < self.leaves@.len() && self.leaf_ranges@[i].0 <= t < self.leaf_ranges@[i].1
                ==> key_start(self.leaves@[i]) <= self.sorted_codes@[t] < key_end(self.leaves@[i])
        &&& forall|i: int|
            0 <= i < self.leaves@.len() - 1 ==> key_end(#[trigger] self.leaves@[i]) <= key_start(
                self.leaves@[i + 1])
        &&& self.level_keys@.len() == self.depth + 1
        &&& forall|l: int, i: int|
            0 <= l < self.level_keys@.len() && 0 <= i < self.level_keys@[l].len() ==> (
            #[trigger] self.level_keys@[l][i]).wf() && self.level_keys@[l][i].level == l
        &&& forall|l: int, i: int, j: int|
            0 <= l < self.level_keys@.len() && 0 <= i < j < self.level_keys@[l].len()
                ==> (#[trigger] self.level_keys@[l][i]).spec_code()
                < (#[trigger] self.level_keys@[l][j]).spec_code()
        &&& forall|l: int, i: int|
            1 <= l < self.level_keys@.len() && 0 <= i < self.level_keys@[l].len() ==> has_key(
                self.level_keys@[l - 1]@, (#[trigger] self.level_keys@[l][i]).spec_parent())
    }
}

impl Octree {
    /// Builds a uniform tree: every leaf of the requested depth exists,
    /// empty or not, and owns exactly the points whose deepest-level codes
    /// fall inside its volume.
    pub fn uniform(anchors: &Vec<PointAnchor>, depth: u64) -> (r: Result<Octree, ConfigError>)
        requires
            forall|j: int| 0 <= j < anchors@.len() ==> (#[trigger] anchors@[j]).wf(),
        ensures
            r is Err <==> (anchors@.len() == 0 || depth > MAX_LEVEL || pow8(depth as nat)
                > usize::MAX),
            anchors@.len() == 0 ==> r == Err::<Octree, ConfigError>(ConfigError::EmptyPointSet),
            anchors@.len() > 0 && r is Err ==> r == Err::<Octree, ConfigError>(
                ConfigError::InvalidDepth),
            r is Ok ==> ({
                let t = r->Ok_0;
                &&& t.wf()
                &&& t.depth == depth
                &&& t.adaptive == false
                &&& t.npoints() == anchors@.len()
                &&& forall|j: int| 0 <= j < anchors@.len() ==> #[trigger] t.global_indices@.contains(j as usize)
                &&& forall|s: int|
                    0 <= s < t.npoints() ==> #[trigger] t.sorted_codes@[s] == anchors@[t.global_indices@[s] as int].spec_code()
                &&& t.leaves@.len() == pow8(depth as nat)
                &&& forall|i: int|
                    0 <= i < t.leaves@.len() ==> (#[trigger] t.leaves@[i]).level == depth
                        && t.leaves@[i].spec_code() == i
                &&& forall|l: int| 0 <= l <= depth ==> #[trigger] t.level_keys@[l].len() == pow8(l as nat)
                &&& forall|l: int, c: int|
                    0 <= l <= depth && 0 <= c < t.level_keys@[l].len()
                        ==> (#[trigger] t.level_keys@[l][c]).spec_code() == c
            }),
    {
        let n = anchors.len();
        if n == 0 {
            return Err(ConfigError::EmptyPointSet);
        }
        if depth > MAX_LEVEL {
            return Err(ConfigError::InvalidDepth);
        }
        let nl64 = pow8_u64(depth);
        proof {
            lemma_pow8_pos(depth as nat);
        }
        if nl64 > usize::MAX as u64 {
            return Err(ConfigError::InvalidDepth);
        }
        let (global_indices, sorted_codes) = morton_order(anchors);
        let mut level_keys: Vec<Vec<MortonKey>> = Vec::new();
        let mut l: u64 = 0;
        while l <= depth
            invariant
                l <= depth + 1,
                depth <= MAX_LEVEL,
                nl64 == pow8(depth as nat),
                nl64 <= usize::MAX,
                level_keys@.len() == l,
                forall|m: int| 0 <= m < l ==> #[trigger] level_keys@[m].len() == pow8(m as nat),
                forall|m: int, c: int|
                    0 <= m < l && 0 <= c < level_keys@[m].len() ==> (
                    #[trigger] level_keys@[m][c]).wf() && level_keys@[m][c].level == m
                        && level_keys@[m][c].spec_code() == c,
            decreases depth + 1 - l,
        {
            proof {
                lemma_pow8_mono(l as nat, depth as nat);
            }
            let m64 = pow8_u64(l);
            let mut keys: Vec<MortonKey> = Vec::new();
            let mut c: u64 = 0;
            while c < m64
                invariant
                    c <= m64,
                    l <= MAX_LEVEL,
                    m64 == pow8(l as nat),
                    m64 <= usize::MAX,
                    keys@.len() == c,
                    forall|d: int|
                        0 <= d < c ==> (#[trigger] keys@[d]).wf() && keys@[d].level == l
                            && keys@[d].spec_code() == d,
                decreases m64 - c,
            {
                keys.push(MortonKey::from_code(c, l));
                c = c + 1;
            }
            level_keys.push(keys);
            l = l + 1;
        }
        let mut leaves: Vec<MortonKey> = Vec::new();
        let mut li: u64 = 0;
        while li < nl64
            invariant
                li <= nl64,
                depth <= MAX_LEVEL,
                nl64 == pow8(depth as nat),
                nl64 <= usize::MAX,
                leaves@.len() == li,
                forall|i: int|
                    0 <= i < li ==> (#[trigger] leaves@[i]).wf() && leaves@[i].level == depth
                        && leaves@[i].spec_code() == i,
            decreases nl64 - li,
        {
            leaves.push(MortonKey::from_code(li, depth));
            li = li + 1;
        }
        let w = pow8_u64(MAX_LEVEL - depth);
        proof {
            lemma_pow8_pos((MAX_LEVEL - depth) as nat);
            lemma_pow8_adds(depth as nat, (MAX_LEVEL - depth) as nat);
            lemma_pow2_bounds();
        }
        let mut leaf_ranges: Vec<(usize, usize)> = Vec::new();
        let mut t: usize = 0;
        let mut li: u64 = 0;
        while li < nl64
            invariant
                li <= nl64,
                t <= n,
                n == sorted_codes@.len(),
                nl64 == pow8(depth as nat),
                nl64 <= usize::MAX,
                w == pow8((MAX_LEVEL - depth) as nat),
                w >= 1,
                nl64 * w == pow8(MAX_LEVEL as nat),
                forall|s: int| 0 <= s < n ==> #[trigger] sorted_codes@[s] < pow8(MAX_LEVEL as nat),
                forall|s: int, u: int| 0 <= s < u < n ==> sorted_codes@[s] <= sorted_codes@[u],
                leaf_ranges@.len() == li,
                li == 0 ==> t == 0,
                li > 0 ==> leaf_ranges@[0].0 == 0,
                li > 0 ==> leaf_ranges@[li - 1].1 == t,
                forall|i: int| 0 <= i < li ==> (#[trigger] leaf_ranges@[i]).0 <= leaf_ranges@[i].1,
                forall|i: int|
                    0 <= i < li - 1 ==> (#[trigger] leaf_ranges@[i]).1 == leaf_ranges@[i + 1].0,
                forall|i: int, s: int|
                    #![trigger leaf_ranges@[i], sorted_codes@[s]]
                    0 <= i < li && leaf_ranges@[i].0 <= s < leaf_ranges@[i].1 ==> i * w
                        <= sorted_codes@[s] < (i + 1) * w,
                t == n || sorted_codes@[t as int] >= li * w,
            decreases nl64 - li,
        {
            let lo = t;
            proof {
                lemma_pow2_bounds();
                assert((li + 1) * w <= nl64 * w) by (nonlinear_arith)
                    requires li + 1 <= nl64, w >= 1;
                assert(li * w <= (li + 1) * w) by (nonlinear_arith)
                    requires w >= 1, li >= 0;
            }
            let hi_code = (li + 1) * w;
            while t < n && sorted_codes[t] < hi_code
                invariant
                    lo <= t <= n,
                    n == sorted_codes@.len(),
                    hi_code == (li + 1) * w,
                    li * w <= hi_code,
                    forall|s: int, u: int| 0 <= s < u < n ==> sorted_codes@[s] <= sorted_codes@[u],
                    forall|s: int| lo <= s < t ==> #[trigger] sorted_codes@[s] < hi_code,
                    t == n || sorted_codes@[t as int] >= li * w,
                    lo == t || sorted_codes@[lo as int] >= li * w,
                decreases n - t,
            {
                t = t + 1;
            }
            leaf_ranges.push((lo, t));
            proof {
                assert forall|s: int| lo <= s < t implies li * w <= #[trigger] sorted_codes@[s]
                    < (li + 1) * w by {
                    assert(sorted_codes@[lo as int] <= sorted_codes@[s]);
                }
            }
            li = li + 1;
        }
        proof {
            if t < n {
                assert(sorted_codes@[t as int] >= nl64 * w);
                assert(sorted_codes@[t as int] < pow8(MAX_LEVEL as nat));
            }
            assert(t == n);
        }
        let tree = Octree {
            depth,
            adaptive: false,
            global_indices,
            sorted_codes,
            leaves,
            leaf_ranges,
            level_keys,
        };
        proof {
            lemma_uniform_wf(tree, w as int);
        }
        Ok(tree)
    }
}

/// The assembled uniform tree satisfies the octree invariant.
#[verifier::rlimit(100)]
proof fn lemma_uniform_wf(tree: Octree, w: int)
    requires
        tree.depth <= MAX_LEVEL,
        w == pow8((MAX_LEVEL - tree.depth) as nat),
        tree.npoints() > 0,
        tree.sorted_codes@.len() == tree.npoints(),
        forall|s: int|
            0 <= s < tree.npoints() ==> #[trigger] tree.sorted_codes@[s] < pow8(MAX_LEVEL as nat),
        forall|s: int, u: int|
            0 <= s < u < tree.npoints() ==> tree.sorted_codes@[s] <= tree.sorted_codes@[u],
        forall|s: int| 0 <= s < tree.npoints() ==> #[trigger] tree.global_indices@[s]
            < tree.npoints(),
        tree.leaves@.len() == pow8(tree.depth as nat),
        tree.leaf_ranges@.len() == tree.leaves@.len(),
        forall|i: int|
            0 <= i < tree.leaves@.len() ==> (#[trigger] tree.leaves@[i]).wf()
                && tree.leaves@[i].level == tree.depth && tree.leaves@[i].spec_code() == i,
        tree.leaf_ranges@[0].0 == 0,
        tree.leaf_ranges@[tree.leaf_ranges@.len() - 1].1 == tree.npoints(),
        forall|i: int|
            0 <= i < tree.leaf_ranges@.len() ==> (#[trigger] tree.leaf_ranges@[i]).0
                <= tree.leaf_ranges@[i].1,
        forall|i: int|
            0 <= i < tree.leaf_ranges@.len() - 1 ==> (#[trigger] tree.leaf_ranges@[i]).1
                == tree.leaf_ranges@[i + 1].0,
        forall|i: int, s: int|
            #![trigger tree.leaf_ranges@[i], tree.sorted_codes@[s]]
            0 <= i < tree.leaf_ranges@.len() && tree.leaf_ranges@[i].0 <= s
                < tree.leaf_ranges@[i].1 ==> i * w <= tree.sorted_codes@[s] < (i + 1) * w,
        tree.level_keys@.len() == tree.depth + 1,
        forall|m: int| 0 <= m < tree.level_keys@.len() ==> #[trigger] tree.level_keys@[m].len()
            == pow8(m as nat),
        forall|m: int, c: int|
            0 <= m < tree.level_keys@.len() && 0 <= c < tree.level_keys@[m].len() ==> (
            #[trigger] tree.level_keys@[m][c]).wf() && tree.level_keys@[m][c].level == m
                && tree.level_keys@[m][c].spec_code() == c,
    ensures
        tree.wf(),
{
    lemma_pow8_pos(tree.depth as nat);
    assert forall|i: int, t: int|
        #![trigger tree.leaves@[i], tree.sorted_codes@[t]]
        0 <= i < tree.leaves@.len() && tree.leaf_ranges@[i].0 <= t < tree.leaf_ranges@[i].1
        implies key_start(tree.leaves@[i]) <= tree.sorted_codes@[t] < key_end(
        tree.leaves@[i]) by {
        assert(key_start(tree.leaves@[i]) == i * w && key_end(tree.leaves@[i]) == (i + 1) * w);
        assert(i * w <= tree.sorted_codes@[t] < (i + 1) * w);
    }
    assert forall|i: int| 0 <= i < tree.leaves@.len() - 1 implies key_end(
        #[trigger] tree.leaves@[i]) <= key_start(tree.leaves@[i + 1]) by {
        assert(key_end(tree.leaves@[i]) == (i + 1) * w);
        assert(key_start(tree.leaves@[i + 1]) == (i + 1) * w);
    }
    assert forall|l: int, i: int|
        1 <= l < tree.level_keys@.len() && 0 <= i < tree.level_keys@[l].len() implies has_key(
        tree.level_keys@[l - 1]@, (#[trigger] tree.level_keys@[l][i]).spec_parent()) by {
        let k = tree.level_keys@[l][i];
        let p = k.spec_parent();
        crate::morton::lemma_parent_wf(k);
        crate::morton::lemma_code_bound(p);
        assert(k.spec_code() == 8 * p.spec_code() + k.spec_octant());
        assert(0 <= k.spec_octant() < 8);
        let j = p.spec_code();
        assert(0 <= j < pow8((l - 1) as nat)) by {
            lemma_code_bound(p);
        }
        assert(tree.level_keys@[l - 1][j].spec_code() == j);
        crate::morton::lemma_code_injective(tree.level_keys@[l - 1][j], p);
        assert(tree.level_keys@[l - 1][j] == p);
    }
}

/// Advances through the sorted codes while they stay below a bound.
fn scan_below(sorted_codes: &Vec<u64>, from: usize, hi: usize, bound: u64) -> (t: usize)
    requires
        from <= hi <= sorted_codes@.len(),
        forall|s: int, u: int|
            0 <= s < u < sorted_codes@.len() ==> sorted_codes@[s] <= sorted_codes@[u],
    ensures
        from <= t <= hi,
        forall|s: int| from <= s < t ==> #[trigger] sorted_codes@[s] < bound,
        t < hi ==> sorted_codes@[t as int] >= bound,
{
    let mut t = from;
    while t < hi && sorted_codes[t] < bound
        invariant
            from <= t <= hi <= sorted_codes@.len(),
            forall|s: int| from <= s < t ==> #[trigger] sorted_codes@[s] < bound,
        decreases hi - t,
    {
        t = t + 1;
    }
    t
}

/// The code interval of the `c`-th child of a key splits off the `c`-th
/// eighth of the parent's interval.
proof fn lemma_child_interval(key: MortonKey, c: int, w: int)
    requires
        key.wf(),
        key.level < MAX_LEVEL,
        0 <= c < 8,
        w == pow8((MAX_LEVEL - key.level - 1) as nat),
    ensures
        key.spec_child(c).wf(),
        key.spec_child(c).spec_code() == 8 * key.spec_code() + c,
        key.spec_child(c).level == key.level + 1,
        key_start(key.spec_child(c)) == key.spec_code() * 8 * w + c * w,
        key_end(key.spec_child(c)) == key.spec_code() * 8 * w + (c + 1) * w,
        key_start(key) == key.spec_code() * 8 * w,
        key_end(key) == key.spec_code() * 8 * w + 8 * w,
        key_end(key.spec_child(c)) <= pow8(MAX_LEVEL as nat),
        (8 * key.spec_code() + c + 1) * w == key_end(key.spec_child(c)),
{
    crate::morton::lemma_child_wf(key, c);
    lemma_code_bound(key);
    lemma_pow8_pos((MAX_LEVEL - key.level - 1) as nat);
    let kc = key.spec_code();
    assert(pow8((MAX_LEVEL - key.level) as nat) == 8 * w);
    lemma_pow8_adds(key.level as nat, (MAX_LEVEL - key.level) as nat);
    assert(pow8(key.level as nat) * (8 * w) == pow8(MAX_LEVEL as nat));
    assert((8 * kc + c) * w == kc * 8 * w + c * w && (8 * kc + c + 1) * w == kc * 8 * w + (c + 1)
        * w && kc * (8 * w) == kc * 8 * w && (kc + 1) * (8 * w) == kc * 8 * w + 8 * w)
        by (nonlinear_arith);
    assert((8 * kc + c + 1) * w <= pow8(MAX_LEVEL as nat)) by (nonlinear_arith)
        requires
            kc + 1 <= pow8(key.level as nat),
            w >= 1,
            0 <= c < 8,
            0 <= kc,
            pow8(key.level as nat) * (8 * w) == pow8(MAX_LEVEL as nat),
    ;
    lemma_pow8_pos((MAX_LEVEL - key.level - 1) as nat);
}

/// The leaves and ranges at positions `n0 .. n1` form one well-shaped block
/// below a box: contiguous nonempty ranges running from `lo` to `hi`, leaves
/// in Morton order whose code intervals lie inside `[lo_code, hi_code)`,
/// every owned code inside its leaf's interval, and every leaf either within
/// the threshold or at the deepest level.
pub open spec fn leaf_block_wf(
    leaves: Seq<MortonKey>,
    ranges: Seq<(usize, usize)>,
    codes: Seq<u64>,
    n0: int,
    n1: int,
    lo: int,
    hi: int,
    n_crit: int,
    min_level: int,
    lo_code: int,
    hi_code: int,
) -> bool {
    &&& 0 <= n0 <= n1 <= leaves.len()
    &&& ranges.len() == leaves.len()
    &&& (n0 < n1 ==> ranges[n0].0 == lo && ranges[n1 - 1].1 == hi)
    &&& (n0 == n1 ==> lo == hi)
    &&& forall|i: int|
        n0 <= i < n1 ==> (#[trigger] leaves[i]).wf() && min_level <= leaves[i].level <= MAX_LEVEL
            && lo_code <= key_start(leaves[i]) && key_end(leaves[i]) <= hi_code
    &&& forall|i: int| n0 <= i < n1 ==> (#[trigger] ranges[i]).0 < ranges[i].1
    &&& forall|i: int| n0 <= i < n1 - 1 ==> (#[trigger] ranges[i]).1 == ranges[i + 1].0
    &&& forall|i: int, s: int|
        #![trigger leaves[i], codes[s]]
        n0 <= i < n1 && ranges[i].0 <= s < ranges[i].1 ==> key_start(leaves[i]) <= codes[s]
            < key_end(leaves[i])
    &&& forall|i: int|
        n0 <= i < n1 - 1 ==> key_end(#[trigger] leaves[i]) <= key_start(leaves[i + 1])
    &&& forall|i: int|
        n0 <= i < n1 ==> ((#[trigger] ranges[i]).1 - ranges[i].0 <= n_crit || leaves[i].level
            == MAX_LEVEL)
}

/// Two adjacent blocks over touching point ranges and ordered code windows
/// join into one block.
proof fn lemma_block_concat(
    leaves: Seq<MortonKey>,
    ranges: Seq<(usize, usize)>,
    codes: Seq<u64>,
    n0: int,
    n1: int,
    n2: int,
    lo: int,
    m: int,
    hi: int,
    n_crit: int,
    min_level: int,
    lo_code: int,
    b1: int,
    b2: int,
    hi_code: int,
)
    requires
        leaf_block_wf(leaves, ranges, codes, n0, n1, lo, m, n_crit, min_level, lo_code, b1),
        leaf_block_wf(leaves, ranges, codes, n1, n2, m, hi, n_crit, min_level, b2, hi_code),
        lo_code <= b2,
        b1 <= b2,
        b1 <= hi_code,
    ensures
        leaf_block_wf(leaves, ranges, codes, n0, n2, lo, hi, n_crit, min_level, lo_code, hi_code),
{
    if n0 < n1 && n1 < n2 {
        assert(ranges[n1 - 1].1 == m == ranges[n1].0);
        assert(key_end(leaves[n1 - 1]) <= b1 <= b2 <= key_start(leaves[n1]));
    }
}

/// A block below a child of a key, weakened to the key's own level bound
/// and code window, is a block below the key.
proof fn lemma_block_widen(
    leaves: Seq<MortonKey>,
    ranges: Seq<(usize, usize)>,
    codes: Seq<u64>,
    n0: int,
    n1: int,
    lo: int,
    hi: int,
    n_crit: int,
    min_level: int,
    min_level2: int,
    lo_code: int,
    lo_code2: int,
    hi_code: int,
    hi_code2: int,
)
    requires
        leaf_block_wf(leaves, ranges, codes, n0, n1, lo, hi, n_crit, min_level, lo_code, hi_code),
        min_level2 <= min_level,
        lo_code2 <= lo_code,
        hi_code <= hi_code2,
    ensures
        leaf_block_wf(
            leaves,
            ranges,
            codes,
            n0,
            n1,
            lo,
            hi,
            n_crit,
            min_level2,
            lo_code2,
            hi_code2,
        ),
{
}

/// Refines one box recursively: the box becomes a leaf when its points fit
/// the threshold or the deepest level is reached; otherwise its points are
/// split among its children and empty children are pruned.  Appends the
/// leaves below the box, in Morton order, each with its point range.
fn refine(
    sorted_codes: &Vec<u64>,
    lo: usize,
    hi: usize,
    key: MortonKey,
    n_crit: usize,
    leaves: &mut Vec<MortonKey>,
    leaf_ranges: &mut Vec<(usize, usize)>,
)
    requires
        old(leaves)@.len() == old(leaf_ranges)@.len(),
        key.wf(),
        n_crit >= 1,
        lo < hi <= sorted_codes@.len(),
        forall|s: int, u: int|
            0 <= s < u < sorted_codes@.len() ==> sorted_codes@[s] <= sorted_codes@[u],
        forall|s: int|
            lo <= s < hi ==> key_start(key) <= #[trigger] sorted_codes@[s] < key_end(key),
    ensures
        final(leaves)@.len() > old(leaves)@.len(),
        final(leaves)@.subrange(0, old(leaves)@.len() as int) == old(leaves)@,
        final(leaf_ranges)@.subrange(0, old(leaf_ranges)@.len() as int) == old(leaf_ranges)@,
        leaf_block_wf(
            final(leaves)@,
            final(leaf_ranges)@,
            sorted_codes@,
            old(leaves)@.len() as int,
            final(leaves)@.len() as int,
            lo as int,
            hi as int,
            n_crit as int,
            key.level as int,
            key_start(key),
            key_end(key),
        ),
    decreases MAX_LEVEL - key.level,
{
    let ghost n0 = leaves@.len() as int;
    if hi - lo <= n_crit || key.level == MAX_LEVEL {
        leaves.push(key);
        leaf_ranges.push((lo, hi));
        proof {
            assert(leaves@.subrange(0, n0) == old(leaves)@);
            assert(leaf_ranges@.subrange(0, n0) == old(leaf_ranges)@);
            crate::morton::lemma_pow8_pos((MAX_LEVEL - key.level) as nat);
        }
        return ;
    }
    let children = key.children();
    let w = pow8_u64(MAX_LEVEL - key.level - 1);
    let key_code = key.code();
    proof {
        lemma_child_interval(key, 0, w as int);
        lemma_code_bound(key);
        lemma_pow8_pos((MAX_LEVEL - key.level - 1) as nat);
        lemma_pow8_mono(key.level as nat, MAX_LEVEL as nat);
        lemma_pow8_adds(key.level as nat, (MAX_LEVEL - key.level) as nat);
        lemma_pow2_bounds();
        assert(pow8((MAX_LEVEL - key.level) as nat) == 8 * w);
        assert(key_end(key) <= pow8(MAX_LEVEL as nat)) by (nonlinear_arith)
            requires
                key.spec_code() + 1 <= pow8(key.level as nat),
                w >= 1,
                pow8(key.level as nat) * (8 * w) == pow8(MAX_LEVEL as nat),
                key_end(key) == key.spec_code() * 8 * w + 8 * w,
                key.spec_code() >= 0,
                (key.spec_code() + 1) * (8 * w) == key.spec_code() * 8 * w + 8 * w,
        ;
        assert((key.spec_code() + 1) * (8 * w) == key.spec_code() * 8 * w + 8 * w)
            by (nonlinear_arith);
    }
    let mut t: usize = lo;
    let mut c: u64 = 0;
    while c < 8
        invariant
            c <= 8,
            n_crit >= 1,
            lo <= t <= hi <= sorted_codes@.len(),
            key.wf(),
            key.level < MAX_LEVEL,
            key_code == key.spec_code(),
            key_code < 0x1000000000000,
            w == pow8((MAX_LEVEL - key.level - 1) as nat),
            w >= 1,
            key_start(key) == key_code * 8 * w,
            key_end(key) == key_code * 8 * w + 8 * w,
            key_end(key) <= pow8(MAX_LEVEL as nat),
            children@.len() == 8,
            forall|d: int| 0 <= d < 8 ==> children@[d] == key.spec_child(d),
            forall|s: int, u: int|
                0 <= s < u < sorted_codes@.len() ==> sorted_codes@[s] <= sorted_codes@[u],
            forall|s: int|
                lo <= s < hi ==> key_start(key) <= #[trigger] sorted_codes@[s] < key_end(key),
            leaves@.len() == leaf_ranges@.len(),
            leaves@.len() >= n0 == old(leaves)@.len() == old(leaf_ranges)@.len(),
            leaves@.subrange(0, n0) == old(leaves)@,
            leaf_ranges@.subrange(0, n0) == old(leaf_ranges)@,
            t == hi || sorted_codes@[t as int] >= key_code * 8 * w + c * w,
            leaf_block_wf(
                leaves@,
                leaf_ranges@,
                sorted_codes@,
                n0,
                leaves@.len() as int,
                lo as int,
                t as int,
                n_crit as int,
                key.level + 1,
                key_start(key),
                key_code * 8 * w + c * w,
            ),
        decreases 8 - c,
    {
        let child = children[c as usize];
        proof {
            lemma_child_interval(key, c as int, w as int);
            lemma_pow2_bounds();
            assert((c + 1) * w == c * w + w) by (nonlinear_arith);
        }
        let ce = 8 * key_code + c + 1;
        let hi_code = ce * w;
        let sub_lo = t;
        t = scan_below(sorted_codes, sub_lo, hi, hi_code);
        if t > sub_lo {
            let ghost nb = leaves@.len() as int;
            let ghost leaves_b = leaves@;
            let ghost ranges_b = leaf_ranges@;
            proof {
                assert forall|s: int| sub_lo <= s < t implies key_start(child)
                    <= #[trigger] sorted_codes@[s] < key_end(child) by {
                    assert(sorted_codes@[sub_lo as int] <= sorted_codes@[s]);
                }
            }
            refine(sorted_codes, sub_lo, t, child, n_crit, leaves, leaf_ranges);
            proof {
                lemma_refine_stitch(
                    leaves_b,
                    ranges_b,
                    leaves@,
                    leaf_ranges@,
                    sorted_codes@,
                    n0,
                    nb,
                    lo as int,
                    sub_lo as int,
                    t as int,
                    n_crit as int,
                    key,
                    child,
                    c as int,
                    w as int,
                );
            }
        }
        proof {
            assert((c + 1) * w == c * w + w) by (nonlinear_arith);
            if t == sub_lo {
                lemma_block_widen(
                    leaves@,
                    leaf_ranges@,
                    sorted_codes@,
                    n0,
                    leaves@.len() as int,
                    lo as int,
                    t as int,
                    n_crit as int,
                    key.level + 1,
                    key.level + 1,
                    key_start(key),
                    key_start(key),
                    key_code * 8 * w + c * w,
                    key_code * 8 * w + (c + 1) * w,
                );
            }
        }
        c = c + 1;
    }
    proof {
        if t < hi {
            assert(sorted_codes@[t as int] >= key_code * 8 * w + 8 * w);
            assert(sorted_codes@[t as int] < key_end(key));
        }
        assert(t == hi);
        lemma_block_widen(
            leaves@,
            leaf_ranges@,
            sorted_codes@,
            n0,
            leaves@.len() as int,
            lo as int,
            hi as int,
            n_crit as int,
            key.level + 1,
            key.level as int,
            key_start(key),
            key_start(key),
            key_code * 8 * w + 8 * w,
            key_end(key),
        );
        assert(leaves@.len() > n0);
    }
}

/// After refining one child, the block built so far and the child's new
/// block join into a block reaching the next child window.
proof fn lemma_refine_stitch(
    leaves_b: Seq<MortonKey>,
    ranges_b: Seq<(usize, usize)>,
    leaves: Seq<MortonKey>,
    ranges: Seq<(usize, usize)>,
    codes: Seq<u64>,
    n0: int,
    nb: int,
    lo: int,
    sub_lo: int,
    t: int,
    n_crit: int,
    key: MortonKey,
    child: MortonKey,
    c: int,
    w: int,
)
    requires
        key.wf(),
        key.level < MAX_LEVEL,
        0 <= c < 8,
        w == pow8((MAX_LEVEL - key.level - 1) as nat),
        child == key.spec_child(c),
        0 <= n0 <= nb == leaves_b.len(),
        ranges_b.len() == leaves_b.len(),
        nb < leaves.len(),
        ranges.len() == leaves.len(),
        leaves.subrange(0, nb) == leaves_b,
        ranges.subrange(0, nb) == ranges_b,
        leaf_block_wf(
            leaves_b,
            ranges_b,
            codes,
            n0,
            nb,
            lo,
            sub_lo,
            n_crit,
            key.level + 1,
            key_start(key),
            key.spec_code() * 8 * w + c * w,
        ),
        leaf_block_wf(
            leaves,
            ranges,
            codes,
            nb,
            leaves.len() as int,
            sub_lo,
            t,
            n_crit,
            child.level as int,
            key_start(child),
            key_end(child),
        ),
    ensures
        leaves.subrange(0, n0) == leaves_b.subrange(0, n0),
        ranges.subrange(0, n0) == ranges_b.subrange(0, n0),
        leaf_block_wf(
            leaves,
            ranges,
            codes,
            n0,
            leaves.len() as int,
            lo,
            t,
            n_crit,
            key.level + 1,
            key_start(key),
            key.spec_code() * 8 * w + (c + 1) * w,
        ),
{
    lemma_child_interval(key, c, w);
    lemma_pow8_pos((MAX_LEVEL - key.level - 1) as nat);
    assert(0 <= c * w && c * w <= (c + 1) * w) by (nonlinear_arith)
        requires 0 <= c, w >= 1;
    assert forall|i: int| 0 <= i < nb implies #[trigger] leaves[i] == leaves_b[i] by {
        assert(leaves.subrange(0, nb)[i] == leaves[i]);
    }
    assert forall|i: int| 0 <= i < nb implies #[trigger] ranges[i] == ranges_b[i] by {
        assert(ranges.subrange(0, nb)[i] == ranges[i]);
    }
    assert(leaves.subrange(0, n0) =~= leaves_b.subrange(0, n0));
    assert(ranges.subrange(0, n0) =~= ranges_b.subrange(0, n0));
    assert(leaf_block_wf(
        leaves,
        ranges,
        codes,
        n0,
        nb,
        lo,
        sub_lo,
        n_crit,
        key.level + 1,
        key_start(key),
        key.spec_code() * 8 * w + c * w,
    ));
    lemma_block_concat(
        leaves,
        ranges,
        codes,
        n0,
        nb,
        leaves.len() as int,
        lo,
        sub_lo,
        t,
        n_crit,
        key.level + 1,
        key_start(key),
        key.spec_code() * 8 * w + c * w,
        key_start(child),
        key.spec_code() * 8 * w + (c + 1) * w,
    );
}


impl Octree {
    /// Builds an adaptive tree: boxes are refined until every leaf holds at
    /// most `n_crit` points or sits at the deepest level; empty boxes are
    /// pruned, so leaves live at heterogeneous depths and all are nonempty.
    #[verifier::rlimit(100)]
    pub fn adaptive(anchors: &Vec<PointAnchor>, n_crit: usize) -> (r: Result<
        Octree,
        ConfigError,
    >)
        requires
            forall|j: int| 0 <= j < anchors@.len() ==> (#[trigger] anchors@[j]).wf(),
        ensures
            r is Err <==> (anchors@.len() == 0 || n_crit == 0),
            anchors@.len() == 0 ==> r == Err::<Octree, ConfigError>(ConfigError::EmptyPointSet),
            anchors@.len() > 0 && r is Err ==> r == Err::<Octree, ConfigError>(
                ConfigError::InvalidThreshold),
            r is Ok ==> ({
                let t = r->Ok_0;
                &&& t.wf()
                &&& t.depth <= MAX_LEVEL
                &&& t.adaptive == true
                &&& t.npoints() == anchors@.len()
                &&& forall|j: int|
                    0 <= j < anchors@.len() ==> #[trigger] t.global_indices@.contains(j as usize)
                &&& forall|s: int|
                    0 <= s < t.npoints() ==> #[trigger] t.sorted_codes@[s]
                        == anchors@[t.global_indices@[s] as int].spec_code()
                &&& forall|i: int|
                    0 <= i < t.leaves@.len() ==> ((#[trigger] t.leaf_ranges@[i]).1
                        - t.leaf_ranges@[i].0 <= n_crit || t.leaves@[i].level == MAX_LEVEL)
                &&& forall|i: int|
                    0 <= i < t.leaves@.len() ==> (#[trigger] t.leaf_ranges@[i]).0
                        < t.leaf_ranges@[i].1
            }),
    {
        let n = anchors.len();
        if n == 0 {
            return Err(ConfigError::EmptyPointSet);
        }
        if n_crit == 0 {
            return Err(ConfigError::InvalidThreshold);
        }
        let (global_indices, sorted_codes) = morton_order(anchors);
        let root = MortonKey::root();
        let mut leaves: Vec<MortonKey> = Vec::new();
        let mut leaf_ranges: Vec<(usize, usize)> = Vec::new();
        proof {
            lemma_pow8_pos(MAX_LEVEL as nat);
            assert(root.spec_code() == 0);
            assert(key_start(root) == 0 && key_end(root) == pow8(MAX_LEVEL as nat));
        }
        refine(&sorted_codes, 0, n, root, n_crit, &mut leaves, &mut leaf_ranges);
        let tree = assemble_adaptive(global_indices, sorted_codes, leaves, leaf_ranges, n_crit);
        Ok(tree)
    }
}

/// Computes the depth and per-level key lists of an adaptive tree from its
/// leaves and assembles the octree.
#[verifier::rlimit(100)]
fn assemble_adaptive(
    global_indices: Vec<usize>,
    sorted_codes: Vec<u64>,
    leaves: Vec<MortonKey>,
    leaf_ranges: Vec<(usize, usize)>,
    n_crit: usize,
) -> (tree: Octree)
    requires
        global_indices@.len() == sorted_codes@.len(),
        global_indices@.len() > 0,
        forall|s: int|
            0 <= s < sorted_codes@.len() ==> #[trigger] sorted_codes@[s] < pow8(MAX_LEVEL as nat),
        forall|s: int, u: int|
            0 <= s < u < sorted_codes@.len() ==> sorted_codes@[s] <= sorted_codes@[u],
        forall|s: int| 0 <= s < global_indices@.len() ==> #[trigger] global_indices@[s]
            < global_indices@.len(),
        leaves@.len() > 0,
        leaf_block_wf(
            leaves@,
            leaf_ranges@,
            sorted_codes@,
            0,
            leaves@.len() as int,
            0,
            sorted_codes@.len() as int,
            n_crit as int,
            0,
            0,
            pow8(MAX_LEVEL as nat),
        ),
    ensures
        tree.wf(),
        tree.adaptive == true,
        tree.global_indices == global_indices,
        tree.sorted_codes == sorted_codes,
        tree.leaves == leaves,
        tree.leaf_ranges == leaf_ranges,
{
    let nleaves = leaves.len();
    let mut depth: u64 = 0;
    let mut i: usize = 0;
    while i < nleaves
        invariant
            i <= nleaves == leaves@.len(),
            depth <= MAX_LEVEL,
            forall|d: int|
                0 <= d < nleaves ==> (#[trigger] leaves@[d]).wf() && leaves@[d].level
                    <= MAX_LEVEL,
            forall|d: int| 0 <= d < i ==> (#[trigger] leaves@[d]).level <= depth,
        decreases nleaves - i,
    {
        if leaves[i].level > depth {
            depth = leaves[i].level;
        }
        i = i + 1;
    }
    let mut level_keys: Vec<Vec<MortonKey>> = Vec::new();
    let mut l: u64 = 0;
    while l <= depth
        invariant
            l <= depth + 1,
            depth <= MAX_LEVEL,
            level_keys@.len() == l,
            forall|d: int| 0 <= d < leaves@.len() ==> (#[trigger] leaves@[d]).wf(),
            forall|d: int|
                0 <= d < leaves@.len() - 1 ==> key_end(#[trigger] leaves@[d]) <= key_start(
                    leaves@[d + 1]),
            forall|m: int, k: int|
                0 <= m < l && 0 <= k < level_keys@[m].len() ==> (
                #[trigger] level_keys@[m][k]).wf() && level_keys@[m][k].level == m,
            forall|m: int, k: int, k2: int|
                0 <= m < l && 0 <= k < k2 < level_keys@[m].len()
                    ==> (#[trigger] level_keys@[m][k]).spec_code()
                    < (#[trigger] level_keys@[m][k2]).spec_code(),
            forall|m: int, d: int|
                #![trigger level_keys@[m], leaves@[d]]
                0 <= m < l && 0 <= d < leaves@.len() && leaves@[d].level >= m ==> has_key(
                    level_keys@[m]@,
                    leaves@[d].spec_ancestor(m as nat),
                ),
            forall|m: int, k: int|
                0 <= m < l && 0 <= k < level_keys@[m].len() ==> is_leaf_ancestor(
                    #[trigger] level_keys@[m][k],
                    leaves@,
                    m as nat,
                ),
        decreases depth + 1 - l,
    {
        let keys = collect_level_keys(&leaves, l);
        level_keys.push(keys);
        l = l + 1;
    }
    let tree = Octree {
        depth,
        adaptive: true,
        global_indices,
        sorted_codes,
        leaves,
        leaf_ranges,
        level_keys,
    };
    proof {
        lemma_adaptive_wf(tree, n_crit as int);
    }
    tree
}

/// The assembled adaptive tree satisfies the octree invariant.
#[verifier::rlimit(100)]
proof fn lemma_adaptive_wf(tree: Octree, n_crit: int)
    requires
        tree.depth <= MAX_LEVEL,
        tree.npoints() > 0,
        tree.sorted_codes@.len() == tree.npoints(),
        forall|s: int|
            0 <= s < tree.npoints() ==> #[trigger] tree.sorted_codes@[s] < pow8(MAX_LEVEL as nat),
        forall|s: int, u: int|
            0 <= s < u < tree.npoints() ==> tree.sorted_codes@[s] <= tree.sorted_codes@[u],
        forall|s: int| 0 <= s < tree.npoints() ==> #[trigger] tree.global_indices@[s]
            < tree.npoints(),
        tree.leaves@.len() > 0,
        leaf_block_wf(
            tree.leaves@,
            tree.leaf_ranges@,
            tree.sorted_codes@,
            0,
            tree.leaves@.len() as int,
            0,
            tree.npoints(),
            n_crit,
            0,
            0,
            pow8(MAX_LEVEL as nat),
        ),
        forall|d: int| 0 <= d < tree.leaves@.len() ==> (#[trigger] tree.leaves@[d]).level
            <= tree.depth,
        tree.level_keys@.len() == tree.depth + 1,
        forall|m: int, k: int|
            0 <= m < tree.level_keys@.len() && 0 <= k < tree.level_keys@[m].len() ==> (
            #[trigger] tree.level_keys@[m][k]).wf() && tree.level_keys@[m][k].level == m,
        forall|m: int, k: int, k2: int|
            0 <= m < tree.level_keys@.len() && 0 <= k < k2 < tree.level_keys@[m].len()
                ==> (#[trigger] tree.level_keys@[m][k]).spec_code()
                < (#[trigger] tree.level_keys@[m][k2]).spec_code(),
        forall|m: int, d: int|
            #![trigger tree.level_keys@[m], tree.leaves@[d]]
            0 <= m < tree.level_keys@.len() && 0 <= d < tree.leaves@.len()
                && tree.leaves@[d].level >= m ==> has_key(
                tree.level_keys@[m]@,
                tree.leaves@[d].spec_ancestor(m as nat),
            ),
        forall|m: int, k: int|
            0 <= m < tree.level_keys@.len() && 0 <= k < tree.level_keys@[m].len()
                ==> is_leaf_ancestor(#[trigger] tree.level_keys@[m][k], tree.leaves@, m as nat),
    ensures
        tree.wf(),
{
    assert forall|l: int, i: int|
        1 <= l < tree.level_keys@.len() && 0 <= i < tree.level_keys@[l].len() implies has_key(
        tree.level_keys@[l - 1]@,
        (#[trigger] tree.level_keys@[l][i]).spec_parent(),
    ) by {
        let k = tree.level_keys@[l][i];
        assert(is_leaf_ancestor(k, tree.leaves@, l as nat));
        let d = choose|d: int|
            0 <= d < tree.leaves@.len() && (#[trigger] tree.leaves@[d]).level >= l && k
                == tree.leaves@[d].spec_ancestor(l as nat);
        crate::morton::lemma_ancestor_parent(tree.leaves@[d], l as nat);
        assert(k.spec_parent() == tree.leaves@[d].spec_ancestor((l - 1) as nat));
        assert(has_key(
            tree.level_keys@[l - 1]@,
            tree.leaves@[d].spec_ancestor((l - 1) as nat),
        ));
    }
}

impl Octree {
    /// The contiguous index of a box in its level's sorted key list: the
    /// random-access handle into the flat per-level expansion arrays.
    pub fn level_index_of(&self, key: &MortonKey) -> (r: Option<usize>)
        requires
            self.wf(),
            key.wf(),
            key.level < self.level_keys@.len(),
        ensures
            match r {
                Some(i) => i < self.level_keys@[key.level as int].len()
                    && self.level_keys@[key.level as int][i as int] == *key,
                None => forall|j: int|
                    0 <= j < self.level_keys@[key.level as int].len()
                        ==> self.level_keys@[key.level as int][j] != *key,
            },
    {
        let keys = &self.level_keys[key.level as usize];
        let kc = key.code();
        let ghost lvl = key.level as int;
        let mut lo: usize = 0;
        let mut hi: usize = keys.len();
        while lo < hi
            invariant
                lo <= hi <= keys@.len(),
                keys == self.level_keys@[lvl],
                self.wf(),
                key.wf(),
                lvl == key.level,
                0 <= lvl < self.level_keys@.len(),
                kc == key.spec_code(),
                forall|j: int| 0 <= j < lo ==> (#[trigger] keys@[j]).spec_code() < kc,
                forall|j: int| hi <= j < keys@.len() ==> (#[trigger] keys@[j]).spec_code() > kc,
            decreases hi - lo,
        {
            let mid = lo + (hi - lo) / 2;
            let mc = keys[mid].code();
            proof {
                lemma_code_bound(keys@[mid as int]);
                assert(keys@[mid as int].wf() && keys@[mid as int].level == lvl);
            }
            if mc < kc {
                proof {
                    assert forall|j: int| 0 <= j < mid + 1 implies (
                    #[trigger] keys@[j]).spec_code() < kc by {
                        if j < mid {
                            assert(keys@[j].spec_code() < keys@[mid as int].spec_code());
                        }
                    }
                }
                lo = mid + 1;
            } else if mc > kc {
                proof {
                    assert forall|j: int| mid <= j < keys@.len() implies (
                    #[trigger] keys@[j]).spec_code() > kc by {
                        if j > mid {
                            assert(keys@[mid as int].spec_code() < keys@[j].spec_code());
                        }
                    }
                }
                hi = mid;
            } else {
                proof {
                    crate::morton::lemma_code_injective(keys@[mid as int], *key);
                }
                return Some(mid);
            }
        }
        proof {
            assert forall|j: int| 0 <= j < keys@.len() implies keys@[j] != *key by {
                assert(keys@[j].spec_code() != kc);
            }
        }
        None
    }
}

/// The code interval of a key's ancestor contains the key's own interval.
proof fn lemma_ancestor_interval(k: MortonKey, l: nat)
    requires
        k.wf(),
        l <= k.level,
    ensures
        k.spec_ancestor(l).wf(),
        k.spec_ancestor(l).level == l,
        key_start(k.spec_ancestor(l)) <= key_start(k),
        key_end(k) <= key_end(k.spec_ancestor(l)),
{
    crate::morton::lemma_ancestor_props(k, l);
    lemma_code_bound(k);
    let d = (k.level - l) as nat;
    let dd = pow8(d);
    let kw = pow8((MAX_LEVEL - k.level) as nat);
    let aw = pow8((MAX_LEVEL - l) as nat);
    lemma_pow8_pos(d);
    lemma_pow8_pos((MAX_LEVEL - k.level) as nat);
    lemma_pow8_adds(d, (MAX_LEVEL - k.level) as nat);
    assert(aw == dd * kw);
    let kc = k.spec_code();
    let ac = k.spec_ancestor(l).spec_code();
    assert(ac == kc / dd);
    assert(ac * (dd * kw) <= kc * kw && (kc + 1) * kw <= (ac + 1) * (dd * kw))
        by (nonlinear_arith)
        requires ac == kc / dd, kc >= 0, dd >= 1, kw >= 1;
}

/// Ancestors at one level of two boxes with ordered disjoint code intervals
/// keep the order of their codes.
proof fn lemma_ancestor_ordered(a: MortonKey, b: MortonKey, l: nat)
    requires
        a.wf(),
        b.wf(),
        l <= a.level,
        l <= b.level,
        key_end(a) <= key_start(b),
    ensures
        a.spec_ancestor(l).spec_code() <= b.spec_ancestor(l).spec_code(),
{
    lemma_ancestor_interval(a, l);
    lemma_ancestor_interval(b, l);
    let aa = a.spec_ancestor(l);
    let ab = b.spec_ancestor(l);
    let s = pow8((MAX_LEVEL - l) as nat);
    lemma_pow8_pos((MAX_LEVEL - l) as nat);
    lemma_pow8_pos((MAX_LEVEL - a.level) as nat);
    lemma_pow8_pos((MAX_LEVEL - b.level) as nat);
    lemma_code_bound(a);
    lemma_code_bound(b);
    if aa.spec_code() > ab.spec_code() {
        assert(key_start(aa) >= key_end(ab)) by (nonlinear_arith)
            requires
                aa.spec_code() >= ab.spec_code() + 1,
                key_start(aa) == aa.spec_code() * s,
                key_end(ab) == (ab.spec_code() + 1) * s,
                s >= 1;
        assert(key_start(a) < key_end(a)) by (nonlinear_arith)
            requires
                key_start(a) == a.spec_code() * pow8((MAX_LEVEL - a.level) as nat),
                key_end(a) == (a.spec_code() + 1) * pow8((MAX_LEVEL - a.level) as nat),
                pow8((MAX_LEVEL - a.level) as nat) >= 1;
        assert(key_start(b) < key_end(b)) by (nonlinear_arith)
            requires
                key_start(b) == b.spec_code() * pow8((MAX_LEVEL - b.level) as nat),
                key_end(b) == (b.spec_code() + 1) * pow8((MAX_LEVEL - b.level) as nat),
                pow8((MAX_LEVEL - b.level) as nat) >= 1;
        assert(false);
    }
}

/// Ordering of adjacent leaf intervals extends to every pair.
proof fn lemma_leaves_ordered_global(leaves: Seq<MortonKey>, i: int, j: int)
    requires
        forall|d: int|
            0 <= d < leaves.len() - 1 ==> key_end(#[trigger] leaves[d]) <= key_start(leaves[d
                + 1]),
        forall|d: int| 0 <= d < leaves.len() ==> (#[trigger] leaves[d]).wf(),
        0 <= i < j < leaves.len(),
    ensures
        key_end(leaves[i]) <= key_start(leaves[j]),
    decreases j - i,
{
    if j == i + 1 {
    } else {
        lemma_leaves_ordered_global(leaves, i, j - 1);
        let m = leaves[j - 1];
        lemma_code_bound(m);
        lemma_pow8_pos((MAX_LEVEL - m.level) as nat);
        assert(key_start(m) < key_end(m)) by (nonlinear_arith)
            requires
                key_start(m) == m.spec_code() * pow8((MAX_LEVEL - m.level) as nat),
                key_end(m) == (m.spec_code() + 1) * pow8((MAX_LEVEL - m.level) as nat),
                pow8((MAX_LEVEL - m.level) as nat) >= 1;
    }
}

/// Whether a key is the level-`l` ancestor of one of the leaves.
pub open spec fn is_leaf_ancestor(k: MortonKey, leaves: Seq<MortonKey>, l: nat) -> bool {
    exists|i: int|
        0 <= i < leaves.len() && (#[trigger] leaves[i]).level >= l && k
            == leaves[i].spec_ancestor(l)
}

/// Collects, for one level, the keys of all boxes of that level that hold a
/// leaf (the leaves of the level themselves included), sorted by code and
/// deduplicated.
fn collect_level_keys(leaves: &Vec<MortonKey>, l: u64) -> (keys: Vec<MortonKey>)
    requires
        l <= MAX_LEVEL,
        forall|i: int| 0 <= i < leaves@.len() ==> (#[trigger] leaves@[i]).wf(),
        forall|i: int|
            0 <= i < leaves@.len() - 1 ==> key_end(#[trigger] leaves@[i]) <= key_start(
                leaves@[i + 1]),
    ensures
        forall|k: int|
            0 <= k < keys@.len() ==> (#[trigger] keys@[k]).wf() && keys@[k].level == l,
        forall|k: int, m: int|
            0 <= k < m < keys@.len() ==> (#[trigger] keys@[k]).spec_code()
                < (#[trigger] keys@[m]).spec_code(),
        forall|i: int|
            0 <= i < leaves@.len() && (#[trigger] leaves@[i]).level >= l ==> has_key(
                keys@,
                leaves@[i].spec_ancestor(l as nat),
            ),
        forall|k: int|
            0 <= k < keys@.len() ==> is_leaf_ancestor(#[trigger] keys@[k], leaves@, l as nat),
    {
    let mut keys: Vec<MortonKey> = Vec::new();
    let n = leaves.len();
    let mut i: usize = 0;
    while i < n
        invariant
            i <= n == leaves@.len(),
            l <= MAX_LEVEL,
            forall|d: int| 0 <= d < n ==> (#[trigger] leaves@[d]).wf(),
            forall|d: int|
                0 <= d < n - 1 ==> key_end(#[trigger] leaves@[d]) <= key_start(leaves@[d + 1]),
            forall|k: int|
                0 <= k < keys@.len() ==> (#[trigger] keys@[k]).wf() && keys@[k].level == l,
            forall|k: int, m: int|
                0 <= k < m < keys@.len() ==> (#[trigger] keys@[k]).spec_code()
                    < (#[trigger] keys@[m]).spec_code(),
            forall|d: int|
                0 <= d < i && (#[trigger] leaves@[d]).level >= l ==> has_key(
                    keys@,
                    leaves@[d].spec_ancestor(l as nat),
                ),
            forall|k: int|
                0 <= k < keys@.len() ==> is_leaf_ancestor(
                    #[trigger] keys@[k],
                    leaves@.take(i as int),
                    l as nat,
                ),
            keys@.len() > 0 ==> is_leaf_ancestor(
                keys@[keys@.len() - 1],
                leaves@.take(i as int),
                l as nat,
            ),
        decreases n - i,
    {
        let leaf = leaves[i];
        if leaf.level >= l {
            let a = leaf.ancestor(l);
            let ghost keys_b = keys@;
            let mut push = true;
            if keys.len() > 0 {
                let last = keys[keys.len() - 1];
                proof {
                    let pre = leaves@.take(i as int);
                    let d = choose|d: int|
                        0 <= d < pre.len() && (#[trigger] pre[d]).level >= l && keys@[keys@.len()
                            - 1] == pre[d].spec_ancestor(l as nat);
                    assert(pre[d] == leaves@[d]);
                    lemma_leaves_ordered_global(leaves@, d, i as int);
                    lemma_ancestor_ordered(leaves@[d], leaf, l as nat);
                    if last.spec_code() == a.spec_code() {
                        crate::morton::lemma_code_injective(last, a);
                    }
                }
                let lc = last.code();
                let ac = a.code();
                push = lc != ac;
            }
            if push {
                proof {
                    if keys@.len() > 0 {
                        assert forall|k: int| 0 <= k < keys@.len() implies (
                        #[trigger] keys@[k]).spec_code() < a.spec_code() by {
                            if k < keys@.len() - 1 {
                                assert(keys@[k].spec_code() < keys@[keys@.len() - 1].spec_code());
                            }
                        }
                    }
                }
                keys.push(a);
            }
            proof {
                assert forall|d: int|
                    0 <= d < i + 1 && (#[trigger] leaves@[d]).level >= l implies has_key(
                    keys@,
                    leaves@[d].spec_ancestor(l as nat),
                ) by {
                    if d < i {
                        assert(has_key(keys_b, leaves@[d].spec_ancestor(l as nat)));
                        let k0 = choose|k0: int|
                            0 <= k0 < keys_b.len() && keys_b[k0] == leaves@[d].spec_ancestor(
                                l as nat,
                            );
                        assert(keys@[k0] == leaves@[d].spec_ancestor(l as nat));
                    } else {
                        assert(keys@[keys@.len() - 1] == a);
                    }
                }
                assert forall|k: int| 0 <= k < keys@.len() implies is_leaf_ancestor(
                    #[trigger] keys@[k],
                    leaves@.take(i + 1),
                    l as nat,
                ) by {
                    if k < keys_b.len() {
                        let pre = leaves@.take(i as int);
                        let d = choose|d: int|
                            0 <= d < pre.len() && (#[trigger] pre[d]).level >= l && keys_b[k]
                                == pre[d].spec_ancestor(l as nat);
                        assert(leaves@.take(i + 1)[d] == leaves@[d] && leaves@[d] == pre[d]);
                    } else {
                        assert(leaves@.take(i + 1)[i as int] == leaf);
                        assert(keys@[k] == a);
                    }
                }
                assert(is_leaf_ancestor(keys@[keys@.len() - 1], leaves@.take(i + 1), l as nat));
            }
        }
        i = i + 1;
    }
    keys
}

/// Sorts the points into Morton order: returns, for each sorted position,
/// the caller's point index and the point's deepest-level Morton code.
fn morton_order(anchors: &Vec<PointAnchor>) -> (r: (Vec<usize>, Vec<u64>))
    requires
        forall|j: int| 0 <= j < anchors@.len() ==> (#[trigger] anchors@[j]).wf(),
        anchors@.len() > 0,
    ensures
        r.0@.len() == anchors@.len(),
        r.1@.len() == anchors@.len(),
        forall|s: int| 0 <= s < anchors@.len() ==> #[trigger] r.0@[s] < anchors@.len(),
        forall|s: int|
            0 <= s < anchors@.len() ==> #[trigger] r.1@[s] == anchors@[r.0@[s] as int].spec_code(),
        forall|s: int| 0 <= s < anchors@.len() ==> #[trigger] r.1@[s] < pow8(MAX_LEVEL as nat),
        forall|s: int, u: int| 0 <= s < u < anchors@.len() ==> r.1@[s] <= r.1@[u],
        forall|j: int| 0 <= j < anchors@.len() ==> #[trigger] r.0@.contains(j as usize),
{
    let n = anchors.len();
    let mut recs: Vec<PointRecord> = Vec::new();
    let mut j: usize = 0;
    while j < n
        invariant
            j <= n == anchors@.len(),
            forall|i: int| 0 <= i < n ==> (#[trigger] anchors@[i]).wf(),
            recs@.len() == j,
            forall|s: int| 0 <= s < j ==> (#[trigger] recs@[s]).index == s,
            forall|s: int|
                0 <= s < j ==> (#[trigger] recs@[s]).code == anchors@[s].spec_code(),
        decreases n - j,
    {
        let a = anchors[j];
        let key = MortonKey { x: a.x, y: a.y, z: a.z, level: MAX_LEVEL };
        proof {
            lemma_pow2_bounds();
            assert(key.wf());
            lemma_code_bound(key);
            lemma_pow8_mono(MAX_LEVEL as nat, MAX_LEVEL as nat);
        }
        let c = key.code();
        recs.push(PointRecord { code: c, index: j });
        j = j + 1;
    }
    let ghost recs0 = recs@;
    sort_by_code(&mut recs);
    proof {
        lemma_rearranged_members(recs0, recs@);
        lemma_pow2_bounds();
        assert forall|s: int| 0 <= s < n implies (#[trigger] recs@[s]).index < n && recs@[s].code
            == anchors@[recs@[s].index as int].spec_code() && recs@[s].code < pow8(
            MAX_LEVEL as nat) by {
            assert(recs0.contains(recs@[s]));
            let j0 = choose|j0: int| 0 <= j0 < recs0.len() && recs0[j0] == recs@[s];
            assert(anchors@[j0].wf());
            lemma_code_bound(anchors@[j0].spec_key());
        }
    }
    let mut global_indices: Vec<usize> = Vec::new();
    let mut sorted_codes: Vec<u64> = Vec::new();
    let mut s: usize = 0;
    while s < n
        invariant
            s <= n == anchors@.len() == recs@.len(),
            global_indices@.len() == s,
            sorted_codes@.len() == s,
            forall|u: int| 0 <= u < s ==> #[trigger] global_indices@[u] == recs@[u].index,
            forall|u: int| 0 <= u < s ==> #[trigger] sorted_codes@[u] == recs@[u].code,
        decreases n - s,
    {
        let rec = recs[s];
        global_indices.push(rec.index);
        sorted_codes.push(rec.code);
        s = s + 1;
    }
    proof {
        assert forall|j: int| 0 <= j < n implies #[trigger] global_indices@.contains(j as usize) by {
            assert(recs0[j].index == j);
            assert(recs@.contains(recs0[j]));
            let sj = choose|sj: int| 0 <= sj < recs@.len() && recs@[sj] == recs0[j];
            assert(global_indices@[sj] == j as usize);
        }
        assert forall|s: int, u: int| 0 <= s < u < n implies sorted_codes@[s]
            <= sorted_codes@[u] by {
            assert(recs@[s].code <= recs@[u].code);
        }
    }
    (global_indices, sorted_codes)
}

/// Whether some leaf's range holds the sorted position `p`.
pub open spec fn point_covered(t: Octree, p: int) -> bool {
    exists|i: int|
        0 <= i < t.leaf_ranges@.len() && (#[trigger] t.leaf_ranges@[i]).0 <= p
            < t.leaf_ranges@[i].1
}

/// Every leaf's point range is disjoint from every other leaf's, and the
/// ranges together cover the sorted positions `0 .. npoints` exactly.
pub proof fn lemma_leaf_ranges_partition(t: Octree)
    requires
        t.wf(),
    ensures
        forall|i: int, j: int|
            0 <= i < j < t.leaf_ranges@.len() ==> (#[trigger] t.leaf_ranges@[i]).1
                <= (#[trigger] t.leaf_ranges@[j]).0,
        forall|p: int| 0 <= p < t.npoints() ==> #[trigger] point_covered(t, p),
{
    assert forall|i: int, j: int| 0 <= i < j < t.leaf_ranges@.len() implies (
    #[trigger] t.leaf_ranges@[i]).1 <= (#[trigger] t.leaf_ranges@[j]).0 by {
        lemma_range_bounds_ordered(t, i, j);
    }
    assert forall|p: int| 0 <= p < t.npoints() implies #[trigger] point_covered(t, p) by {
        lemma_cover_from(t, p, 0);
    }
}

proof fn lemma_range_bounds_ordered(t: Octree, i: int, j: int)
    requires
        t.wf(),
        0 <= i < j < t.leaf_ranges@.len(),
    ensures
        t.leaf_ranges@[i].1 <= t.leaf_ranges@[j].0,
    decreases j - i,
{
    if j == i + 1 {
    } else {
        lemma_range_bounds_ordered(t, i, j - 1);
        assert(t.leaf_ranges@[j - 1].1 == t.leaf_ranges@[j].0);
    }
}

proof fn lemma_cover_from(t: Octree, p: int, i: int)
    requires
        t.wf(),
        0 <= i < t.leaf_ranges@.len(),
        t.leaf_ranges@[i].0 <= p < t.npoints(),
    ensures
        point_covered(t, p),
    decreases t.leaf_ranges@.len() - i,
{
    if p < t.leaf_ranges@[i].1 {
        assert((#[trigger] t.leaf_ranges@[i]).0 <= p < t.leaf_ranges@[i].1);
    } else {
        assert(i < t.leaf_ranges@.len() - 1);
        lemma_cover_from(t, p, i + 1);
    }
}

/// The geometric reading of the leaf ranges: a sorted position belongs to
/// a leaf's range exactly when the leaf's volume covers the deepest-level
/// cell of that point.  `a` is the anchor behind position `s`, as the
/// constructors relate them.
pub proof fn lemma_range_membership_geometric(t: Octree, a: PointAnchor, i: int, s: int)
    requires
        t.wf(),
        a.wf(),
        0 <= i < t.leaves@.len(),
        0 <= s < t.npoints(),
        t.sorted_codes@[s] == a.spec_code(),
    ensures
        (t.leaf_ranges@[i].0 <= s < t.leaf_ranges@[i].1) <==> t.leaves@[i].covers(
            a.x as int,
            a.y as int,
            a.z as int,
        ),
{
    let leaf = t.leaves@[i];
    let pk = a.spec_key();
    lemma_pow2_bounds();
    assert(pk.wf());
    crate::morton::lemma_covers_iff_ancestor(leaf, pk);
    crate::morton::lemma_ancestor_iff_code_range(leaf, pk);
    if t.leaf_ranges@[i].0 <= s < t.leaf_ranges@[i].1 {
        assert(key_start(leaf) <= a.spec_code() < key_end(leaf));
    }
    if leaf.covers(a.x as int, a.y as int, a.z as int) {
        assert(key_start(leaf) <= a.spec_code() < key_end(leaf));
        lemma_leaf_ranges_partition(t);
        assert(point_covered(t, s));
        let j = choose|j: int|
            0 <= j < t.leaf_ranges@.len() && (#[trigger] t.leaf_ranges@[j]).0 <= s
                < t.leaf_ranges@[j].1;
        assert(key_start(t.leaves@[j]) <= a.spec_code() < key_end(t.leaves@[j]));
        if i < j {
            lemma_leaves_ordered_global(t.leaves@, i, j);
            assert(key_end(leaf) <= key_start(t.leaves@[j]));
            assert(false);
        }
        if j < i {
            lemma_leaves_ordered_global(t.leaves@, j, i);
            assert(key_end(t.leaves@[j]) <= key_start(leaf));
            assert(false);
        }
        assert(i == j);
    }
}

} // verus!
