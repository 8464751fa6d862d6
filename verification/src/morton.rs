//! Morton keys: each octree cell is identified by its anchor coordinates on
//! the lattice of its own level together with the level itself.  All
//! geometric and topological queries (parent, children, siblings, neighbors,
//! adjacency, transfer vectors) are pure functions of the key.
use vstd::prelude::*;
use vstd::arithmetic::div_mod::lemma_div_denominator;

verus! {

/// Deepest level the key encoding supports: anchors live on a lattice of at
/// most `2^16` cells per axis.
pub const MAX_LEVEL: u64 = 16;

/// `2^e` as a mathematical integer.
pub open spec fn pow2(e: nat) -> int
    decreases e,
{
    if e == 0 {
        1
    } else {
        2 * pow2((e - 1) as nat)
    }
}

/// `8^e` as a mathematical integer.
pub open spec fn pow8(e: nat) -> int
    decreases e,
{
    if e == 0 {
        1
    } else {
        8 * pow8((e - 1) as nat)
    }
}

pub proof fn lemma_pow2_pos(e: nat)
    ensures
        pow2(e) >= 1,
    decreases e,
{
    if e > 0 {
        lemma_pow2_pos((e - 1) as nat);
    }
}

pub proof fn lemma_pow8_pos(e: nat)
    ensures
        pow8(e) >= 1,
    decreases e,
{
    if e > 0 {
        lemma_pow8_pos((e - 1) as nat);
    }
}

pub proof fn lemma_pow2_mono(a: nat, b: nat)
    requires
        a <= b,
    ensures
        pow2(a) <= pow2(b),
    decreases b,
{
    if a < b {
        lemma_pow2_mono(a, (b - 1) as nat);
        lemma_pow2_pos((b - 1) as nat);
    }
}

pub proof fn lemma_pow8_mono(a: nat, b: nat)
    requires
        a <= b,
    ensures
        pow8(a) <= pow8(b),
    decreases b,
{
    if a < b {
        lemma_pow8_mono(a, (b - 1) as nat);
        lemma_pow8_pos((b - 1) as nat);
    }
}

/// `8^a * 8^b == 8^(a + b)`.
pub proof fn lemma_pow8_adds(a: nat, b: nat)
    ensures
        pow8(a) * pow8(b) == pow8((a + b) as nat),
    decreases a,
{
    if a > 0 {
        lemma_pow8_adds((a - 1) as nat, b);
        assert(8 * pow8((a - 1) as nat) * pow8(b) == 8 * (pow8((a - 1) as nat) * pow8(b)))
            by (nonlinear_arith);
    }
}

pub proof fn lemma_pow2_bounds()
    ensures
        pow2(16) == 65536,
        pow8(16) == 0x1000000000000,
{
    reveal_with_fuel(pow2, 17);
    reveal_with_fuel(pow8, 17);
}

/// `2^e` for `e <= MAX_LEVEL`, as an executable value.
pub fn pow2_u64(e: u64) -> (r: u64)
    requires
        e <= MAX_LEVEL,
    ensures
        r == pow2(e as nat),
{
    let mut r: u64 = 1;
    let mut i: u64 = 0;
    while i < e
        invariant
            i <= e <= MAX_LEVEL,
            r == pow2(i as nat),
        decreases e - i,
    {
        proof {
            lemma_pow2_mono((i + 1) as nat, MAX_LEVEL as nat);
            lemma_pow2_bounds();
        }
        r = r * 2;
        i = i + 1;
    }
    r
}

/// `8^e` for `e <= MAX_LEVEL`, as an executable value.
pub fn pow8_u64(e: u64) -> (r: u64)
    requires
        e <= MAX_LEVEL,
    ensures
        r == pow8(e as nat),
{
    let mut r: u64 = 1;
    let mut i: u64 = 0;
    while i < e
        invariant
            i <= e <= MAX_LEVEL,
            r == pow8(i as nat),
        decreases e - i,
    {
        proof {
            lemma_pow8_mono((i + 1) as nat, MAX_LEVEL as nat);
            lemma_pow2_bounds();
        }
        r = r * 8;
        i = i + 1;
    }
    r
}

/// One octree cell: anchor `(x, y, z)` on the `2^level` lattice of its level.
#[derive(Clone, Copy, PartialEq, Eq, Structural, Debug)]
pub struct MortonKey {
    pub x: u64,
    pub y: u64,
    pub z: u64,
    pub level: u64,
}

impl MortonKey {
    /// A key is valid when its level is supported and its anchor lies inside
    /// the domain lattice of that level.
    pub open spec fn wf(self) -> bool {
        &&& self.level <= MAX_LEVEL
        &&& self.x < pow2(self.level as nat)
        &&& self.y < pow2(self.level as nat)
        &&& self.z < pow2(self.level as nat)
    }

    /// The Morton code of the key: interleaves the anchor bits so that the
    /// codes of the children of `k` are `8 * code(k) + 0 ..= 8 * code(k) + 7`.
    pub open spec fn spec_code(self) -> int
        decreases self.level,
    {
        if self.level == 0 {
            0
        } else {
            8 * self.spec_parent().spec_code() + self.spec_octant()
        }
    }

    /// Which of the 8 octants of its parent the key occupies.
    pub open spec fn spec_octant(self) -> int {
        self.x % 2 + 2 * (self.y % 2) + 4 * (self.z % 2)
    }

    pub open spec fn spec_parent(self) -> MortonKey {
        MortonKey {
            x: self.x / 2,
            y: self.y / 2,
            z: self.z / 2,
            level: (self.level - 1) as u64,
        }
    }

    /// The `i`-th child (in Morton code order), for `0 <= i < 8`.
    pub open spec fn spec_child(self, i: int) -> MortonKey {
        MortonKey {
            x: (2 * self.x + i % 2) as u64,
            y: (2 * self.y + (i / 2) % 2) as u64,
            z: (2 * self.z + i / 4) as u64,
            level: (self.level + 1) as u64,
        }
    }

    /// The root cell of the domain.
    pub fn root() -> (r: MortonKey)
        ensures
            r == (MortonKey { x: 0, y: 0, z: 0, level: 0 }),
            r.wf(),
    {
        MortonKey { x: 0, y: 0, z: 0, level: 0 }
    }

    /// The parent cell, one level coarser.
    pub fn parent(&self) -> (r: MortonKey)
        requires
            self.wf(),
            self.level >= 1,
        ensures
            r == self.spec_parent(),
            r.wf(),
            r.level == self.level - 1,
    {
        let r = MortonKey { x: self.x / 2, y: self.y / 2, z: self.z / 2, level: self.level - 1 };
        proof {
            lemma_parent_wf(*self);
        }
        r
    }

    /// The 8 children, sorted by Morton code.
    pub fn children(&self) -> (cs: Vec<MortonKey>)
        requires
            self.wf(),
            self.level < MAX_LEVEL,
        ensures
            cs.len() == 8,
            forall|i: int| 0 <= i < 8 ==> cs[i] == self.spec_child(i),
            forall|i: int| 0 <= i < 8 ==> (#[trigger] cs[i]).wf(),
            forall|i: int| 0 <= i < 8 ==> (#[trigger] cs[i]).spec_parent() == *self,
    {
        let mut cs: Vec<MortonKey> = Vec::new();
        proof {
            lemma_pow2_mono(self.level as nat, MAX_LEVEL as nat);
            lemma_pow2_bounds();
        }
        let mut i: u64 = 0;
        while i < 8
        invariant
            self.wf(),
            self.level < MAX_LEVEL,
            self.x < 65536 && self.y < 65536 && self.z < 65536,
            i <= 8,
            cs.len() == i,
            forall|j: int| 0 <= j < i ==> cs[j] == self.spec_child(j),
        decreases 8 - i,
        {
            let c = MortonKey {
                x: 2 * self.x + i % 2,
                y: 2 * self.y + (i / 2) % 2,
                z: 2 * self.z + i / 4,
                level: self.level + 1,
            };
            cs.push(c);
            i = i + 1;
        }
        proof {
            assert forall|i: int| 0 <= i < 8 implies (#[trigger] cs[i]).wf()
                && cs[i].spec_parent() == *self by {
                lemma_child_wf(*self, i);
            }
        }
        cs
    }
}

impl MortonKey {
    /// The Morton code, as an executable value: `0 <= code < 8^level`.
    pub fn code(&self) -> (c: u64)
        requires
            self.wf(),
        ensures
            c == self.spec_code(),
        decreases self.level,
    {
        proof {
            lemma_code_bound(*self);
            lemma_pow8_mono(self.level as nat, MAX_LEVEL as nat);
            lemma_pow2_bounds();
        }
        if self.level == 0 {
            0
        } else {
            let p = self.parent();
            proof {
                lemma_code_bound(p);
            }
            8 * p.code() + (self.x % 2 + 2 * (self.y % 2) + 4 * (self.z % 2))
        }
    }

    /// The 8 children of the parent (including this key), sorted by code.
    pub fn siblings(&self) -> (ss: Vec<MortonKey>)
        requires
            self.wf(),
            self.level >= 1,
        ensures
            ss.len() == 8,
            forall|i: int| 0 <= i < 8 ==> ss[i] == self.spec_parent().spec_child(i),
            forall|i: int| 0 <= i < 8 ==> (#[trigger] ss[i]).wf(),
            ss[self.spec_octant()] == *self,
    {
        proof {
            lemma_parent_wf(*self);
        }
        let p = self.parent();
        let ss = p.children();
        proof {
            lemma_octant_identity(*self);
        }
        ss
    }

    /// The ancestor of the key at a coarser level `l`.
    pub open spec fn spec_ancestor(self, l: nat) -> MortonKey
        decreases self.level - l,
    {
        if self.level <= l {
            self
        } else {
            self.spec_parent().spec_ancestor(l)
        }
    }

    /// The neighbor displaced by offset index `o` (base-3 digits minus one).
    pub open spec fn spec_neighbor_at(self, o: int) -> MortonKey {
        MortonKey {
            x: (self.x + o % 3 - 1) as u64,
            y: (self.y + (o / 3) % 3 - 1) as u64,
            z: (self.z + o / 9 - 1) as u64,
            level: self.level,
        }
    }

    /// Whether offset index `o` names a same-level cell inside the domain
    /// (offset 13 is the cell itself and never counts).
    pub open spec fn spec_neighbor_valid(self, o: int) -> bool {
        &&& o != 13
        &&& 0 <= self.x + o % 3 - 1 < pow2(self.level as nat)
        &&& 0 <= self.y + (o / 3) % 3 - 1 < pow2(self.level as nat)
        &&& 0 <= self.z + o / 9 - 1 < pow2(self.level as nat)
    }

    pub open spec fn spec_neighbors_upto(self, o: int) -> Seq<MortonKey>
        decreases o,
    {
        if o <= 0 {
            Seq::empty()
        } else if self.spec_neighbor_valid(o - 1) {
            self.spec_neighbors_upto(o - 1).push(self.spec_neighbor_at(o - 1))
        } else {
            self.spec_neighbors_upto(o - 1)
        }
    }

    /// The same-level cells adjacent to this one that lie inside the domain,
    /// in offset-index order: at most 26 of them.
    pub open spec fn spec_neighbors(self) -> Seq<MortonKey> {
        self.spec_neighbors_upto(27)
    }

    /// The 26 same-level adjacent cells, excluding domain-boundary misses.
    pub fn neighbors(&self) -> (ns: Vec<MortonKey>)
        requires
            self.wf(),
        ensures
            ns@ == self.spec_neighbors(),
            ns.len() <= 26,
            forall|i: int| 0 <= i < ns.len() ==> (#[trigger] ns[i]).wf(),
            forall|i: int| 0 <= i < ns.len() ==> (#[trigger] ns[i]).level == self.level,
            forall|i: int| 0 <= i < ns.len() ==> self.spec_adjacent(#[trigger] ns[i]),
            forall|m: MortonKey| m.wf() && m.level == self.level && self.spec_adjacent(m)
                ==> self.spec_neighbors().contains(m),
    {
        let limit = pow2_u64(self.level);
        let mut ns: Vec<MortonKey> = Vec::new();
        let mut o: u64 = 0;
        while o < 27
            invariant
                self.wf(),
                limit == pow2(self.level as nat),
                o <= 27,
                ns@ == self.spec_neighbors_upto(o as int),
            decreases 27 - o,
        {
            proof {
                lemma_pow2_mono(self.level as nat, MAX_LEVEL as nat);
                lemma_pow2_bounds();
            }
            let dx = o % 3;
            let dy = (o / 3) % 3;
            let dz = o / 9;
            let inside = o != 13 && !(self.x == 0 && dx == 0) && !(self.y == 0 && dy == 0)
                && !(self.z == 0 && dz == 0) && self.x + dx <= limit && self.y + dy <= limit
                && self.z + dz <= limit;
            if inside {
                ns.push(
                    MortonKey {
                        x: self.x + dx - 1,
                        y: self.y + dy - 1,
                        z: self.z + dz - 1,
                        level: self.level,
                    },
                );
            }
            proof {
                assert(inside == self.spec_neighbor_valid(o as int));
            }
            o = o + 1;
        }
        proof {
            lemma_neighbors_props(*self, 27);
            assert forall|m: MortonKey| m.wf() && m.level == self.level && self.spec_adjacent(m)
                implies self.spec_neighbors().contains(m) by {
                lemma_neighbors_complete(*self, m);
            }
        }
        ns
    }

    /// Two same-level cells are adjacent when they are distinct and their
    /// anchors differ by at most one cell along every axis.
    pub open spec fn spec_adjacent(self, other: MortonKey) -> bool {
        &&& self != other
        &&& -1 <= self.x - other.x <= 1
        &&& -1 <= self.y - other.y <= 1
        &&& -1 <= self.z - other.z <= 1
    }

    /// Whether two same-level cells share a face, edge or corner.
    pub fn is_adjacent(&self, other: &MortonKey) -> (r: bool)
        requires
            self.wf(),
            other.wf(),
            self.level == other.level,
        ensures
            r == self.spec_adjacent(*other),
    {
        proof {
            lemma_pow2_mono(self.level as nat, MAX_LEVEL as nat);
            lemma_pow2_bounds();
        }
        let near = self.x + 1 >= other.x && other.x + 1 >= self.x && self.y + 1 >= other.y
            && other.y + 1 >= self.y && self.z + 1 >= other.z && other.z + 1 >= self.z;
        near && !(self.x == other.x && self.y == other.y && self.z == other.z
            && self.level == other.level)
    }

    /// Bijective encoding of the translation between two same-level cells:
    /// the base-131072 digits of the hash are the shifted anchor differences.
    pub open spec fn spec_transfer_hash(self, other: MortonKey) -> int {
        ((self.x - other.x + 65536) * 131072 + (self.y - other.y + 65536)) * 131072 + (self.z
            - other.z + 65536)
    }

    /// The translation identity of the source-target pair `(self, other)`:
    /// equal exactly for pairs related by the same displacement.
    pub fn find_transfer_vector(&self, other: &MortonKey) -> (h: u64)
        requires
            self.wf(),
            other.wf(),
            self.level == other.level,
        ensures
            h == self.spec_transfer_hash(*other),
    {
        proof {
            lemma_pow2_mono(self.level as nat, MAX_LEVEL as nat);
            lemma_pow2_bounds();
        }
        let hx = self.x + 65536 - other.x;
        let hy = self.y + 65536 - other.y;
        let hz = self.z + 65536 - other.z;
        (hx * 131072 + hy) * 131072 + hz
    }

    /// The set of deepest-level lattice cells inside this key's volume.
    pub open spec fn covers(self, px: int, py: int, pz: int) -> bool {
        let s = pow2((MAX_LEVEL - self.level) as nat);
        &&& self.x * s <= px < (self.x + 1) * s
        &&& self.y * s <= py < (self.y + 1) * s
        &&& self.z * s <= pz < (self.z + 1) * s
    }
}

/// Equal transfer hashes mean equal displacements: the hash deduplicates
/// exactly the translation classes.
pub proof fn lemma_transfer_hash_injective(s1: MortonKey, t1: MortonKey, s2: MortonKey, t2: MortonKey)
    requires
        s1.wf() && t1.wf() && s2.wf() && t2.wf(),
        s1.level == t1.level,
        s2.level == t2.level,
        s1.spec_transfer_hash(t1) == s2.spec_transfer_hash(t2),
    ensures
        s1.x - t1.x == s2.x - t2.x,
        s1.y - t1.y == s2.y - t2.y,
        s1.z - t1.z == s2.z - t2.z,
{
    lemma_pow2_mono(s1.level as nat, MAX_LEVEL as nat);
    lemma_pow2_mono(s2.level as nat, MAX_LEVEL as nat);
    lemma_pow2_bounds();
    let a1 = s1.x - t1.x + 65536;
    let b1 = s1.y - t1.y + 65536;
    let c1 = s1.z - t1.z + 65536;
    let a2 = s2.x - t2.x + 65536;
    let b2 = s2.y - t2.y + 65536;
    let c2 = s2.z - t2.z + 65536;
    assert(a1 == a2 && b1 == b2 && c1 == c2) by (nonlinear_arith)
        requires
            (a1 * 131072 + b1) * 131072 + c1 == (a2 * 131072 + b2) * 131072 + c2,
            0 <= a1 < 131072 && 0 <= b1 < 131072 && 0 <= c1 < 131072,
            0 <= a2 < 131072 && 0 <= b2 < 131072 && 0 <= c2 < 131072;
}

/// A key is the child of its parent at its own octant.
pub proof fn lemma_octant_identity(k: MortonKey)
    requires
        k.wf(),
        k.level >= 1,
    ensures
        k.spec_parent().spec_child(k.spec_octant()) == k,
{
    assert(2 * (k.x / 2) + (k.spec_octant() % 2) == k.x
        && 2 * (k.y / 2) + ((k.spec_octant() / 2) % 2) == k.y
        && 2 * (k.z / 2) + (k.spec_octant() / 4) == k.z) by (nonlinear_arith)
        requires
            k.spec_octant() == k.x % 2 + 2 * (k.y % 2) + 4 * (k.z % 2),
            0 <= k.x % 2 < 2 && 0 <= k.y % 2 < 2 && 0 <= k.z % 2 < 2,
            k.x == 2 * (k.x / 2) + k.x % 2,
            k.y == 2 * (k.y / 2) + k.y % 2,
            k.z == 2 * (k.z / 2) + k.z % 2;
}

/// Every listed neighbor is valid, same-level and adjacent.
proof fn lemma_neighbors_props(k: MortonKey, o: int)
    requires
        k.wf(),
        0 <= o <= 27,
    ensures
        k.spec_neighbors_upto(o).len() <= if o <= 13 { o } else { o - 1 },
        forall|i: int| 0 <= i < k.spec_neighbors_upto(o).len()
            ==> (#[trigger] k.spec_neighbors_upto(o)[i]).wf(),
        forall|i: int| 0 <= i < k.spec_neighbors_upto(o).len()
            ==> (#[trigger] k.spec_neighbors_upto(o)[i]).level == k.level,
        forall|i: int| 0 <= i < k.spec_neighbors_upto(o).len()
            ==> k.spec_adjacent(#[trigger] k.spec_neighbors_upto(o)[i]),
    decreases o,
{
    if o > 0 {
        lemma_neighbors_props(k, o - 1);
        if k.spec_neighbor_valid(o - 1) {
            let m = k.spec_neighbor_at(o - 1);
            lemma_pow2_mono(k.level as nat, MAX_LEVEL as nat);
            lemma_pow2_bounds();
            assert(0 <= (o - 1) % 3 <= 2 && 0 <= ((o - 1) / 3) % 3 <= 2 && 0 <= (o - 1) / 9 <= 2);
            assert(m.x == k.x + (o - 1) % 3 - 1 && m.y == k.y + ((o - 1) / 3) % 3 - 1
                && m.z == k.z + (o - 1) / 9 - 1);
            assert(m != k) by {
                if m.x == k.x && m.y == k.y && m.z == k.z {
                    assert((o - 1) % 3 == 1 && ((o - 1) / 3) % 3 == 1 && (o - 1) / 9 == 1);
                    assert(o - 1 == 13) by (nonlinear_arith)
                        requires (o - 1) % 3 == 1 && ((o - 1) / 3) % 3 == 1 && (o - 1) / 9 == 1,
                            0 <= o - 1 < 27;
                }
            }
        }
    }
}

/// Every same-level adjacent in-domain cell is listed among the neighbors.
proof fn lemma_neighbors_complete(k: MortonKey, m: MortonKey)
    requires
        k.wf(),
        m.wf(),
        m.level == k.level,
        k.spec_adjacent(m),
    ensures
        k.spec_neighbors().contains(m),
{
    let ox = m.x - k.x + 1;
    let oy = m.y - k.y + 1;
    let oz = m.z - k.z + 1;
    let o = oz * 9 + oy * 3 + ox;
    assert(0 <= ox <= 2 && 0 <= oy <= 2 && 0 <= oz <= 2);
    assert(o % 3 == ox && (o / 3) % 3 == oy && o / 9 == oz) by (nonlinear_arith)
        requires o == oz * 9 + oy * 3 + ox, 0 <= ox <= 2 && 0 <= oy <= 2 && 0 <= oz <= 2;
    assert(o != 13) by {
        if o == 13 {
            assert(ox == 1 && oy == 1 && oz == 1);
            assert(m.x == k.x && m.y == k.y && m.z == k.z);
        }
    }
    assert(k.spec_neighbor_valid(o));
    assert(k.spec_neighbor_at(o) == m);
    lemma_neighbors_upto_contains(k, o, 27);
}

/// A valid offset below the bound appears in the enumerated prefix.
proof fn lemma_neighbors_upto_contains(k: MortonKey, o: int, bound: int)
    requires
        0 <= o < bound,
        k.spec_neighbor_valid(o),
    ensures
        k.spec_neighbors_upto(bound).contains(k.spec_neighbor_at(o)),
    decreases bound,
{
    if o == bound - 1 {
        assert(k.spec_neighbors_upto(bound).last() == k.spec_neighbor_at(o));
    } else {
        lemma_neighbors_upto_contains(k, o, bound - 1);
        let s = k.spec_neighbors_upto(bound - 1);
        let i = choose|i: int| 0 <= i < s.len() && s[i] == k.spec_neighbor_at(o);
        assert(k.spec_neighbors_upto(bound)[i] == k.spec_neighbor_at(o));
    }
}

/// An interior cell (not touching the domain boundary) has all 26 neighbors.
pub proof fn lemma_neighbors_interior(k: MortonKey)
    requires
        k.wf(),
        1 <= k.x < pow2(k.level as nat) - 1,
        1 <= k.y < pow2(k.level as nat) - 1,
        1 <= k.z < pow2(k.level as nat) - 1,
    ensures
        k.spec_neighbors().len() == 26,
{
    lemma_neighbors_interior_upto(k, 27);
}

proof fn lemma_neighbors_interior_upto(k: MortonKey, o: int)
    requires
        k.wf(),
        1 <= k.x < pow2(k.level as nat) - 1,
        1 <= k.y < pow2(k.level as nat) - 1,
        1 <= k.z < pow2(k.level as nat) - 1,
        0 <= o <= 27,
    ensures
        k.spec_neighbors_upto(o).len() == if o <= 13 { o } else { o - 1 },
    decreases o,
{
    if o > 0 {
        lemma_neighbors_interior_upto(k, o - 1);
        if o - 1 != 13 {
            assert(0 <= (o - 1) % 3 <= 2 && 0 <= ((o - 1) / 3) % 3 <= 2 && 0 <= (o - 1) / 9 <= 2);
            assert(k.spec_neighbor_valid(o - 1));
        }
    }
}

impl MortonKey {
    /// The key of level `level` whose volume holds the deepest-level lattice
    /// cell `(ax, ay, az)`.
    pub fn from_anchor(ax: u64, ay: u64, az: u64, level: u64) -> (k: MortonKey)
        requires
            ax < 65536,
            ay < 65536,
            az < 65536,
            level <= MAX_LEVEL,
        ensures
            k.wf(),
            k.level == level,
            k == (MortonKey { x: ax, y: ay, z: az, level: MAX_LEVEL }).spec_ancestor(level as nat),
    {
        let s = pow2_u64(MAX_LEVEL - level);
        proof {
            let deep = MortonKey { x: ax, y: ay, z: az, level: MAX_LEVEL };
            lemma_pow2_bounds();
            assert(deep.wf());
            lemma_ancestor_props(deep, level as nat);
            lemma_pow8_pos((MAX_LEVEL - level) as nat);
            lemma_pow2_pos((MAX_LEVEL - level) as nat);
            lemma_pow2_adds_mul((MAX_LEVEL - level) as nat, level as nat);
            assert((ax as int) / (s as int) < pow2(level as nat) && (ay as int) / (s as int)
                < pow2(level as nat) && (az as int) / (s as int) < pow2(level as nat))
                by (nonlinear_arith)
                requires
                    s >= 1,
                    ax < s * pow2(level as nat),
                    ay < s * pow2(level as nat),
                    az < s * pow2(level as nat);
        }
        MortonKey { x: ax / s, y: ay / s, z: az / s, level }
    }
}

impl MortonKey {
    /// The key of a given level with a given Morton code: the inverse of
    /// `code` on `[0, 8^level)`.
    pub fn from_code(c: u64, level: u64) -> (k: MortonKey)
        requires
            level <= MAX_LEVEL,
            c < pow8(level as nat),
        ensures
            k.wf(),
            k.level == level,
            k.spec_code() == c,
        decreases level,
    {
        proof {
            lemma_pow8_mono(level as nat, MAX_LEVEL as nat);
            lemma_pow2_bounds();
        }
        if level == 0 {
            MortonKey { x: 0, y: 0, z: 0, level: 0 }
        } else {
            proof {
                assert(c / 8 < pow8((level - 1) as nat)) by (nonlinear_arith)
                    requires c < 8 * pow8((level - 1) as nat), c >= 0;
            }
            let p = MortonKey::from_code(c / 8, level - 1);
            let oct = c % 8;
            proof {
                lemma_pow2_mono((level - 1) as nat, MAX_LEVEL as nat);
            }
            let k = MortonKey {
                x: 2 * p.x + oct % 2,
                y: 2 * p.y + (oct / 2) % 2,
                z: 2 * p.z + oct / 4,
                level,
            };
            proof {
                lemma_child_wf(p, oct as int);
                assert(k == p.spec_child(oct as int));
                assert(8 * (c / 8) + c % 8 == c);
            }
            k
        }
    }
}

impl MortonKey {
    /// The ancestor of this key at a coarser level, as an executable value.
    pub fn ancestor(&self, l: u64) -> (a: MortonKey)
        requires
            self.wf(),
            l <= self.level,
        ensures
            a == self.spec_ancestor(l as nat),
            a.wf(),
            a.level == l,
        decreases self.level - l,
    {
        proof {
            lemma_ancestor_props(*self, l as nat);
        }
        if self.level == l {
            *self
        } else {
            let p = self.parent();
            p.ancestor(l)
        }
    }
}

/// Taking the parent of the ancestor at level `l` gives the ancestor at
/// level `l - 1`.
pub proof fn lemma_ancestor_parent(k: MortonKey, l: nat)
    requires
        k.wf(),
        1 <= l <= k.level,
    ensures
        k.spec_ancestor(l).spec_parent() == k.spec_ancestor((l - 1) as nat),
    decreases k.level - l,
{
    if k.level == l {
        assert(k.spec_ancestor(l) == k);
        assert(k.spec_ancestor((l - 1) as nat) == k.spec_parent().spec_ancestor((l - 1) as nat));
        assert(k.spec_parent().level == l - 1);
        assert(k.spec_parent().spec_ancestor((l - 1) as nat) == k.spec_parent());
    } else {
        lemma_parent_wf(k);
        lemma_ancestor_parent(k.spec_parent(), l);
    }
}

/// `2^a * 2^b == 2^(a + b)`.
pub proof fn lemma_pow2_adds_mul(a: nat, b: nat)
    ensures
        pow2(a) * pow2(b) == pow2((a + b) as nat),
    decreases a,
{
    if a > 0 {
        lemma_pow2_adds_mul((a - 1) as nat, b);
        assert(2 * pow2((a - 1) as nat) * pow2(b) == 2 * (pow2((a - 1) as nat) * pow2(b)))
            by (nonlinear_arith);
    }
}

/// The ancestor at level `l` of a valid key: its anchor and code are the
/// quotients of the key's own by the level difference.
pub proof fn lemma_ancestor_props(k: MortonKey, l: nat)
    requires
        k.wf(),
        l <= k.level,
    ensures
        k.spec_ancestor(l).wf(),
        k.spec_ancestor(l).level == l,
        k.spec_ancestor(l).x == k.x as int / pow2((k.level - l) as nat),
        k.spec_ancestor(l).y == k.y as int / pow2((k.level - l) as nat),
        k.spec_ancestor(l).z == k.z as int / pow2((k.level - l) as nat),
        k.spec_ancestor(l).spec_code() == k.spec_code() / pow8((k.level - l) as nat),
    decreases k.level - l,
{
    lemma_code_bound(k);
    if k.level == l {
        assert(k.x as int / 1 == k.x && k.y as int / 1 == k.y && k.z as int / 1 == k.z);
        assert(k.spec_code() / 1 == k.spec_code());
    } else {
        let p = k.spec_parent();
        let m = (k.level - 1 - l) as nat;
        lemma_parent_wf(k);
        lemma_ancestor_props(p, l);
        lemma_pow2_pos(m);
        lemma_pow8_pos(m);
        lemma_code_bound(p);
        assert(p.spec_code() == k.spec_code() / 8) by (nonlinear_arith)
            requires
                k.spec_code() == 8 * p.spec_code() + k.spec_octant(),
                0 <= k.spec_octant() < 8,
                p.spec_code() >= 0;
        lemma_div_denominator(k.x as int, 2, pow2(m));
        lemma_div_denominator(k.y as int, 2, pow2(m));
        lemma_div_denominator(k.z as int, 2, pow2(m));
        lemma_div_denominator(k.spec_code(), 8, pow8(m));
        assert(pow2((k.level - l) as nat) == 2 * pow2(m));
        assert(pow8((k.level - l) as nat) == 8 * pow8(m));
    }
}

/// A coarser key is the ancestor of a finer one exactly when the finer key's
/// code lies in the coarser key's code interval.
pub proof fn lemma_ancestor_iff_code_range(k: MortonKey, p: MortonKey)
    requires
        k.wf(),
        p.wf(),
        k.level <= p.level,
    ensures
        p.spec_ancestor(k.level as nat) == k <==> k.spec_code() * pow8((p.level - k.level) as nat)
            <= p.spec_code() < (k.spec_code() + 1) * pow8((p.level - k.level) as nat),
{
    let d = (p.level - k.level) as nat;
    let anc = p.spec_ancestor(k.level as nat);
    lemma_ancestor_props(p, k.level as nat);
    lemma_code_bound(p);
    lemma_code_bound(k);
    lemma_pow8_pos(d);
    if anc == k {
        assert(k.spec_code() == p.spec_code() / pow8(d));
        assert(k.spec_code() * pow8(d) <= p.spec_code() < (k.spec_code() + 1) * pow8(d))
            by (nonlinear_arith)
            requires
                k.spec_code() == p.spec_code() / pow8(d),
                p.spec_code() >= 0,
                pow8(d) >= 1;
    }
    if k.spec_code() * pow8(d) <= p.spec_code() < (k.spec_code() + 1) * pow8(d) {
        assert(p.spec_code() / pow8(d) == k.spec_code()) by (nonlinear_arith)
            requires
                k.spec_code() * pow8(d) <= p.spec_code() < (k.spec_code() + 1) * pow8(d),
                pow8(d) >= 1,
                k.spec_code() >= 0;
        lemma_code_injective(anc, k);
    }
}

/// A key covers a deepest-level lattice cell exactly when it is the
/// cell's ancestor at its level.
pub proof fn lemma_covers_iff_ancestor(k: MortonKey, p: MortonKey)
    requires
        k.wf(),
        p.wf(),
        p.level == MAX_LEVEL,
    ensures
        k.covers(p.x as int, p.y as int, p.z as int) <==> p.spec_ancestor(k.level as nat) == k,
{
    let d = (MAX_LEVEL - k.level) as nat;
    let s = pow2(d);
    let anc = p.spec_ancestor(k.level as nat);
    lemma_ancestor_props(p, k.level as nat);
    lemma_pow2_pos(d);
    assert(anc.x == p.x as int / s && anc.y == p.y as int / s && anc.z == p.z as int / s);
    assert((p.x as int / s == k.x) <==> (k.x * s <= p.x < (k.x + 1) * s)) by (nonlinear_arith)
        requires s >= 1, p.x >= 0, k.x >= 0;
    assert((p.y as int / s == k.y) <==> (k.y * s <= p.y < (k.y + 1) * s)) by (nonlinear_arith)
        requires s >= 1, p.y >= 0, k.y >= 0;
    assert((p.z as int / s == k.z) <==> (k.z * s <= p.z < (k.z + 1) * s)) by (nonlinear_arith)
        requires s >= 1, p.z >= 0, k.z >= 0;
    if anc.x == k.x && anc.y == k.y && anc.z == k.z {
        assert(anc == k);
    }
}

/// One axis of the tessellation: a half-open interval of width `2 * h`
/// splits exactly into its two halves.
proof fn lemma_interval_halves(a: int, h: int, p: int)
    requires
        h >= 1,
        a >= 0,
    ensures
        (a * (2 * h) <= p < (a + 1) * (2 * h)) <==> ((2 * a) * h <= p < (2 * a + 1) * h) || ((2
            * a + 1) * h <= p < (2 * a + 2) * h),
{
    assert(a * (2 * h) == (2 * a) * h && (a + 1) * (2 * h) == (2 * a + 2) * h && (2 * a + 1) * h
        == (2 * a) * h + h && (2 * a + 2) * h == (2 * a) * h + 2 * h) by (nonlinear_arith);
}

/// The children of a key exactly tessellate its volume: there are 8 of
/// them, each has the key as parent, every lattice cell the key covers is
/// covered by exactly one child, and nothing outside is.
pub proof fn lemma_children_tessellate(k: MortonKey, px: int, py: int, pz: int)
    requires
        k.wf(),
        k.level < MAX_LEVEL,
    ensures
        forall|i: int| 0 <= i < 8 ==> (#[trigger] k.spec_child(i)).spec_parent() == k,
        k.covers(px, py, pz) <==> exists|i: int|
            0 <= i < 8 && (#[trigger] k.spec_child(i)).covers(px, py, pz),
        forall|i: int, j: int|
            0 <= i < 8 && 0 <= j < 8 && i != j && (#[trigger] k.spec_child(i)).covers(px, py, pz)
                ==> !(#[trigger] k.spec_child(j)).covers(px, py, pz),
{
    let d = (MAX_LEVEL - k.level - 1) as nat;
    let h = pow2(d);
    let s = pow2((MAX_LEVEL - k.level) as nat);
    lemma_pow2_pos(d);
    assert(s == 2 * h);
    assert forall|i: int| 0 <= i < 8 implies (#[trigger] k.spec_child(i)).spec_parent() == k by {
        lemma_child_wf(k, i);
    }
    lemma_pow2_mono(k.level as nat, MAX_LEVEL as nat);
    lemma_pow2_bounds();
    lemma_interval_halves(k.x as int, h, px);
    lemma_interval_halves(k.y as int, h, py);
    lemma_interval_halves(k.z as int, h, pz);
    let cx = k.x as int;
    let cy = k.y as int;
    let cz = k.z as int;
    if k.covers(px, py, pz) {
        let bx: int = if (2 * cx + 1) * h <= px { 1 } else { 0 };
        let by: int = if (2 * cy + 1) * h <= py { 1 } else { 0 };
        let bz: int = if (2 * cz + 1) * h <= pz { 1 } else { 0 };
        let i = bx + 2 * by + 4 * bz;
        assert(0 <= i < 8);
        assert(i % 2 == bx && (i / 2) % 2 == by && i / 4 == bz) by (nonlinear_arith)
            requires i == bx + 2 * by + 4 * bz, 0 <= bx < 2 && 0 <= by < 2 && 0 <= bz < 2;
        lemma_child_wf(k, i);
        assert(k.spec_child(i).covers(px, py, pz));
    }
    assert forall|i: int| 0 <= i < 8 && (#[trigger] k.spec_child(i)).covers(px, py, pz)
        implies k.covers(px, py, pz) by {
        lemma_child_wf(k, i);
    }
    assert forall|i: int, j: int|
        0 <= i < 8 && 0 <= j < 8 && i != j && (#[trigger] k.spec_child(i)).covers(px, py, pz)
        implies !(#[trigger] k.spec_child(j)).covers(px, py, pz) by {
        lemma_child_wf(k, i);
        lemma_child_wf(k, j);
        assert(i % 2 != j % 2 || (i / 2) % 2 != (j / 2) % 2 || i / 4 != j / 4)
            by (nonlinear_arith)
            requires 0 <= i < 8, 0 <= j < 8, i != j;
    }
}

/// The parent of a valid non-root key is valid.
pub proof fn lemma_parent_wf(k: MortonKey)
    requires
        k.wf(),
        k.level >= 1,
    ensures
        k.spec_parent().wf(),
        k.spec_parent().level == k.level - 1,
{
    assert(k.x / 2 < pow2((k.level - 1) as nat)) by {
        assert(pow2(k.level as nat) == 2 * pow2((k.level - 1) as nat));
    }
}

/// Each child of a valid key is valid, sits one level deeper, and has the
/// key as its parent with octant `i`.
pub proof fn lemma_child_wf(k: MortonKey, i: int)
    requires
        k.wf(),
        k.level < MAX_LEVEL,
        0 <= i < 8,
    ensures
        k.spec_child(i).wf(),
        k.spec_child(i).level == k.level + 1,
        k.spec_child(i).spec_parent() == k,
        k.spec_child(i).spec_octant() == i,
        k.spec_child(i).spec_code() == 8 * k.spec_code() + i,
{
    let c = k.spec_child(i);
    lemma_pow2_mono(k.level as nat, MAX_LEVEL as nat);
    lemma_pow2_bounds();
    assert(pow2((k.level + 1) as nat) == 2 * pow2(k.level as nat));
    assert((2 * k.x + i % 2) / 2 == k.x && (2 * k.x + i % 2) % 2 == i % 2) by (nonlinear_arith)
        requires 0 <= i % 2 < 2, k.x >= 0;
    assert((2 * k.y + (i / 2) % 2) / 2 == k.y && (2 * k.y + (i / 2) % 2) % 2 == (i / 2) % 2)
        by (nonlinear_arith)
        requires 0 <= (i / 2) % 2 < 2, k.y >= 0;
    assert((2 * k.z + i / 4) / 2 == k.z && (2 * k.z + i / 4) % 2 == i / 4) by (nonlinear_arith)
        requires 0 <= i / 4 < 2, k.z >= 0;
    assert(i % 2 + 2 * ((i / 2) % 2) + 4 * (i / 4) == i) by (nonlinear_arith)
        requires 0 <= i < 8;
}

/// A key's Morton code lies in `[0, 8^level)`.
pub proof fn lemma_code_bound(k: MortonKey)
    requires
        k.wf(),
    ensures
        0 <= k.spec_code() < pow8(k.level as nat),
    decreases k.level,
{
    if k.level > 0 {
        lemma_parent_wf(k);
        lemma_code_bound(k.spec_parent());
        assert(0 <= k.spec_octant() < 8);
    }
}

/// Keys of one level with equal codes are equal: the code encodes the anchor.
pub proof fn lemma_code_injective(a: MortonKey, b: MortonKey)
    requires
        a.wf(),
        b.wf(),
        a.level == b.level,
        a.spec_code() == b.spec_code(),
    ensures
        a == b,
    decreases a.level,
{
    if a.level == 0 {
        assert(a.x == 0 && a.y == 0 && a.z == 0);
        assert(b.x == 0 && b.y == 0 && b.z == 0);
    } else {
        lemma_parent_wf(a);
        lemma_parent_wf(b);
        lemma_code_bound(a.spec_parent());
        lemma_code_bound(b.spec_parent());
        assert(0 <= a.spec_octant() < 8 && 0 <= b.spec_octant() < 8);
        assert(a.spec_parent().spec_code() == b.spec_parent().spec_code()
            && a.spec_octant() == b.spec_octant()) by (nonlinear_arith)
            requires
                8 * a.spec_parent().spec_code() + a.spec_octant()
                    == 8 * b.spec_parent().spec_code() + b.spec_octant(),
                0 <= a.spec_octant() < 8,
                0 <= b.spec_octant() < 8;
        lemma_code_injective(a.spec_parent(), b.spec_parent());
        assert(a.x % 2 == b.x % 2 && a.x / 2 == b.x / 2) by {
            assert(a.spec_octant() == b.spec_octant());
            assert(a.x % 2 == a.spec_octant() % 2 && b.x % 2 == b.spec_octant() % 2)
                by (nonlinear_arith)
                requires
                    a.spec_octant() == a.x % 2 + 2 * (a.y % 2) + 4 * (a.z % 2),
                    b.spec_octant() == b.x % 2 + 2 * (b.y % 2) + 4 * (b.z % 2),
                    0 <= a.x % 2 < 2 && 0 <= a.y % 2 < 2 && 0 <= a.z % 2 < 2,
                    0 <= b.x % 2 < 2 && 0 <= b.y % 2 < 2 && 0 <= b.z % 2 < 2;
        }
        assert(a.y % 2 == b.y % 2 && a.z % 2 == b.z % 2) by (nonlinear_arith)
            requires
                a.x % 2 + 2 * (a.y % 2) + 4 * (a.z % 2) == b.x % 2 + 2 * (b.y % 2) + 4 * (b.z % 2),
                a.x % 2 == b.x % 2,
                0 <= a.y % 2 < 2 && 0 <= a.z % 2 < 2 && 0 <= b.y % 2 < 2 && 0 <= b.z % 2 < 2;
        assert(a.x == 2 * (a.x / 2) + a.x % 2 && b.x == 2 * (b.x / 2) + b.x % 2);
        assert(a.y == 2 * (a.y / 2) + a.y % 2 && b.y == 2 * (b.y / 2) + b.y % 2);
        assert(a.z == 2 * (a.z / 2) + a.z % 2 && b.z == 2 * (b.z / 2) + b.z % 2);
    }
}

} // verus!
