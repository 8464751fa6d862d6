//! Index structure of the FFT-accelerated M2L translation: the embedding of
//! the equivalent surface into the convolution grid, the 26-position halo of
//! sibling/halo-child interactions whose frequency-domain kernels are
//! precomputed once, and the frequency-major rearrangement of that kernel
//! data.  The kernel evaluations and transforms themselves are floating
//! point and live with the caller; everything here pins down which entry
//! goes where.
use vstd::prelude::*;

use crate::morton::{MortonKey, lemma_pow2_bounds, lemma_neighbors_interior};
use crate::transfer_vector::{TransferVector, compute_transfer_vectors};

verus! {

/// Whether the convolution-grid cell `(i, j, k)` of an order-`order` grid
/// (each axis `0 .. 2 * order - 1`) lies on the embedded surface grid.
pub open spec fn on_surface(i: int, j: int, k: int, order: int) -> bool {
    let lower = order - 1;
    let upper = 2 * order - 2;
    ||| (i >= lower && j >= lower && (k == lower || k == upper))
    ||| (j >= lower && k >= lower && (i == lower || i == upper))
    ||| (k >= lower && i >= lower && (j == lower || j == upper))
}

/// `on_surface` of a flat convolution index `ci = i + n*j + n*n*k`.
pub open spec fn on_surface_index(ci: int, order: int) -> bool {
    let n = 2 * order - 1;
    on_surface(ci % n, (ci / n) % n, ci / (n * n), order)
}

/// The structural data of the FFT field translation: the maps between the
/// surface grid and the convolution grid, and the unique transfer vectors.
/// The frequency-domain kernel blocks themselves are computed by the caller
/// against this layout.
pub struct FftFieldTranslationKiFmm {
    /// Expansion order of the surfaces.
    pub order: usize,
    /// For each surface index, its flat convolution-grid index.
    pub surf_to_conv_map: Vec<usize>,
    /// For each flat convolution-grid index, the surface index embedded
    /// there, if any.
    pub conv_to_surf_map: Vec<Option<usize>>,
    /// The unique transfer vectors of the reference level.
    pub transfer_vectors: Vec<TransferVector>,
}

impl FftFieldTranslationKiFmm {
    /// Number of surface coefficients for an expansion order.
    pub fn ncoeffs(&self, order: usize) -> (n: usize)
        requires
            1 <= order,
            crate::spec_ncoeffs(order as int) <= usize::MAX,
        ensures
            n == crate::spec_ncoeffs(order as int),
    {
        crate::ncoeffs(order)
    }

    /// The two maps between surface and convolution grid indices: the
    /// surface indices enumerate, in flat convolution order, exactly the
    /// cells satisfying the surface predicate, and the two maps are mutually
    /// inverse.
    pub fn compute_surf_to_conv_map(order: usize) -> (r: (Vec<usize>, Vec<Option<usize>>))
        requires
            1 <= order,
            2 * order <= usize::MAX,
            (2 * order - 1) * (2 * order - 1) * (2 * order - 1) <= usize::MAX,
        ensures
            ({
                let n = 2 * order - 1;
                let surf_to_conv = r.0;
                let conv_to_surf = r.1;
                &&& conv_to_surf@.len() == n * n * n
                &&& forall|ci: int|
                    0 <= ci < n * n * n ==> ((#[trigger] conv_to_surf@[ci]) is Some
                        <==> on_surface_index(ci, order as int))
                &&& forall|ci: int|
                    0 <= ci < n * n * n && conv_to_surf@[ci] is Some
                        ==> 0 <= (#[trigger] conv_to_surf@[ci])->0 < surf_to_conv@.len()
                        && surf_to_conv@[conv_to_surf@[ci]->0 as int] == ci
                &&& forall|s: int|
                    0 <= s < surf_to_conv@.len() ==> 0 <= #[trigger] surf_to_conv@[s] < n * n * n
                        && conv_to_surf@[surf_to_conv@[s] as int] == Some(s as usize)
                &&& forall|s: int, s2: int|
                    0 <= s < s2 < surf_to_conv@.len() ==> #[trigger] surf_to_conv@[s]
                        < #[trigger] surf_to_conv@[s2]
            }),
    {
        let n = 2 * order - 1;
        proof {
            assert(n * n <= n * n * n && n <= n * n * n && n * n * n >= 1) by (nonlinear_arith)
                requires n >= 1;
        }
        let nn = n * n;
        let total = nn * n;
        let mut surf_to_conv: Vec<usize> = Vec::new();
        let mut conv_to_surf: Vec<Option<usize>> = Vec::new();
        let mut ci: usize = 0;
        while ci < total
            invariant
                ci <= total,
                n == 2 * order - 1,
                order >= 1,
                2 * order <= usize::MAX,
                nn == n * n,
                total == n * n * n,
                conv_to_surf@.len() == ci,
                surf_to_conv@.len() <= ci,
                forall|c: int|
                    0 <= c < ci ==> ((#[trigger] conv_to_surf@[c]) is Some <==> on_surface_index(
                        c,
                        order as int,
                    )),
                forall|c: int|
                    0 <= c < ci && conv_to_surf@[c] is Some ==> 0 <= (
                    #[trigger] conv_to_surf@[c])->0 < surf_to_conv@.len()
                        && surf_to_conv@[conv_to_surf@[c]->0 as int] == c,
                forall|s: int|
                    0 <= s < surf_to_conv@.len() ==> 0 <= #[trigger] surf_to_conv@[s] < ci
                        && conv_to_surf@[surf_to_conv@[s] as int] == Some(s as usize),
                forall|s: int, s2: int|
                    0 <= s < s2 < surf_to_conv@.len() ==> #[trigger] surf_to_conv@[s]
                        < #[trigger] surf_to_conv@[s2],
            decreases total - ci,
        {
            let i = ci % n;
            let j = (ci / n) % n;
            let k = ci / nn;
            let lower = order - 1;
            let upper = 2 * order - 2;
            let hit = (i >= lower && j >= lower && (k == lower || k == upper)) || (j >= lower && k
                >= lower && (i == lower || i == upper)) || (k >= lower && i >= lower && (j == lower
                || j == upper));
            proof {
                assert(hit == on_surface_index(ci as int, order as int));
            }
            if hit {
                let s = surf_to_conv.len();
                surf_to_conv.push(ci);
                conv_to_surf.push(Some(s));
            } else {
                conv_to_surf.push(None);
            }
            ci = ci + 1;
        }
        (surf_to_conv, conv_to_surf)
    }

    /// Builds the layout: surface/convolution maps and transfer vectors.
    /// The caller derives its frequency-domain kernel data from them.
    pub fn new(order: usize) -> (t: FftFieldTranslationKiFmm)
        requires
            1 <= order,
            2 * order <= usize::MAX,
            (2 * order - 1) * (2 * order - 1) * (2 * order - 1) <= usize::MAX,
        ensures
            ({
                let n = 2 * order - 1;
                &&& t.order == order
                &&& t.conv_to_surf_map@.len() == n * n * n
                &&& forall|ci: int|
                    0 <= ci < n * n * n ==> ((#[trigger] t.conv_to_surf_map@[ci]) is Some
                        <==> on_surface_index(ci, order as int))
                &&& forall|s: int|
                    0 <= s < t.surf_to_conv_map@.len() ==> 0 <= #[trigger] t.surf_to_conv_map@[s]
                        < n * n * n && t.conv_to_surf_map@[t.surf_to_conv_map@[s] as int] == Some(
                        s as usize)
                &&& forall|ci: int|
                    0 <= ci < n * n * n && t.conv_to_surf_map@[ci] is Some
                        ==> 0 <= (#[trigger] t.conv_to_surf_map@[ci])->0
                        < t.surf_to_conv_map@.len()
                &&& forall|i: int, j: int|
                    0 <= i < j < t.transfer_vectors@.len() ==> (
                    #[trigger] t.transfer_vectors@[i]).hash
                        != (#[trigger] t.transfer_vectors@[j]).hash
                &&& forall|i: int|
                    0 <= i < t.transfer_vectors@.len() ==> (
                    #[trigger] t.transfer_vectors@[i]).wf()
                &&& forall|s: MortonKey, t2: MortonKey|
                    crate::transfer_vector::in_v_list(s, t2) && t2.level
                        == crate::transfer_vector::TRANSFER_VECTOR_LEVEL
                        ==> #[trigger] crate::transfer_vector::hash_present(
                        t.transfer_vectors@,
                        s.spec_transfer_hash(t2),
                    )
            }),
    {
        let (surf_to_conv_map, conv_to_surf_map) =
            FftFieldTranslationKiFmm::compute_surf_to_conv_map(order);
        let transfer_vectors = compute_transfer_vectors();
        FftFieldTranslationKiFmm { order, surf_to_conv_map, conv_to_surf_map, transfer_vectors }
    }

    /// Places surface data on the convolution grid: each grid cell takes the
    /// value of the surface point embedded there, and `zero` elsewhere.
    pub fn compute_signal<T: Copy>(&self, order: usize, charges: &Vec<T>, zero: T) -> (sig: Vec<
        T,
    >)
        requires
            order == self.order,
            forall|ci: int|
                0 <= ci < self.conv_to_surf_map@.len() && (
                #[trigger] self.conv_to_surf_map@[ci]) is Some ==> 0 <= self.conv_to_surf_map@[ci]->0
                    < charges@.len(),
        ensures
            sig@.len() == self.conv_to_surf_map@.len(),
            forall|ci: int|
                0 <= ci < sig@.len() ==> #[trigger] sig@[ci] == (match self.conv_to_surf_map@[ci] {
                    Some(s) => charges@[s as int],
                    None => zero,
                }),
    {
        let total = self.conv_to_surf_map.len();
        let mut sig: Vec<T> = Vec::new();
        let mut ci: usize = 0;
        while ci < total
            invariant
                ci <= total == self.conv_to_surf_map@.len(),
                forall|c: int|
                    0 <= c < total && (#[trigger] self.conv_to_surf_map@[c]) is Some ==> 0
                        <= self.conv_to_surf_map@[c]->0 < charges@.len(),
                sig@.len() == ci,
                forall|c: int|
                    0 <= c < ci ==> #[trigger] sig@[c] == (match self.conv_to_surf_map@[c] {
                        Some(s) => charges@[s as int],
                        None => zero,
                    }),
            decreases total - ci,
        {
            match self.conv_to_surf_map[ci] {
                Some(s) => { sig.push(charges[s]) },
                None => { sig.push(zero) },
            }
            ci = ci + 1;
        }
        sig
    }
}

/// One precomputed M2L interaction of the halo pattern: target sibling `j`,
/// source halo-child `k`, and whether the pair is well-separated (adjacent
/// pairs keep an explicit zero kernel block).
#[derive(Clone, Copy, PartialEq, Eq, Structural, Debug)]
pub struct HaloInteraction {
    /// Octant of the target among the representative siblings.
    pub sibling: usize,
    /// Octant of the source among the halo cell's children.
    pub child: usize,
    /// Whether the source lies in the target's V-list; when false the
    /// kernel block of the pair is zero.
    pub in_v_list: bool,
}

/// The representative box used to enumerate the halo pattern: a cell near
/// the middle of the domain at the reference level, so its parent has all
/// 26 neighbors.
pub open spec fn halo_representative() -> MortonKey {
    MortonKey { x: 4, y: 4, z: 4, level: 3 }
}

/// Enumerates the halo interaction pattern: for each of the exactly 26
/// halo positions (the neighbors of the representative box's parent), the
/// 64 sibling/halo-child pairs in layout order `sibling * 8 + child`, each
/// marked as well-separated or not.  Translational invariance makes this one
/// pattern serve every same-level translation.
pub fn compute_halo_interactions() -> (r: Vec<Vec<HaloInteraction>>)
    ensures
        r@.len() == 26,
        forall|h: int| 0 <= h < 26 ==> (#[trigger] r@[h]).len() == 64,
        forall|h: int, e: int|
            #![trigger r@[h]@[e]]
            0 <= h < 26 && 0 <= e < 64 ==> {
                let rep = halo_representative();
                let target = rep.spec_parent().spec_child(e / 8);
                let source = rep.spec_parent().spec_neighbors()[h].spec_child(e % 8);
                &&& r@[h]@[e].sibling == e / 8
                &&& r@[h]@[e].child == e % 8
                &&& r@[h]@[e].in_v_list == !target.spec_adjacent(source)
            },
{
    let rep = MortonKey { x: 4, y: 4, z: 4, level: 3 };
    proof {
        lemma_pow2_bounds();
        reveal_with_fuel(crate::morton::pow2, 5);
        assert(rep.wf());
    }
    let parent = rep.parent();
    let halo = parent.neighbors();
    proof {
        reveal_with_fuel(crate::morton::pow2, 5);
        assert(parent.x == 2 && parent.y == 2 && parent.z == 2 && parent.level == 2);
        lemma_neighbors_interior(parent);
    }
    let siblings = rep.siblings();
    let mut r: Vec<Vec<HaloInteraction>> = Vec::new();
    let mut h: usize = 0;
    while h < 26
        invariant
            h <= 26,
            rep == halo_representative(),
            rep.wf(),
            parent == rep.spec_parent(),
            parent.wf(),
            parent.level == 2,
            halo@.len() == 26,
            halo@ == parent.spec_neighbors(),
            forall|d: int| 0 <= d < 26 ==> (#[trigger] halo@[d]).wf(),
            forall|d: int| 0 <= d < 26 ==> (#[trigger] halo@[d]).level == 2,
            siblings@.len() == 8,
            forall|e: int| 0 <= e < 8 ==> siblings@[e] == parent.spec_child(e),
            forall|e: int| 0 <= e < 8 ==> (#[trigger] siblings@[e]).wf(),
            r@.len() == h,
            forall|h2: int| 0 <= h2 < h ==> (#[trigger] r@[h2]).len() == 64,
            forall|h2: int, e: int|
                #![trigger r@[h2]@[e]]
                0 <= h2 < h && 0 <= e < 64 ==> {
                    let target = parent.spec_child(e / 8);
                    let source = halo@[h2].spec_child(e % 8);
                    &&& r@[h2]@[e].sibling == e / 8
                    &&& r@[h2]@[e].child == e % 8
                    &&& r@[h2]@[e].in_v_list == !target.spec_adjacent(source)
                },
        decreases 26 - h,
    {
        let hc = halo[h];
        let children = hc.children();
        let mut row: Vec<HaloInteraction> = Vec::new();
        let mut e: usize = 0;
        while e < 64
            invariant
                e <= 64,
                hc == halo@[h as int],
                hc.wf(),
                hc.level == 2,
                h < 26,
                halo@.len() == 26,
                parent.wf(),
                parent.level == 2,
                children@.len() == 8,
                forall|d: int| 0 <= d < 8 ==> children@[d] == hc.spec_child(d),
                forall|d: int| 0 <= d < 8 ==> (#[trigger] children@[d]).wf(),
                siblings@.len() == 8,
                forall|d: int| 0 <= d < 8 ==> siblings@[d] == parent.spec_child(d),
                forall|d: int| 0 <= d < 8 ==> (#[trigger] siblings@[d]).wf(),
                row@.len() == e,
                forall|e2: int|
                    #![trigger row@[e2]]
                    0 <= e2 < e ==> {
                        let target = parent.spec_child(e2 / 8);
                        let source = hc.spec_child(e2 % 8);
                        &&& row@[e2].sibling == e2 / 8
                        &&& row@[e2].child == e2 % 8
                        &&& row@[e2].in_v_list == !target.spec_adjacent(source)
                    },
            decreases 64 - e,
        {
            let j = e / 8;
            let k = e % 8;
            let target = siblings[j];
            let source = children[k];
            proof {
                crate::morton::lemma_child_wf(parent, j as int);
                crate::morton::lemma_child_wf(hc, k as int);
            }
            let adjacent = target.is_adjacent(&source);
            row.push(HaloInteraction { sibling: j, child: k, in_v_list: !adjacent });
            e = e + 1;
        }
        r.push(row);
        h = h + 1;
    }
    r
}

/// The flat index into an unrearranged per-halo kernel vector that feeds
/// output position `e` of the rearranged layout: entry `e = l * 64 + k * 8
/// + j` (frequency `l`, halo child `k`, sibling `j`) reads the unrearranged
/// entry `j * size_real * 8 + k * size_real + l`.
pub open spec fn rearranged_source_index(e: int, size_real: int) -> int {
    (e % 8) * size_real * 8 + ((e % 64) / 8) * size_real + e / 64
}

/// Rearranges per-halo kernel data from sibling-major blocks into
/// frequency-major groups, so that one frequency's 64 sibling/halo-child
/// entries are contiguous for the Hadamard stage.
pub fn rearrange_kernel_data<T: Copy>(kernel_data: &Vec<Vec<T>>, size_real: usize) -> (r: Vec<
    Vec<T>,
>)
    requires
        size_real >= 1,
        64 * size_real <= usize::MAX,
        forall|h: int| 0 <= h < kernel_data@.len() ==> (#[trigger] kernel_data@[h]).len() == 64
            * size_real,
    ensures
        r@.len() == kernel_data@.len(),
        forall|h: int| 0 <= h < r@.len() ==> (#[trigger] r@[h]).len() == 64 * size_real,
        forall|h: int, e: int|
            #![trigger r@[h]@[e]]
            0 <= h < r@.len() && 0 <= e < 64 * size_real ==> r@[h]@[e]
                == kernel_data@[h]@[rearranged_source_index(e, size_real as int)],
{
    let nhalo = kernel_data.len();
    let total = 64 * size_real;
    let mut r: Vec<Vec<T>> = Vec::new();
    let mut h: usize = 0;
    while h < nhalo
        invariant
            h <= nhalo == kernel_data@.len(),
            size_real >= 1,
            total == 64 * size_real,
            forall|h2: int| 0 <= h2 < nhalo ==> (#[trigger] kernel_data@[h2]).len() == total,
            r@.len() == h,
            forall|h2: int| 0 <= h2 < h ==> (#[trigger] r@[h2]).len() == total,
            forall|h2: int, e: int|
                #![trigger r@[h2]@[e]]
                0 <= h2 < h && 0 <= e < total ==> r@[h2]@[e]
                    == kernel_data@[h2]@[rearranged_source_index(e, size_real as int)],
        decreases nhalo - h,
    {
        let row = &kernel_data[h];
        let mut out: Vec<T> = Vec::new();
        let mut e: usize = 0;
        while e < total
            invariant
                e <= total == 64 * size_real,
                size_real >= 1,
                row@.len() == total,
                row == kernel_data@[h as int],
                h < nhalo == kernel_data@.len(),
                out@.len() == e,
                forall|e2: int|
                    0 <= e2 < e ==> #[trigger] out@[e2] == row@[rearranged_source_index(
                        e2,
                        size_real as int,
                    )],
            decreases total - e,
        {
            let j = e % 8;
            let k = (e % 64) / 8;
            let l = e / 64;
            proof {
                assert(j * size_real * 8 + k * size_real + l < 64 * size_real
                    && 0 <= j * size_real * 8 + k * size_real + l) by (nonlinear_arith)
                    requires
                        j == e % 8,
                        k == (e % 64) / 8,
                        l == e / 64,
                        0 <= e < 64 * size_real,
                        size_real >= 1;
            }
            let src = j * size_real * 8 + k * size_real + l;
            out.push(row[src]);
            e = e + 1;
        }
        r.push(out);
        h = h + 1;
    }
    r
}

} // verus!
