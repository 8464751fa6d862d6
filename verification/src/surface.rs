//! The discretised box surface: the lattice multi-indices of the
//! equivalent/check surface of a given expansion order.  Scaling these
//! indices by a box's position and size gives the surface coordinates; that
//! scaling is floating point and lives with the caller.
use vstd::prelude::*;

verus! {

/// Whether the lattice cell `(i, j, k)` of an `order^3` grid lies on the
/// grid's boundary: the discretised surface keeps exactly those cells.
pub open spec fn on_box_boundary(i: int, j: int, k: int, order: int) -> bool {
    i == 0 || i == order - 1 || j == 0 || j == order - 1 || k == 0 || k == order - 1
}

/// `on_box_boundary` of a flat index `f = i + order * j + order * order * k`.
pub open spec fn on_box_boundary_flat(f: int, order: int) -> bool {
    on_box_boundary(f % order, (f / order) % order, f / (order * order), order)
}

/// The flat indices below `m` that lie on the boundary, in order.
pub open spec fn boundary_indices_upto(m: int, order: int) -> Seq<int>
    decreases m,
{
    if m <= 0 {
        Seq::empty()
    } else if on_box_boundary_flat(m - 1, order) {
        boundary_indices_upto(m - 1, order).push(m - 1)
    } else {
        boundary_indices_upto(m - 1, order)
    }
}

/// The multi-indices of the surface grid of an expansion order, in flat
/// lattice order: exactly the boundary cells of the `order^3` grid, of
/// which there are `ncoeffs(order)`.
pub fn surface_grid_multi_indices(order: usize) -> (r: Vec<(usize, usize, usize)>)
    requires
        1 <= order,
        order * order * order <= usize::MAX,
    ensures
        r@.len() == boundary_indices_upto(order * order * order, order as int).len(),
        forall|t: int|
            0 <= t < r@.len() ==> ({
                let (i, j, k) = #[trigger] r@[t];
                &&& i < order && j < order && k < order
                &&& on_box_boundary(i as int, j as int, k as int, order as int)
                &&& i + order * j + order * order * k == boundary_indices_upto(
                    order * order * order,
                    order as int,
                )[t]
            }),
{
    proof {
        assert(order * order <= order * order * order && order * order * order >= 1)
            by (nonlinear_arith)
            requires order >= 1;
    }
    let oo = order * order;
    let total = oo * order;
    let mut r: Vec<(usize, usize, usize)> = Vec::new();
    let mut f: usize = 0;
    while f < total
        invariant
            f <= total,
            order >= 1,
            oo == order * order,
            total == order * order * order,
            r@.len() == boundary_indices_upto(f as int, order as int).len(),
            forall|t: int|
                0 <= t < r@.len() ==> ({
                    let (i, j, k) = #[trigger] r@[t];
                    &&& i < order && j < order && k < order
                    &&& on_box_boundary(i as int, j as int, k as int, order as int)
                    &&& i + order * j + order * order * k == boundary_indices_upto(
                        f as int,
                        order as int,
                    )[t]
                }),
        decreases total - f,
    {
        let i = f % order;
        let j = (f / order) % order;
        let k = f / oo;
        let hit = i == 0 || i == order - 1 || j == 0 || j == order - 1 || k == 0 || k == order
            - 1;
        proof {
            assert(hit == on_box_boundary_flat(f as int, order as int));
            assert(i + order * j + order * order * k == f) by (nonlinear_arith)
                requires
                    i == f as int % (order as int),
                    j == (f as int / (order as int)) % (order as int),
                    k == f as int / ((order as int) * (order as int)),
                    order >= 1,
                    f >= 0;
            assert(k < order) by (nonlinear_arith)
                requires
                    k == f as int / ((order as int) * (order as int)),
                    0 <= f < (order as int) * (order as int) * (order as int),
                    order >= 1;
        }
        if hit {
            r.push((i, j, k));
        }
        f = f + 1;
    }
    r
}

} // verus!
