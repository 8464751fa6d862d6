//! Structure of the SVD-compressed M2L translation: the compression rank
//! and the shapes of the three stored factors.  The dense assembly and the
//! singular value decomposition itself are floating point and live with the
//! caller; the rank law and the factor layout are pinned down here.
use vstd::prelude::*;

use crate::ConfigError;
use crate::{ncoeffs, spec_ncoeffs};
use crate::transfer_vector::{TransferVector, compute_transfer_vectors};

verus! {

/// Rank that an unspecified compression request falls back to.
pub const DEFAULT_RANK: usize = 50;

/// The rank the compression actually uses for a request `k` at a given
/// order: a requested rank never exceeds the coefficient count, and an
/// unspecified one defaults to `DEFAULT_RANK`.
pub open spec fn spec_chosen_rank(k: Option<usize>, order: int) -> int {
    match k {
        Some(k0) => if k0 <= spec_ncoeffs(order) {
            k0 as int
        } else {
            spec_ncoeffs(order)
        },
        None => DEFAULT_RANK as int,
    }
}

/// The structural data of the SVD field translation: expansion order,
/// compression rank, and the unique transfer vectors.  The three factor
/// matrices (`u`, `st_block`, `c`) are computed by the caller in the shapes
/// this type prescribes.
pub struct SvdFieldTranslationKiFmm {
    /// Compression rank kept after truncation.
    pub k: usize,
    /// Expansion order of the surfaces.
    pub order: usize,
    /// The unique transfer vectors of the reference level.
    pub transfer_vectors: Vec<TransferVector>,
}

impl SvdFieldTranslationKiFmm {
    /// Number of surface coefficients for an expansion order.
    pub fn ncoeffs(&self, order: usize) -> (n: usize)
        requires
            1 <= order,
            spec_ncoeffs(order as int) <= usize::MAX,
        ensures
            n == spec_ncoeffs(order as int),
    {
        ncoeffs(order)
    }

    /// Builds the structural data.  A requested rank of zero is a
    /// configuration error; a rank above the coefficient count is silently
    /// clamped to it; no request defaults to `DEFAULT_RANK`.
    pub fn new(k: Option<usize>, order: usize) -> (r: Result<
        SvdFieldTranslationKiFmm,
        ConfigError,
    >)
        requires
            1 <= order,
            spec_ncoeffs(order as int) <= usize::MAX,
        ensures
            r is Err <==> k == Some(0usize),
            r is Err ==> r == Err::<SvdFieldTranslationKiFmm, ConfigError>(
                ConfigError::InvalidRank),
            r is Ok ==> ({
                let t = r->Ok_0;
                &&& t.order == order
                &&& t.k == spec_chosen_rank(k, order as int)
                &&& t.k >= 1
                &&& forall|i: int, j: int|
                    0 <= i < j < t.transfer_vectors@.len() ==> (
                    #[trigger] t.transfer_vectors@[i]).hash
                        != (#[trigger] t.transfer_vectors@[j]).hash
                &&& forall|i: int|
                    0 <= i < t.transfer_vectors@.len() ==> (
                    #[trigger] t.transfer_vectors@[i]).wf()
                &&& forall|s: crate::morton::MortonKey, t2: crate::morton::MortonKey|
                    crate::transfer_vector::in_v_list(s, t2) && t2.level
                        == crate::transfer_vector::TRANSFER_VECTOR_LEVEL
                        ==> #[trigger] crate::transfer_vector::hash_present(
                        t.transfer_vectors@,
                        s.spec_transfer_hash(t2),
                    )
            }),
    {
        let nc = ncoeffs(order);
        let chosen: usize = match k {
            Some(k0) => {
                if k0 == 0 {
                    return Err(ConfigError::InvalidRank);
                }
                if k0 <= nc {
                    k0
                } else {
                    nc
                }
            },
            None => DEFAULT_RANK,
        };
        let transfer_vectors = compute_transfer_vectors();
        Ok(SvdFieldTranslationKiFmm { k: chosen, order, transfer_vectors })
    }

    /// Shape (rows, columns) of the stored left singular factor `u`, which
    /// expands compressed check potentials back to the full surface.
    pub fn u_shape(&self) -> (r: (usize, usize))
        requires
            1 <= self.order,
            spec_ncoeffs(self.order as int) <= usize::MAX,
        ensures
            r.0 == spec_ncoeffs(self.order as int),
            r.1 == self.k,
    {
        (ncoeffs(self.order), self.k)
    }

    /// Shape of the stored right factor `st_block`, which projects a
    /// multipole expansion into the compressed space.
    pub fn st_block_shape(&self) -> (r: (usize, usize))
        requires
            1 <= self.order,
            spec_ncoeffs(self.order as int) <= usize::MAX,
        ensures
            r.0 == self.k,
            r.1 == spec_ncoeffs(self.order as int),
    {
        (self.k, ncoeffs(self.order))
    }

    /// Shape of the compressed middle factor `c`: one `k` by `k` block per
    /// transfer vector, concatenated along the columns.
    pub fn c_shape(&self) -> (r: (usize, usize))
        requires
            self.k * self.transfer_vectors@.len() <= usize::MAX,
        ensures
            r.0 == self.k,
            r.1 == self.k * self.transfer_vectors@.len(),
    {
        (self.k, self.k * self.transfer_vectors.len())
    }
}

} // verus!
