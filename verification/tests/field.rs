use num::Complex;

use kifmm::fft::{FftFieldTranslationKiFmm, compute_halo_interactions, rearrange_kernel_data};
use kifmm::svd::SvdFieldTranslationKiFmm;
use kifmm::transfer_vector::compute_transfer_vectors;
use kifmm::ConfigError;

#[test]
pub fn test_svd_operator_data() {
    let order = 5;
    let k = 60;
    let ntransfer_vectors = 316;
    let svd = SvdFieldTranslationKiFmm::new(Some(k), order).unwrap();
    assert_eq!(svd.transfer_vectors.len(), ntransfer_vectors);

    // Test that the rank cutoff has been taken correctly (k < ncoeffs)
    assert_eq!(svd.st_block_shape(), (k, svd.ncoeffs(order)));
    assert_eq!(svd.c_shape(), (k, k * ntransfer_vectors));
    assert_eq!(svd.u_shape(), (svd.ncoeffs(order), k));

    // Test that the rank cutoff has been taken correctly (k > ncoeffs)
    let k = 100;
    let svd = SvdFieldTranslationKiFmm::new(Some(k), order).unwrap();
    assert_eq!(svd.st_block_shape(), (svd.ncoeffs(order), svd.ncoeffs(order)));
    assert_eq!(
        svd.c_shape(),
        (svd.ncoeffs(order), svd.ncoeffs(order) * ntransfer_vectors)
    );
    assert_eq!(svd.u_shape(), (svd.ncoeffs(order), svd.ncoeffs(order)));

    // Test that the rank cutoff has been taken correctly (k unspecified)
    let k = None;
    let default_k = 50;
    let svd = SvdFieldTranslationKiFmm::new(k, order).unwrap();
    assert_eq!(svd.st_block_shape(), (default_k, svd.ncoeffs(order)));
    assert_eq!(svd.c_shape(), (default_k, default_k * ntransfer_vectors));
    assert_eq!(svd.u_shape(), (svd.ncoeffs(order), default_k));
}

#[test]
fn test_svd_rank_zero_is_rejected() {
    assert!(matches!(
        SvdFieldTranslationKiFmm::new(Some(0), 5),
        Err(ConfigError::InvalidRank)
    ));
}

#[test]
pub fn test_fft_operator_data() {
    // The halo pattern behind the precomputed kernels: exactly 26 halo
    // positions, each with exactly 8x8 sibling/halo-child interactions.
    let halo = compute_halo_interactions();
    assert_eq!(halo.len(), 26);
    for i in 0..26 {
        assert_eq!(halo[i].len(), 64);
    }
    // Every halo position holds at least one well-separated pair, and every
    // position also keeps explicit zero blocks for the adjacent ones.
    for row in halo.iter() {
        assert!(row.iter().any(|e| e.in_v_list));
    }
    // Each of the 8 siblings sees the full interior V-list of 189 boxes
    // spread across the halo: 26 * 8 candidates minus the 19 adjacent
    // non-sibling cells.
    for sibling in 0..8 {
        let in_v: usize = halo
            .iter()
            .map(|row| row.iter().filter(|e| e.sibling == sibling && e.in_v_list).count())
            .sum();
        assert_eq!(in_v, 189);
    }
}

#[test]
fn test_kernel_rearrangement() {
    // Dummy data mirroring unrearranged kernels
    // here each '1000' corresponds to a sibling index
    // each '100' to a child in a given halo element
    // and each '1' to a frequency
    let mut kernel_data_mat = vec![Vec::new(); 26];
    let size_real = 10;

    for elem in kernel_data_mat.iter_mut().take(26) {
        // sibling index
        for j in 0..8 {
            // halo child index
            for k in 0..8 {
                // frequency
                for l in 0..size_real {
                    elem.push(Complex::new((1000 * j + 100 * k + l) as f64, 0.))
                }
            }
        }
    }

    // We want to use this data by frequency in the implementation of FFT M2L
    // Rearrangement: Grouping by frequency, then halo child, then sibling
    let rearranged = rearrange_kernel_data(&kernel_data_mat, size_real);

    // We expect the first 64 elements to correspond to the first frequency components of all
    // siblings with all elements in a given halo position
    let freq = 4;
    let offset = freq * 64;
    let result = &rearranged[0][offset..offset + 64];

    // For each halo child
    for i in 0..8 {
        // for each sibling
        for j in 0..8 {
            let expected = (i * 100 + j * 1000 + freq) as f64;
            assert!(expected == result[i * 8 + j].re)
        }
    }
}

#[test]
fn test_transfer_vectors_unique() {
    let tvs = compute_transfer_vectors();
    assert_eq!(tvs.len(), 316);
    for i in 0..tvs.len() {
        for j in (i + 1)..tvs.len() {
            assert_ne!(tvs[i].hash, tvs[j].hash);
        }
    }
    // Components always span at least two boxes in some direction:
    // adjacent pairs never make it into the list.
    for tv in tvs.iter() {
        assert!(tv.cx.abs() >= 2 || tv.cy.abs() >= 2 || tv.cz.abs() >= 2);
        assert!(tv.cx.abs() <= 3 && tv.cy.abs() <= 3 && tv.cz.abs() <= 3);
    }
}

#[test]
fn test_surf_to_conv_map() {
    let order = 2;
    let (surf_to_conv, conv_to_surf) = FftFieldTranslationKiFmm::compute_surf_to_conv_map(order);
    // The convolution grid has (2 * order - 1)^3 cells; the embedded surface
    // holds ncoeffs(order) of them.
    assert_eq!(conv_to_surf.len(), 27);
    assert_eq!(surf_to_conv.len(), 8);
    for (s, &ci) in surf_to_conv.iter().enumerate() {
        assert_eq!(conv_to_surf[ci], Some(s));
    }
    let embedded = conv_to_surf.iter().filter(|e| e.is_some()).count();
    assert_eq!(embedded, 8);
}

#[test]
fn test_compute_signal_places_charges() {
    let order = 2;
    let fft = FftFieldTranslationKiFmm::new(order);
    let ncoeffs = fft.surf_to_conv_map.len();
    let charges: Vec<f64> = (0..ncoeffs).map(|i| (i + 1) as f64).collect();
    let signal = fft.compute_signal(order, &charges, 0.0f64);
    assert_eq!(signal.len(), 27);
    for (s, &ci) in fft.surf_to_conv_map.iter().enumerate() {
        assert_eq!(signal[ci], charges[s]);
    }
    let placed: f64 = signal.iter().sum();
    let expected: f64 = charges.iter().sum();
    assert_eq!(placed, expected);
}

#[test]
fn test_fft_layout_order_six() {
    // The layout used by the reference accuracy configuration.
    let fft = FftFieldTranslationKiFmm::new(6);
    let n = 2 * 6 - 1;
    assert_eq!(fft.conv_to_surf_map.len(), n * n * n);
    assert_eq!(fft.surf_to_conv_map.len(), fft.ncoeffs(6));
    assert_eq!(fft.ncoeffs(6), 152);
    assert_eq!(fft.transfer_vectors.len(), 316);
}
