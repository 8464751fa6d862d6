use kifmm::morton::MortonKey;

#[test]
fn test_children_parent_roundtrip() {
    let k = MortonKey { x: 1, y: 2, z: 3, level: 4 };
    let cs = k.children();
    assert_eq!(cs.len(), 8);
    for c in cs.iter() {
        assert_eq!(c.level, 5);
        assert_eq!(c.parent(), k);
    }
    // The children tessellate the parent: their anchors are the 8 octants.
    assert_eq!(cs[0], MortonKey { x: 2, y: 4, z: 6, level: 5 });
    assert_eq!(cs[7], MortonKey { x: 3, y: 5, z: 7, level: 5 });
}

#[test]
fn test_siblings_include_self() {
    let k = MortonKey { x: 3, y: 0, z: 1, level: 3 };
    let ss = k.siblings();
    assert_eq!(ss.len(), 8);
    assert!(ss.iter().any(|s| *s == k));
    for s in ss.iter() {
        assert_eq!(s.parent(), k.parent());
    }
}

#[test]
fn test_code_from_code_roundtrip() {
    for code in 0..512u64 {
        let k = MortonKey::from_code(code, 3);
        assert_eq!(k.level, 3);
        assert_eq!(k.code(), code);
    }
    // Codes order children consecutively below the parent's code.
    let k = MortonKey { x: 2, y: 1, z: 0, level: 2 };
    let base = k.code();
    let cs = k.children();
    for (i, c) in cs.iter().enumerate() {
        assert_eq!(c.code(), 8 * base + i as u64);
    }
}

#[test]
fn test_neighbors_interior_and_corner() {
    // An interior cell has all 26 same-level neighbors.
    let k = MortonKey { x: 1, y: 1, z: 1, level: 2 };
    assert_eq!(k.neighbors().len(), 26);
    // A corner cell of the domain only keeps the 7 that exist.
    let c = MortonKey { x: 0, y: 0, z: 0, level: 2 };
    assert_eq!(c.neighbors().len(), 7);
    // The root has no neighbors at all.
    let root = MortonKey::root();
    assert_eq!(root.neighbors().len(), 0);
}

#[test]
fn test_is_adjacent() {
    let a = MortonKey { x: 1, y: 1, z: 1, level: 3 };
    let b = MortonKey { x: 2, y: 2, z: 2, level: 3 };
    let c = MortonKey { x: 3, y: 1, z: 1, level: 3 };
    assert!(a.is_adjacent(&b));
    assert!(!a.is_adjacent(&c));
    // A cell is not adjacent to itself.
    assert!(!a.is_adjacent(&a));
}

#[test]
fn test_transfer_vector_identity() {
    // Pairs related by the same displacement share the hash; others differ.
    let s1 = MortonKey { x: 4, y: 1, z: 0, level: 3 };
    let t1 = MortonKey { x: 1, y: 1, z: 1, level: 3 };
    let s2 = MortonKey { x: 5, y: 2, z: 1, level: 3 };
    let t2 = MortonKey { x: 2, y: 2, z: 2, level: 3 };
    assert_eq!(s1.find_transfer_vector(&t1), s2.find_transfer_vector(&t2));
    let s3 = MortonKey { x: 1, y: 4, z: 0, level: 3 };
    assert_ne!(s1.find_transfer_vector(&t1), s3.find_transfer_vector(&t1));
}

#[test]
fn test_from_anchor() {
    // The key holding the domain's midpoint cell at level 3.
    let k = MortonKey::from_anchor(32768, 32768, 32768, 3);
    assert_eq!(k, MortonKey { x: 4, y: 4, z: 4, level: 3 });
    let deep = MortonKey::from_anchor(65535, 0, 1, 16);
    assert_eq!(deep, MortonKey { x: 65535, y: 0, z: 1, level: 16 });
}

#[test]
fn test_surface_grid_count() {
    // The discretised box surface holds ncoeffs(order) = 6 (order-1)^2 + 2
    // lattice cells: the boundary of the order^3 grid.
    for order in 2..=6usize {
        let grid = kifmm::surface::surface_grid_multi_indices(order);
        assert_eq!(grid.len(), 6 * (order - 1) * (order - 1) + 2);
        for &(i, j, k) in grid.iter() {
            assert!(
                i == 0 || i == order - 1 || j == 0 || j == order - 1 || k == 0 || k == order - 1
            );
        }
    }
    // A single-point order degenerates to the one cell there is.
    assert_eq!(kifmm::surface::surface_grid_multi_indices(1).len(), 1);
}
