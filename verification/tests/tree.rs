use kifmm::ConfigError;
use kifmm::tree::{Octree, PointAnchor};

fn anchor(x: u64, y: u64, z: u64) -> PointAnchor {
    PointAnchor { x, y, z }
}

fn spread_points() -> Vec<PointAnchor> {
    // A handful of points spread over distinct octants of the domain.
    vec![
        anchor(1000, 2000, 3000),
        anchor(60000, 100, 200),
        anchor(100, 60000, 300),
        anchor(50000, 50000, 50000),
        anchor(32768, 32768, 32768),
        anchor(2, 3, 5),
    ]
}

#[test]
fn test_uniform_tree_partitions_points() {
    let points = spread_points();
    let tree = Octree::uniform(&points, 2).unwrap();
    assert_eq!(tree.depth, 2);
    assert!(!tree.adaptive);
    // Every leaf of the depth exists, empty or not.
    assert_eq!(tree.leaves.len(), 64);
    assert_eq!(tree.leaf_ranges.len(), 64);
    // The ranges partition the sorted points exactly.
    assert_eq!(tree.leaf_ranges[0].0, 0);
    assert_eq!(tree.leaf_ranges[63].1, points.len());
    for i in 0..63 {
        assert!(tree.leaf_ranges[i].0 <= tree.leaf_ranges[i].1);
        assert_eq!(tree.leaf_ranges[i].1, tree.leaf_ranges[i + 1].0);
    }
    // The permutation is onto the original indices.
    let mut hit = vec![false; points.len()];
    for &g in tree.global_indices.iter() {
        assert!(!hit[g]);
        hit[g] = true;
    }
    assert!(hit.iter().all(|h| *h));
    // Per-level key lists are complete for a uniform tree.
    assert_eq!(tree.level_keys.len(), 3);
    assert_eq!(tree.level_keys[0].len(), 1);
    assert_eq!(tree.level_keys[1].len(), 8);
    assert_eq!(tree.level_keys[2].len(), 64);
}

#[test]
fn test_uniform_tree_errors() {
    let empty: Vec<PointAnchor> = Vec::new();
    assert!(matches!(Octree::uniform(&empty, 2), Err(ConfigError::EmptyPointSet)));
    let points = spread_points();
    assert!(matches!(Octree::uniform(&points, 17), Err(ConfigError::InvalidDepth)));
}

#[test]
fn test_adaptive_tree_refines_to_threshold() {
    let points = spread_points();
    let tree = Octree::adaptive(&points, 2).unwrap();
    assert!(tree.adaptive);
    // Adaptive leaves are nonempty and hold at most the threshold, except
    // at the deepest level.
    let mut covered = 0;
    for (i, leaf) in tree.leaves.iter().enumerate() {
        let (lo, hi) = tree.leaf_ranges[i];
        assert!(lo < hi);
        assert!(hi - lo <= 2 || leaf.level == 16);
        covered += hi - lo;
    }
    assert_eq!(covered, points.len());
}

#[test]
fn test_adaptive_tree_duplicate_points() {
    // Points in one deepest-level cell can never be split apart: the leaf
    // sits at the deepest level and keeps them all.
    let points = vec![anchor(7, 7, 7); 5];
    let tree = Octree::adaptive(&points, 2).unwrap();
    assert_eq!(tree.leaves.len(), 1);
    assert_eq!(tree.leaves[0].level, 16);
    assert_eq!(tree.leaf_ranges[0], (0, 5));
}

#[test]
fn test_adaptive_tree_errors() {
    let empty: Vec<PointAnchor> = Vec::new();
    assert!(matches!(Octree::adaptive(&empty, 10), Err(ConfigError::EmptyPointSet)));
    let points = spread_points();
    assert!(matches!(Octree::adaptive(&points, 0), Err(ConfigError::InvalidThreshold)));
}

#[test]
fn test_level_index_of() {
    let points = spread_points();
    let tree = Octree::uniform(&points, 2).unwrap();
    // Every key of a level is found at its own position.
    for (i, k) in tree.level_keys[2].iter().enumerate() {
        assert_eq!(tree.level_index_of(k), Some(i));
    }
    // In a uniform tree, index equals Morton code.
    let k = tree.level_keys[2][17];
    assert_eq!(k.code(), 17);
}

#[test]
fn test_sorted_codes_are_sorted() {
    let points = spread_points();
    let tree = Octree::uniform(&points, 3).unwrap();
    for s in 1..tree.sorted_codes.len() {
        assert!(tree.sorted_codes[s - 1] <= tree.sorted_codes[s]);
    }
}
