use kifmm::fmm::{
    FmmPass, check_charge_keys, find_chunk_size, fmm_schedule, m2l_scale_power, m2m_index_plan,
    permute, scatter,
};
use kifmm::tree::{Octree, PointAnchor};

#[test]
fn test_find_chunk_size() {
    // Largest divisor of the workload not exceeding the cap.
    assert_eq!(find_chunk_size(10, 4), 2);
    assert_eq!(find_chunk_size(12, 5), 4);
    assert_eq!(find_chunk_size(7, 3), 1);
    assert_eq!(find_chunk_size(8, 8), 8);
    assert_eq!(find_chunk_size(0, 5), 5);
}

#[test]
fn test_fmm_schedule_depth_three() {
    let plan = fmm_schedule(3);
    assert_eq!(
        plan,
        vec![
            FmmPass::P2m,
            FmmPass::M2m(3),
            FmmPass::M2m(2),
            FmmPass::M2m(1),
            FmmPass::M2l(2),
            FmmPass::M2l(3),
            FmmPass::L2l(2),
            FmmPass::NearField,
        ]
    );
}

#[test]
fn test_m2l_scale_power() {
    // Level 2 scales by one half; the factor doubles with each level.
    assert_eq!(m2l_scale_power(2), -1);
    assert_eq!(m2l_scale_power(3), 0);
    assert_eq!(m2l_scale_power(5), 2);
}

#[test]
fn test_m2m_index_plan_uniform() {
    let points = vec![
        PointAnchor { x: 5, y: 6, z: 7 },
        PointAnchor { x: 60000, y: 60000, z: 60000 },
        PointAnchor { x: 30000, y: 100, z: 40000 },
    ];
    let tree = Octree::uniform(&points, 2).unwrap();
    let plan = m2m_index_plan(&tree, 2);
    // A complete level groups its 64 boxes under the 8 parents, in order.
    assert_eq!(plan.len(), 8);
    for (g, group) in plan.iter().enumerate() {
        assert_eq!(group.parent_index, g);
        assert_eq!(group.child_lo, 8 * g);
        assert_eq!(group.child_hi, 8 * g + 8);
    }
}

#[test]
fn test_m2m_index_plan_adaptive() {
    let points = vec![
        PointAnchor { x: 5, y: 6, z: 7 },
        PointAnchor { x: 9, y: 6, z: 7 },
        PointAnchor { x: 60000, y: 60000, z: 60000 },
        PointAnchor { x: 60010, y: 60000, z: 60000 },
        PointAnchor { x: 30000, y: 100, z: 40000 },
    ];
    let tree = Octree::adaptive(&points, 1).unwrap();
    // Each level's plan covers its boxes with strictly increasing parents.
    for level in 1..=tree.depth {
        let plan = m2m_index_plan(&tree, level);
        let nboxes = tree.level_keys[level as usize].len();
        if nboxes == 0 {
            assert!(plan.is_empty());
            continue;
        }
        assert_eq!(plan[0].child_lo, 0);
        assert_eq!(plan[plan.len() - 1].child_hi, nboxes);
        for g in 1..plan.len() {
            assert_eq!(plan[g - 1].child_hi, plan[g].child_lo);
            assert!(plan[g - 1].parent_index < plan[g].parent_index);
        }
        for group in plan.iter() {
            let parent = tree.level_keys[(level - 1) as usize][group.parent_index];
            for j in group.child_lo..group.child_hi {
                assert_eq!(tree.level_keys[level as usize][j].parent(), parent);
            }
        }
    }
}

#[test]
fn test_check_charge_keys() {
    assert!(check_charge_keys(&vec![2, 0, 1], 3));
    assert!(!check_charge_keys(&vec![0, 0, 1], 3));
    assert!(!check_charge_keys(&vec![0, 1], 3));
    assert!(!check_charge_keys(&vec![3, 1, 2], 3));
    assert!(check_charge_keys(&Vec::new(), 0));
}

#[test]
fn test_permute_and_scatter() {
    let values = vec![10u64, 20, 30];
    let perm = vec![2usize, 0, 1];
    let sorted = permute(&values, &perm);
    assert_eq!(sorted, vec![30, 10, 20]);
    // Scattering the permuted values back restores the original order.
    let back = scatter(&sorted, &perm, 0u64);
    assert_eq!(back, values);
}
