//! Tree construction behaviour: uniform and adaptive builds, the structural
//! invariants, and the build's error contract.

use kifmm::morton::{Anchor, DEEPEST_LEVEL, LEVEL_SIZE};
use kifmm::tree::SingleNodeTree;
use kifmm::FmmError;

/// Deterministic pseudo-random anchors on the deepest grid.
fn anchors_fixture(n: usize, seed: u64) -> Vec<Anchor> {
    let mut state = seed;
    let mut out = Vec::new();
    for _ in 0..n {
        let mut next = || {
            state = state.wrapping_mul(6364136223846793005).wrapping_add(1442695040888963407);
            (state >> 16) % LEVEL_SIZE
        };
        let x = next();
        let y = next();
        let z = next();
        out.push(Anchor { x, y, z });
    }
    out
}

fn check_tree_invariants(t: &SingleNodeTree) {
    let leaves = t.get_keys();
    let points = t.get_points();
    // leaves ascend along the curve and never overlap
    for w in leaves.windows(2) {
        assert!(w[0].less_than(&w[1]));
        assert!(!w[0].contains_key(&w[1]));
        assert!(!w[1].contains_key(&w[0]));
    }
    // every point sits in its assigned leaf, and ranges line up
    let mut next_start = 0;
    for (i, leaf) in leaves.iter().enumerate() {
        let (l, r) = t.map_key_to_points(i);
        assert_eq!(l, next_start);
        next_start = r;
        for k in l..r {
            assert_eq!(points[k].encoded_key, *leaf);
            assert!(leaf.contains_key(&points[k].base_key));
        }
    }
    assert_eq!(next_start, points.len());
}

#[test]
fn test_uniform() {
    let anchors = anchors_fixture(1000, 42);
    let t = SingleNodeTree::uniform_tree(&anchors, 3, false);
    assert!(!t.get_adaptive());
    assert_eq!(t.get_depth(), 3);
    assert_eq!(t.get_keys().len(), 512);
    assert_eq!(t.get_points().len(), 1000);
    for leaf in t.get_keys().iter() {
        assert_eq!(leaf.level, 3);
    }
    check_tree_invariants(&t);
}

#[test]
fn test_uniform_sparse() {
    let anchors = anchors_fixture(200, 7);
    let t = SingleNodeTree::uniform_tree(&anchors, 4, true);
    assert!(t.get_keys().len() <= 200);
    assert!(t.get_keys().len() > 0);
    // every leaf holds at least one point
    for i in 0..t.get_keys().len() {
        let (l, r) = t.map_key_to_points(i);
        assert!(l < r);
    }
    check_tree_invariants(&t);
}

#[test]
fn test_adaptive() {
    let anchors = anchors_fixture(2000, 100);
    let t = SingleNodeTree::adaptive_tree(&anchors, 100);
    assert!(t.get_adaptive());
    check_tree_invariants(&t);
    let leaves = t.get_keys();
    // the point budget holds on every splittable leaf
    for i in 0..leaves.len() {
        let (l, r) = t.map_key_to_points(i);
        assert!(r - l <= 100 || leaves[i].level == DEEPEST_LEVEL);
    }
    // 2:1 balance: adjacent leaves differ by at most one level
    for a in leaves.iter() {
        for b in leaves.iter() {
            if a.is_adjacent(b) {
                let d = if a.level > b.level {
                    a.level - b.level
                } else {
                    b.level - a.level
                };
                assert!(d <= 1);
            }
        }
    }
}

#[test]
fn test_build_idempotent_sparse() {
    // rebuilding from the cells of a build's own points reproduces the leaves
    let anchors = anchors_fixture(300, 3);
    let t1 = SingleNodeTree::uniform_tree(&anchors, 5, true);
    let again: Vec<Anchor> = t1.get_points().iter().map(|p| p.base_key.anchor).collect();
    let t2 = SingleNodeTree::uniform_tree(&again, 5, true);
    assert_eq!(t1.get_keys().len(), t2.get_keys().len());
    for (a, b) in t1.get_keys().iter().zip(t2.get_keys().iter()) {
        assert_eq!(a, b);
    }
}

#[test]
fn test_build_idempotent_adaptive() {
    let anchors = anchors_fixture(1500, 9);
    let t1 = SingleNodeTree::adaptive_tree(&anchors, 60);
    let again: Vec<Anchor> = t1.get_points().iter().map(|p| p.base_key.anchor).collect();
    let t2 = SingleNodeTree::adaptive_tree(&again, 60);
    assert_eq!(t1.get_keys().len(), t2.get_keys().len());
    for (a, b) in t1.get_keys().iter().zip(t2.get_keys().iter()) {
        assert_eq!(a, b);
    }
}

#[test]
fn test_new_error_contract() {
    let empty: Vec<Anchor> = Vec::new();
    assert_eq!(
        SingleNodeTree::new(&empty, false, None, None, false).err(),
        Some(FmmError::NoPoints)
    );
    let anchors = anchors_fixture(10, 1);
    assert_eq!(
        SingleNodeTree::new(&anchors, true, Some(0), None, false).err(),
        Some(FmmError::InvalidConfig)
    );
    assert_eq!(
        SingleNodeTree::new(&anchors, false, None, Some(17), false).err(),
        Some(FmmError::InvalidConfig)
    );
    let bad = vec![Anchor { x: LEVEL_SIZE, y: 0, z: 0 }];
    assert_eq!(
        SingleNodeTree::new(&bad, false, None, Some(3), false).err(),
        Some(FmmError::InvalidConfig)
    );
    let ok = SingleNodeTree::new(&anchors, false, None, Some(2), true);
    assert!(ok.is_ok());
}

#[test]
fn test_keys_at_level() {
    let anchors = anchors_fixture(500, 11);
    let t = SingleNodeTree::uniform_tree(&anchors, 3, false);
    assert_eq!(t.keys_at_level(0).len(), 1);
    assert_eq!(t.keys_at_level(1).len(), 8);
    assert_eq!(t.keys_at_level(2).len(), 64);
    assert_eq!(t.keys_at_level(3).len(), 512);
    let t2 = SingleNodeTree::uniform_tree(&anchors, 3, true);
    assert!(t2.keys_at_level(3).len() <= 500);
    assert_eq!(t2.keys_at_level(0).len(), 1);
}

/// A point on a box face belongs to the box whose anchor it matches after
/// flooring: the cell at exactly the face coordinate.
#[test]
fn test_point_on_face_assignment() {
    // the cell anchored exactly on the midplane belongs to the upper half
    let anchors = vec![Anchor { x: 32768, y: 0, z: 0 }, Anchor { x: 32767, y: 0, z: 0 }];
    let t = SingleNodeTree::uniform_tree(&anchors, 1, false);
    let points = t.get_points();
    let lower = points.iter().find(|p| p.base_key.anchor.x == 32767).unwrap();
    let upper = points.iter().find(|p| p.base_key.anchor.x == 32768).unwrap();
    assert_eq!(lower.encoded_key.anchor.x, 0);
    assert_eq!(upper.encoded_key.anchor.x, 32768);
}
