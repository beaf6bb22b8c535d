//! Morton codec behaviour on concrete keys.

use kifmm::morton::{
    extent_length, key_from_index, root, side_length, Anchor, MortonKey, DEEPEST_LEVEL, LEVEL_SIZE,
};

fn key(x: u64, y: u64, z: u64, level: u64) -> MortonKey {
    MortonKey { anchor: Anchor { x, y, z }, level }
}

#[test]
fn test_root_is_whole_domain() {
    let r = root();
    assert_eq!(r.level, 0);
    assert_eq!(r.start_index(), 0);
    assert_eq!(r.morton(), 0);
    assert_eq!(side_length(0), 65536);
    assert_eq!(side_length(DEEPEST_LEVEL), 1);
}

#[test]
fn test_interleave_small_cases() {
    // at the deepest level the curve index interleaves bits x:y:z from the top
    assert_eq!(key(0, 0, 0, 16).start_index(), 0);
    assert_eq!(key(0, 0, 1, 16).start_index(), 1);
    assert_eq!(key(0, 1, 0, 16).start_index(), 2);
    assert_eq!(key(1, 0, 0, 16).start_index(), 4);
    assert_eq!(key(1, 1, 1, 16).start_index(), 7);
    assert_eq!(key(2, 0, 0, 16).start_index(), 32);
}

#[test]
fn test_parent_of_children() {
    let k = key(16384, 32768, 49152, 2);
    let ch = k.children();
    assert_eq!(ch.len(), 8);
    for (o, c) in ch.iter().enumerate() {
        assert_eq!(c.level, 3);
        assert_eq!(c.parent(), k);
        assert_eq!(c.sibling_position() as usize, o);
        assert!(k.contains_key(c));
    }
    // the children tile the parent's range in octant order
    let child_ext = extent_length(3);
    for (o, c) in ch.iter().enumerate() {
        assert_eq!(c.start_index(), k.start_index() + o as u64 * child_ext);
    }
}

#[test]
fn test_siblings_include_self() {
    let k = key(8192, 8192, 0, 3);
    let sibs = k.siblings();
    assert_eq!(sibs.len(), 8);
    assert!(sibs.iter().any(|s| *s == k));
    for s in sibs.iter() {
        assert_eq!(s.parent(), k.parent());
    }
}

#[test]
fn test_neighbors_interior_and_corner() {
    // a box away from every boundary touches 26 others
    let interior = key(16384, 16384, 16384, 2);
    let ns = interior.neighbors();
    assert_eq!(ns.len(), 26);
    for n in ns.iter() {
        assert!(interior.is_adjacent(n));
        assert!(n.is_adjacent(&interior));
        assert_eq!(n.level, 2);
    }
    // the corner box of the grid only has 7
    let corner = key(0, 0, 0, 2);
    assert_eq!(corner.neighbors().len(), 7);
}

#[test]
fn test_adjacency_and_containment() {
    let a = key(0, 0, 0, 1);
    let b = key(32768, 0, 0, 1);
    let diag = key(16384, 0, 32768, 2);
    assert!(a.is_adjacent(&b));
    assert!(!a.is_adjacent(&a));
    // a contains its own descendants, and is not adjacent to them
    let d = key(16384, 0, 0, 2);
    assert!(a.contains_key(&d));
    assert!(!a.is_adjacent(&d));
    // a box sharing only an edge still counts as adjacent
    assert!(diag.is_adjacent(&b));
}

#[test]
fn test_morton_order_ancestors_first() {
    let k = key(8192, 8192, 8192, 3);
    let p = k.parent();
    assert!(p.less_than(&k) || p.morton() == k.morton());
    assert!(p.morton() < k.morton());
    // a key with a smaller curve index sorts first
    let earlier = key(0, 0, 0, 3);
    assert!(earlier.less_than(&k));
    assert!(!k.less_than(&earlier));
}

#[test]
fn test_key_from_index_round_trip() {
    let ext = {
        let mut e: u64 = 1;
        for _ in 0..13 {
            e *= 8;
        }
        e
    };
    for i in [0u64, 1, 7, 8, 63, 200, 511] {
        let k = key_from_index(i * ext, 3);
        assert_eq!(k.level, 3);
        assert_eq!(k.start_index(), i * ext);
        assert!(k.anchor.x < LEVEL_SIZE && k.anchor.y < LEVEL_SIZE && k.anchor.z < LEVEL_SIZE);
    }
}

#[test]
fn test_ancestors_chain() {
    let k = key(8192, 4096, 12288, 4);
    let anc = k.ancestors();
    assert_eq!(anc.len(), 5);
    assert_eq!(anc[0], k);
    assert_eq!(anc[4], root());
    for (i, a) in anc.iter().enumerate() {
        assert_eq!(a.level as usize, 4 - i);
        assert!(a.contains_key(&k));
    }
    for w in anc.windows(2) {
        assert_eq!(w[0].parent(), w[1]);
    }
}

#[test]
fn test_finest_ancestor() {
    // two cells in the same octant of the root meet at level 1
    let a = key(0, 0, 0, 16);
    let b = key(16384, 16384, 16384, 16);
    let fa = a.finest_ancestor(&b);
    assert_eq!(fa.level, 1);
    assert!(fa.contains_key(&a) && fa.contains_key(&b));
    // cells across the midplane only meet at the root
    let c = key(32768, 0, 0, 16);
    assert_eq!(a.finest_ancestor(&c), root());
    // the finest ancestor of a box and its descendant is the box
    let p = key(16384, 16384, 0, 2);
    let d = key(16384 + 8192, 16384, 8192, 3);
    assert_eq!(p.finest_ancestor(&d), p);
}

#[test]
fn test_ancestor_key() {
    let k = key(8192 + 4096, 8192, 4096, 4);
    let a2 = k.ancestor_key(2);
    assert_eq!(a2.level, 2);
    assert!(a2.contains_key(&k));
    assert_eq!(k.ancestor_key(4), k);
    assert_eq!(a2, k.parent().parent());
}
