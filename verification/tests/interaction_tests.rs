//! Interaction lists on concrete boxes: cardinalities, disjointness, and
//! the W/X duality.

use kifmm::interaction::{near_field, v_list, w_list, x_list};
use kifmm::m2l::{find_transfer_vector, transfer_vectors};
use kifmm::morton::{side_length, Anchor, MortonKey};

fn key(x: u64, y: u64, z: u64, level: u64) -> MortonKey {
    MortonKey { anchor: Anchor { x, y, z }, level }
}

/// A box at level 3 with every interaction fully inside the domain.
fn interior_box() -> MortonKey {
    let s = side_length(3);
    key(3 * s, 3 * s, 3 * s, 3)
}

#[test]
fn test_v_list_interior_cardinality() {
    // children of the parent's 26 neighbours and the parent itself make 216
    // same-level boxes; 27 touch the box, leaving 189 far-field sources
    let k = interior_box();
    let v = v_list(&k);
    assert_eq!(v.len(), 189);
    for s in v.iter() {
        assert_eq!(s.level, k.level);
        assert!(!k.is_adjacent(s));
        assert!(*s != k);
    }
}

#[test]
fn test_near_field_interior() {
    let k = interior_box();
    let u = near_field(&k);
    assert!(u.iter().any(|b| *b == k));
    for b in u.iter() {
        assert!(*b == k || k.is_adjacent(b));
    }
    // no duplicates
    for (i, a) in u.iter().enumerate() {
        for b in u.iter().skip(i + 1) {
            assert!(a != b);
        }
    }
}

#[test]
fn test_lists_disjoint() {
    let k = interior_box();
    let u = near_field(&k);
    let v = v_list(&k);
    let w = w_list(&k);
    let x = x_list(&k);
    for a in v.iter() {
        assert!(!u.contains(a));
        assert!(!w.contains(a));
        assert!(!x.contains(a));
    }
    for a in w.iter() {
        assert!(!u.contains(a));
        assert!(!x.contains(a));
    }
    for a in x.iter() {
        assert!(!u.contains(a));
    }
}

#[test]
fn test_w_x_duality() {
    let k = interior_box();
    for x in x_list(&k).iter() {
        let w_of_x = w_list(x);
        assert!(w_of_x.contains(&k));
    }
    for w in w_list(&k).iter() {
        let x_of_w = x_list(w);
        assert!(x_of_w.contains(&k));
    }
}

#[test]
fn test_transfer_vectors_library() {
    let tv = transfer_vectors();
    assert_eq!(tv.len(), 316);
    for w in tv.windows(2) {
        assert!(w[0] < w[1]);
    }
    // every V-list pair keys into the library
    let k = interior_box();
    for s in v_list(&k).iter() {
        let h = find_transfer_vector(s, &k);
        assert!(tv.contains(&h));
    }
}

#[test]
fn test_find_transfer_vector_values() {
    let s = side_length(2);
    let a = key(2 * s, 2 * s, 2 * s, 2);
    // zero offset hashes to the centre of the 7x7x7 cube
    assert_eq!(find_transfer_vector(&a, &a), 3 * 49 + 3 * 7 + 3);
    let b = key(4 * s, 2 * s, s, 2);
    // offset (2, 0, -1)
    assert_eq!(find_transfer_vector(&a, &b), 5 * 49 + 3 * 7 + 2);
}
