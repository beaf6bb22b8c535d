//! The four interaction lists of the kernel-independent FMM.
//!
//! For a box `k` the far field handled by multipole-to-local translation is
//! the V list: children of `k`'s parent's neighbours that are not adjacent
//! to `k`. For a leaf, the near field handled by direct summation is the U
//! list: the leaf itself and every adjacent box one level up or down or at
//! the same level. Adaptive trees also use the W list (boxes one level finer
//! whose parent touches the leaf but which do not themselves touch it,
//! handled multipole-to-point) and the X list (its mirror one level coarser,
//! handled point-to-local).

use vstd::prelude::*;
use crate::morton::{
    lemma_child, lemma_seq_push_keeps, lemma_self_is_child, MortonKey, DEEPEST_LEVEL,
};

verus! {

/// Membership in the V list of `k`: a box of the same level, not adjacent
/// to `k`, whose parent is adjacent to `k`'s parent.
pub open spec fn in_v_list(k: MortonKey, v: MortonKey) -> bool {
    &&& v.wf()
    &&& v.level == k.level
    &&& !k.adjacent(v)
    &&& k.parent_of().adjacent(v.parent_of())
}

/// Membership in the W list of `leaf`: a box one level finer, not adjacent
/// to the leaf, whose parent is adjacent to it.
pub open spec fn in_w_list(leaf: MortonKey, w: MortonKey) -> bool {
    &&& w.wf()
    &&& w.level == leaf.level + 1
    &&& !leaf.adjacent(w)
    &&& leaf.adjacent(w.parent_of())
}

/// Membership in the X list of `leaf`: a box one level coarser, not
/// adjacent to the leaf, but adjacent to the leaf's parent.
pub open spec fn in_x_list(leaf: MortonKey, x: MortonKey) -> bool {
    &&& x.wf()
    &&& x.level == leaf.level - 1
    &&& !leaf.adjacent(x)
    &&& leaf.parent_of().adjacent(x)
}

/// The parent of `v` appears among the first `i` of the given keys.
pub open spec fn parent_among(v: MortonKey, ns: Seq<MortonKey>, i: int) -> bool {
    exists|t: int| 0 <= t < i && ns[t] == v.parent_of()
}

/// The V list of `k`: the children of `k`'s parent's neighbours that are
/// not adjacent to `k`. These are exactly the boxes whose multipoles reach
/// `k` by multipole-to-local translation. The result is sound and complete
/// for `in_v_list`.
#[verifier::loop_isolation(false)]
#[verifier::rlimit(60)]
pub fn v_list(k: &MortonKey) -> (r: Vec<MortonKey>)
    requires
        k.wf(),
        2 <= k.level,
    ensures
        forall|j: int| 0 <= j < r@.len() ==> in_v_list(*k, #[trigger] r@[j]),
        forall|v: MortonKey| in_v_list(*k, v) ==> r@.contains(v),
{
    proof {
        lemma_self_is_child(*k);
    }
    let p = k.parent();
    let ns = p.neighbors();
    let mut r: Vec<MortonKey> = Vec::new();
    let mut i: usize = 0;
    while i < ns.len()
        invariant
            i <= ns@.len(),
            forall|j: int| 0 <= j < r@.len() ==> in_v_list(*k, #[trigger] r@[j]),
            forall|v: MortonKey|
                in_v_list(*k, v) && parent_among(v, ns@, i as int) ==> r@.contains(v),
        decreases ns@.len() - i,
    {
        let n = ns[i];
        let ch = n.children();
        let mut o: usize = 0;
        while o < 8
            invariant
                o <= 8,
                forall|j: int| 0 <= j < r@.len() ==> in_v_list(*k, #[trigger] r@[j]),
                forall|v: MortonKey|
                    in_v_list(*k, v) && parent_among(v, ns@, i as int) ==> r@.contains(v),
                forall|t: int|
                    0 <= t < o && !k.adjacent(#[trigger] ch@[t]) ==> r@.contains(ch@[t]),
            decreases 8 - o,
        {
            let c = ch[o];
            let ghost r0 = r@;
            if !k.is_adjacent(&c) {
                proof {
                    lemma_child(ns@[i as int], o as int);
                }
                r.push(c);
            }
            proof {
                lemma_seq_push_keeps(r0, r@);
                if !k.adjacent(ch@[o as int]) {
                    assert(r@[r@.len() - 1] == ch@[o as int]);
                }
            }
            o = o + 1;
        }
        proof {
            assert forall|v: MortonKey|
                in_v_list(*k, v) && parent_among(v, ns@, i + 1 as int) implies r@.contains(v) by {
                if !parent_among(v, ns@, i as int) {
                    let t = choose|t: int| 0 <= t < i + 1 && ns@[t] == v.parent_of();
                    assert(ns@[i as int] == v.parent_of());
                    lemma_self_is_child(v);
                    assert(ch@[v.octant()] == v);
                }
            }
        }
        i = i + 1;
    }
    proof {
        assert forall|v: MortonKey| in_v_list(*k, v) implies r@.contains(v) by {
            lemma_self_is_child(v);
            assert(ns@.contains(v.parent_of()));
            let t = choose|t: int| 0 <= t < ns@.len() && ns@[t] == v.parent_of();
            assert(parent_among(v, ns@, ns@.len() as int));
        }
    }
    r
}

/// The W list of `leaf`: children of the leaf's neighbours that are not
/// adjacent to the leaf. Their multipoles are evaluated directly at the
/// leaf's points. Sound and complete for `in_w_list`; empty at the deepest
/// level, which has no finer boxes.
#[verifier::loop_isolation(false)]
#[verifier::rlimit(60)]
pub fn w_list(leaf: &MortonKey) -> (r: Vec<MortonKey>)
    requires
        leaf.wf(),
        1 <= leaf.level,
    ensures
        forall|j: int| 0 <= j < r@.len() ==> in_w_list(*leaf, #[trigger] r@[j]),
        forall|w: MortonKey| in_w_list(*leaf, w) ==> r@.contains(w),
{
    let mut r: Vec<MortonKey> = Vec::new();
    if leaf.level == DEEPEST_LEVEL {
        proof {
            assert forall|w: MortonKey| in_w_list(*leaf, w) implies r@.contains(w) by {
                assert(w.level > DEEPEST_LEVEL && w.wf());
            }
        }
        return r;
    }
    let ns = leaf.neighbors();
    let mut i: usize = 0;
    while i < ns.len()
        invariant
            i <= ns@.len(),
            forall|j: int| 0 <= j < r@.len() ==> in_w_list(*leaf, #[trigger] r@[j]),
            forall|w: MortonKey|
                in_w_list(*leaf, w) && parent_among(w, ns@, i as int) ==> r@.contains(w),
        decreases ns@.len() - i,
    {
        let n = ns[i];
        let ch = n.children();
        let mut o: usize = 0;
        while o < 8
            invariant
                o <= 8,
                forall|j: int| 0 <= j < r@.len() ==> in_w_list(*leaf, #[trigger] r@[j]),
                forall|w: MortonKey|
                    in_w_list(*leaf, w) && parent_among(w, ns@, i as int) ==> r@.contains(w),
                forall|t: int|
                    0 <= t < o && !leaf.adjacent(#[trigger] ch@[t]) ==> r@.contains(ch@[t]),
            decreases 8 - o,
        {
            let c = ch[o];
            let ghost r0 = r@;
            if !leaf.is_adjacent(&c) {
                proof {
                    lemma_child(ns@[i as int], o as int);
                }
                r.push(c);
            }
            proof {
                lemma_seq_push_keeps(r0, r@);
                if !leaf.adjacent(ch@[o as int]) {
                    assert(r@[r@.len() - 1] == ch@[o as int]);
                }
            }
            o = o + 1;
        }
        proof {
            assert forall|w: MortonKey|
                in_w_list(*leaf, w) && parent_among(w, ns@, i + 1 as int) implies r@.contains(
                w,
            ) by {
                if !parent_among(w, ns@, i as int) {
                    let t = choose|t: int| 0 <= t < i + 1 && ns@[t] == w.parent_of();
                    assert(ns@[i as int] == w.parent_of());
                    lemma_self_is_child(w);
                    assert(ch@[w.octant()] == w);
                }
            }
        }
        i = i + 1;
    }
    proof {
        assert forall|w: MortonKey| in_w_list(*leaf, w) implies r@.contains(w) by {
            lemma_self_is_child(w);
            assert(ns@.contains(w.parent_of()));
            let t = choose|t: int| 0 <= t < ns@.len() && ns@[t] == w.parent_of();
            assert(parent_among(w, ns@, ns@.len() as int));
        }
    }
    r
}

/// The X list of `leaf`: the leaf's parent's neighbours that are not
/// adjacent to the leaf. Their points contribute to the leaf's local
/// expansion. Sound and complete for `in_x_list`; empty one level below the
/// root, whose box has no neighbours.
#[verifier::loop_isolation(false)]
pub fn x_list(leaf: &MortonKey) -> (r: Vec<MortonKey>)
    requires
        leaf.wf(),
        1 <= leaf.level,
    ensures
        forall|j: int| 0 <= j < r@.len() ==> in_x_list(*leaf, #[trigger] r@[j]),
        forall|x: MortonKey| in_x_list(*leaf, x) ==> r@.contains(x),
{
    proof {
        lemma_self_is_child(*leaf);
    }
    let p = leaf.parent();
    let mut r: Vec<MortonKey> = Vec::new();
    if leaf.level == 1 {
        proof {
            // the only level-zero box is the root, which contains the
            // parent, so nothing at level zero is adjacent to it
            assert forall|x: MortonKey| in_x_list(*leaf, x) implies r@.contains(x) by {
                assert(x.level == 0);
                vstd::arithmetic::power2::lemma2_to64();
                vstd::arithmetic::power2::lemma_pow2_pos(16);
                assert(x.anchor.x as int % x.side() == 0 && x.anchor.x < 65536);
                vstd::arithmetic::div_mod::lemma_small_mod(x.anchor.x as nat, 65536);
                vstd::arithmetic::div_mod::lemma_small_mod(x.anchor.y as nat, 65536);
                vstd::arithmetic::div_mod::lemma_small_mod(x.anchor.z as nat, 65536);
                assert(x.anchor.x == 0 && x.anchor.y == 0 && x.anchor.z == 0);
                assert(x.contains(p));
                assert(!p.adjacent(x));
            }
        }
        return r;
    }
    let ns = p.neighbors();
    let mut i: usize = 0;
    while i < ns.len()
        invariant
            i <= ns@.len(),
            forall|j: int| 0 <= j < r@.len() ==> in_x_list(*leaf, #[trigger] r@[j]),
            forall|t: int|
                0 <= t < i && !leaf.adjacent(#[trigger] ns@[t]) ==> r@.contains(ns@[t]),
        decreases ns@.len() - i,
    {
        let n = ns[i];
        let ghost r0 = r@;
        if !leaf.is_adjacent(&n) {
            r.push(n);
        }
        proof {
            lemma_seq_push_keeps(r0, r@);
            if !leaf.adjacent(ns@[i as int]) {
                assert(r@[r@.len() - 1] == ns@[i as int]);
            }
        }
        i = i + 1;
    }
    proof {
        assert forall|x: MortonKey| in_x_list(*leaf, x) implies r@.contains(x) by {
            assert(ns@.contains(x));
            let t = choose|t: int| 0 <= t < ns@.len() && ns@[t] == x;
        }
    }
    r
}

/// Membership in the U list of `leaf`: the leaf itself, or an adjacent box
/// at most one level away.
pub open spec fn in_near_field(leaf: MortonKey, u: MortonKey) -> bool {
    u == leaf || (u.wf() && leaf.adjacent(u) && leaf.level - 1 <= u.level <= leaf.level + 1)
}

/// Whether the key already occurs in the list.
fn has_key(v: &Vec<MortonKey>, k: &MortonKey) -> (r: bool)
    ensures
        r == v@.contains(*k),
{
    let mut i: usize = 0;
    while i < v.len()
        invariant
            i <= v@.len(),
            forall|t: int| 0 <= t < i ==> v@[t] != *k,
        decreases v@.len() - i,
    {
        if v[i] == *k {
            proof {
                assert(v@[i as int] == *k);
            }
            return true;
        }
        i = i + 1;
    }
    false
}

/// Push the key unless it is already present.
fn push_unique(r: &mut Vec<MortonKey>, k: MortonKey)
    ensures
        final(r)@.contains(k),
        old(r)@.len() <= final(r)@.len() <= old(r)@.len() + 1,
        forall|t: int| 0 <= t < old(r)@.len() ==> final(r)@[t] == old(r)@[t],
        final(r)@.len() == old(r)@.len() + 1 ==> final(r)@[old(r)@.len() as int] == k,
        forall|y: MortonKey| old(r)@.contains(y) ==> final(r)@.contains(y),
        forall|y: MortonKey| final(r)@.contains(y) ==> old(r)@.contains(y) || y == k,
        (forall|a: int, b: int| 0 <= a < b < old(r)@.len() ==> old(r)@[a] != old(r)@[b]) ==> (
        forall|a: int, b: int| 0 <= a < b < final(r)@.len() ==> final(r)@[a] != final(r)@[b]),
{
    let ghost r0 = r@;
    if !has_key(r, &k) {
        r.push(k);
        proof {
            assert(r@[r@.len() - 1] == k);
            lemma_seq_push_keeps(r0, r@);
            assert forall|y: MortonKey| r@.contains(y) implies r0.contains(y) || y == k by {
                let t = choose|t: int| 0 <= t < r@.len() && r@[t] == y;
                if t < r0.len() {
                    assert(r0[t] == y);
                }
            }
        }
    } else {
        proof {
            lemma_seq_push_keeps(r0, r@);
        }
    }
}

/// The U list of `leaf`: the leaf itself together with every adjacent box
/// among its neighbours, their children, and their parents, without
/// repetition. These are the boxes whose points interact with the leaf's
/// points by direct summation. Complete for same-level neighbours.
#[verifier::loop_isolation(false)]
#[verifier::rlimit(100)]
pub fn near_field(leaf: &MortonKey) -> (r: Vec<MortonKey>)
    requires
        leaf.wf(),
        1 <= leaf.level,
    ensures
        forall|j: int| 0 <= j < r@.len() ==> in_near_field(*leaf, #[trigger] r@[j]),
        forall|a: int, b: int| 0 <= a < b < r@.len() ==> r@[a] != r@[b],
        r@.contains(*leaf),
        forall|n: MortonKey|
            n.wf() && n.level == leaf.level && leaf.adjacent(n) ==> r@.contains(n),
{
    let mut r: Vec<MortonKey> = Vec::new();
    r.push(*leaf);
    proof {
        assert(r@[0] == *leaf);
    }
    let ns = leaf.neighbors();
    let mut i: usize = 0;
    while i < ns.len()
        invariant
            i <= ns@.len(),
            forall|j: int| 0 <= j < r@.len() ==> in_near_field(*leaf, #[trigger] r@[j]),
            forall|a: int, b: int| 0 <= a < b < r@.len() ==> r@[a] != r@[b],
            r@.contains(*leaf),
            forall|t: int| 0 <= t < i ==> r@.contains(#[trigger] ns@[t]),
        decreases ns@.len() - i,
    {
        let n = ns[i];
        push_unique(&mut r, n);
        proof {
            assert(r@.contains(ns@[i as int]));
        }
        if n.level < DEEPEST_LEVEL {
            let ch = n.children();
            let mut o: usize = 0;
            while o < 8
                invariant
                    o <= 8,
                    forall|j: int| 0 <= j < r@.len() ==> in_near_field(*leaf, #[trigger] r@[j]),
                    forall|a: int, b: int| 0 <= a < b < r@.len() ==> r@[a] != r@[b],
                    r@.contains(*leaf),
                    forall|t: int| 0 <= t <= i ==> r@.contains(#[trigger] ns@[t]),
                decreases 8 - o,
            {
                let c = ch[o];
                if leaf.is_adjacent(&c) {
                    proof {
                        lemma_child(ns@[i as int], o as int);
                    }
                    push_unique(&mut r, c);
                }
                o = o + 1;
            }
        }
        let np = n.parent();
        if leaf.is_adjacent(&np) {
            push_unique(&mut r, np);
        }
        i = i + 1;
    }
    r
}

impl crate::tree::SingleNodeTree {
    /// The near-field (U) list of a leaf.
    pub fn get_near_field(&self, leaf: &MortonKey) -> (r: Vec<MortonKey>)
        requires
            leaf.wf(),
            1 <= leaf.level,
        ensures
            forall|j: int| 0 <= j < r@.len() ==> in_near_field(*leaf, #[trigger] r@[j]),
            forall|a: int, b: int| 0 <= a < b < r@.len() ==> r@[a] != r@[b],
            r@.contains(*leaf),
            forall|n: MortonKey|
                n.wf() && n.level == leaf.level && leaf.adjacent(n) ==> r@.contains(n),
    {
        near_field(leaf)
    }

    /// The far-field (V) list of a key; none exists above level 2.
    pub fn get_interaction_list(&self, key: &MortonKey) -> (r: Option<Vec<MortonKey>>)
        requires
            key.wf(),
        ensures
            key.level < 2 ==> r is None,
            key.level >= 2 ==> r is Some,
            r matches Some(v) ==> forall|j: int| 0 <= j < v@.len() ==> in_v_list(*key, #[trigger] v@[j]),
            r matches Some(v) ==> forall|s: MortonKey| in_v_list(*key, s) ==> v@.contains(s),
    {
        if key.level >= 2 {
            Some(v_list(key))
        } else {
            None
        }
    }

    /// The W list of a leaf.
    pub fn get_w_list(&self, leaf: &MortonKey) -> (r: Vec<MortonKey>)
        requires
            leaf.wf(),
            1 <= leaf.level,
        ensures
            forall|j: int| 0 <= j < r@.len() ==> in_w_list(*leaf, #[trigger] r@[j]),
            forall|w: MortonKey| in_w_list(*leaf, w) ==> r@.contains(w),
    {
        w_list(leaf)
    }

    /// The X list of a leaf.
    pub fn get_x_list(&self, leaf: &MortonKey) -> (r: Vec<MortonKey>)
        requires
            leaf.wf(),
            1 <= leaf.level,
        ensures
            forall|j: int| 0 <= j < r@.len() ==> in_x_list(*leaf, #[trigger] r@[j]),
            forall|x: MortonKey| in_x_list(*leaf, x) ==> r@.contains(x),
    {
        x_list(leaf)
    }
}

/// Law: the V, W and X lists are disjoint from the near field and from each
/// other. A V-list or W-list or X-list member is never the box itself nor
/// adjacent to it, and the three lists live on three different levels.
pub proof fn lemma_lists_disjoint(k: MortonKey, a: MortonKey)
    requires
        k.wf(),
        2 <= k.level,
    ensures
        in_v_list(k, a) ==> !in_near_field(k, a),
        in_w_list(k, a) ==> !in_near_field(k, a),
        in_x_list(k, a) ==> !in_near_field(k, a),
        !(in_v_list(k, a) && in_w_list(k, a)),
        !(in_v_list(k, a) && in_x_list(k, a)),
        !(in_w_list(k, a) && in_x_list(k, a)),
{
    lemma_self_is_child(k);
    let p = k.parent_of();
    vstd::arithmetic::power2::lemma_pow2_pos((DEEPEST_LEVEL - p.level) as nat);
    if in_v_list(k, a) {
        // the parent box touches no box that contains it, so a's parent is
        // not k's parent, hence a is not k
        assert(p.contains(p));
        assert(a != k);
    }
}

/// Law: a box sits on another's X list exactly when the latter sits on the
/// former's W list.
pub proof fn lemma_w_x_duality(leaf: MortonKey, x: MortonKey)
    requires
        leaf.wf(),
        x.wf(),
        2 <= leaf.level,
    ensures
        in_x_list(leaf, x) <==> in_w_list(x, leaf),
{
    lemma_self_is_child(leaf);
}

} // verus!