//! Single-node octrees over Morton-encoded points.
//!
//! Points enter as grid anchors at the deepest level; the builder sorts them
//! along the Morton curve, chooses the leaf boxes (a fixed-depth uniform
//! grid, optionally sparse, or an adaptive subdivision driven by a per-leaf
//! budget with 2:1 balancing), permutes the points into per-leaf contiguous
//! blocks, and records the index maps the evaluation passes need.

use vstd::prelude::*;
use vstd::arithmetic::div_mod::*;
use vstd::arithmetic::power2::*;
use crate::morton::{
    extent_length, key_from_index, lemma_aligned_below, lemma_ancestor_at,
    lemma_contains_iff_range, lemma_floor_monotone, lemma_key_from_start_level, lemma_pow8_16,
    lemma_pow8_adds, lemma_pow8_le, lemma_pow8_pos, lemma_seq_push_keeps, lemma_start_aligned,
    pow8, Anchor, MortonKey, DEEPEST_LEVEL, LEVEL_SIZE,
};
use crate::FmmError;

verus! {

/// A source or target point: its unique global index, its Morton cell at the
/// deepest level, and the tree leaf it was assigned to.
#[derive(Clone, Copy, Debug, PartialEq, Eq, Structural)]
pub struct Point {
    /// Global unique index, the caller's handle for charge data.
    pub global_idx: usize,
    /// Key of the point's grid cell at the deepest level.
    pub base_key: MortonKey,
    /// Key of the leaf holding the point: an ancestor of `base_key`.
    pub encoded_key: MortonKey,
}

/// Every point's base key is a well-formed deepest-level cell.
pub open spec fn points_wf(s: Seq<Point>) -> bool {
    forall|i: int|
        0 <= i < s.len() ==> (#[trigger] s[i]).base_key.wf() && s[i].base_key.level
            == DEEPEST_LEVEL
}

/// Points ordered along the Morton curve of their base keys.
pub open spec fn points_sorted(s: Seq<Point>) -> bool {
    forall|i: int, j: int|
        0 <= i <= j < s.len() ==> (#[trigger] s[i]).base_key.start() <= (
        #[trigger] s[j]).base_key.start()
}

/// Sort points along the Morton curve of their base keys. The result is a
/// permutation of the input: the multiset of points is unchanged.
#[verifier::loop_isolation(false)]
pub fn sort_points(pts: Vec<Point>) -> (r: Vec<Point>)
    requires
        points_wf(pts@),
    ensures
        r@.to_multiset() == pts@.to_multiset(),
        r@.len() == pts@.len(),
        points_sorted(r@),
        points_wf(r@),
        forall|x: Point| r@.contains(x) ==> pts@.contains(x),
        forall|x: Point| pts@.contains(x) ==> r@.contains(x),
{
    broadcast use vstd::seq_lib::group_to_multiset_ensures;

    let mut src = pts;
    let mut out: Vec<Point> = Vec::new();
    proof {
        assert(out@.to_multiset().add(src@.to_multiset()) =~= pts@.to_multiset());
    }
    while src.len() > 0
        invariant
            out@.to_multiset().add(src@.to_multiset()) == pts@.to_multiset(),
            out@.len() + src@.len() == pts@.len(),
            points_sorted(out@),
            points_wf(out@),
            points_wf(src@),
            forall|i: int, j: int|
                0 <= i < out@.len() && 0 <= j < src@.len() ==> (#[trigger] out@[i]).base_key.start()
                    <= (#[trigger] src@[j]).base_key.start(),
        decreases src.len(),
    {
        let mut m: usize = 0;
        let mut k: usize = 1;
        let mut best: u64 = src[0].base_key.start_index();
        while k < src.len()
            invariant
                m < src.len(),
                k <= src.len(),
                best as int == src@[m as int].base_key.start(),
                forall|t: int| 0 <= t < k ==> best <= (#[trigger] src@[t]).base_key.start(),
            decreases src.len() - k,
        {
            let c = src[k].base_key.start_index();
            if c < best {
                m = k;
                best = c;
            }
            k = k + 1;
        }
        let ghost src0 = src@;
        let p = src.remove(m);
        out.push(p);
        proof {
            assert(src0.remove(m as int).to_multiset() =~= src0.to_multiset().remove(p));
            assert(out@.to_multiset().add(src@.to_multiset()) =~= pts@.to_multiset()) by {
                assert(src0.to_multiset().count(p) > 0);
            }
            assert(forall|j: int|
                0 <= j < src@.len() ==> src@[j] == src0[j] || src@[j] == src0[j + 1]);
        }
    }
    proof {
        assert(out@.to_multiset() =~= pts@.to_multiset()) by {
            assert(src@.to_multiset().len() == 0);
            assert(out@.to_multiset().add(src@.to_multiset()) =~= out@.to_multiset());
        }
        assert forall|x: Point| out@.contains(x) implies pts@.contains(x) by {
            assert(out@.to_multiset().count(x) > 0);
            assert(pts@.to_multiset().count(x) > 0);
        }
        assert forall|x: Point| pts@.contains(x) implies out@.contains(x) by {
            assert(pts@.to_multiset().count(x) > 0);
            assert(out@.to_multiset().count(x) > 0);
        }
    }
    out
}

/// Leaves in strictly ascending Morton order with pairwise disjoint index
/// ranges.
pub open spec fn leaves_sorted_disjoint(s: Seq<MortonKey>) -> bool {
    forall|i: int, j: int|
        0 <= i < j < s.len() ==> (#[trigger] s[i]).start() + s[i].extent() <= (
        #[trigger] s[j]).start()
}

/// Every leaf is a well-formed box no deeper than `depth`.
pub open spec fn leaves_wf(s: Seq<MortonKey>, depth: u64) -> bool {
    forall|i: int| 0 <= i < s.len() ==> (#[trigger] s[i]).wf() && s[i].level <= depth
}

/// The point's cell lies inside one of the leaves.
pub open spec fn covered_by(p: Point, leaves: Seq<MortonKey>) -> bool {
    exists|j: int| 0 <= j < leaves.len() && (#[trigger] leaves[j]).contains(p.base_key)
}

/// Every point's cell lies inside some leaf.
pub open spec fn leaves_cover(points: Seq<Point>, leaves: Seq<MortonKey>) -> bool {
    forall|i: int| 0 <= i < points.len() ==> covered_by(#[trigger] points[i], leaves)
}

/// The key is the `depth`-level ancestor of one of the points' cells.
pub open spec fn ancestor_of_some(k: MortonKey, points: Seq<Point>, depth: u64) -> bool {
    exists|i: int|
        0 <= i < points.len() && k == (#[trigger] points[i]).base_key.ancestor_at(depth)
}

/// The leaves tile the whole domain: consecutive index ranges from the first
/// deepest-level cell to the last.
pub open spec fn leaves_tile_domain(s: Seq<MortonKey>) -> bool {
    &&& s.len() > 0
    &&& s[0].start() == 0
    &&& s[s.len() - 1].start() + s[s.len() - 1].extent() == pow8(16)
    &&& forall|i: int|
        0 <= i < s.len() - 1 ==> (#[trigger] s[i]).start() + s[i].extent() == s[i + 1].start()
}

/// All the boxes of a uniform grid at `depth`, in Morton order: the `i`-th
/// leaf's index range starts at `i` times the box extent, so together they
/// tile the domain.
#[verifier::loop_isolation(false)]
pub fn uniform_leaves(depth: u64) -> (r: Vec<MortonKey>)
    requires
        depth <= DEEPEST_LEVEL,
    ensures
        r@.len() == pow8(depth as nat),
        forall|i: int|
            0 <= i < r@.len() ==> (#[trigger] r@[i]).wf() && r@[i].level == depth && r@[i].start()
                == i * pow8((DEEPEST_LEVEL - depth) as nat),
        leaves_sorted_disjoint(r@),
        leaves_wf(r@, depth),
        leaves_tile_domain(r@),
{
    let ext = extent_length(depth);
    let mut count: u64 = 1;
    let mut l: u64 = 0;
    proof {
        lemma_pow8_pos((DEEPEST_LEVEL - depth) as nat);
    }
    while l < depth
        invariant
            l <= depth,
            count as int == pow8(l as nat),
        decreases depth - l,
    {
        proof {
            lemma_pow8_le((l + 1) as nat, 16);
            lemma_pow8_16();
        }
        count = count * 8;
        l = l + 1;
    }
    proof {
        lemma_pow8_adds(depth as nat, (DEEPEST_LEVEL - depth) as nat);
        lemma_pow8_16();
    }
    let mut r: Vec<MortonKey> = Vec::new();
    let mut i: u64 = 0;
    while i < count
        invariant
            i <= count,
            r@.len() == i,
            forall|j: int|
                0 <= j < r@.len() ==> (#[trigger] r@[j]).wf() && r@[j].level == depth
                    && r@[j].start() == j * (ext as int),
        decreases count - i,
    {
        proof {
            assert((i as int + 1) * (ext as int) <= count as int * (ext as int)
                && i as int * (ext as int) >= 0) by (nonlinear_arith)
                requires
                    0 <= i < count,
                    ext >= 1,
            ;
            assert(count as int * (ext as int) == pow8(16));
            assert((i * ext) as int % (ext as int) == 0) by {
                lemma_mod_multiples_basic(i as int, ext as int);
            }
            assert((i as int + 1) * (ext as int) == i as int * (ext as int) + ext) by (
            nonlinear_arith);
        }
        let k = key_from_index(i * ext, depth);
        r.push(k);
        i = i + 1;
    }
    proof {
        assert forall|a: int, b: int| 0 <= a < b < r@.len() implies r@[a].start() + r@[a].extent()
            <= r@[b].start() by {
            assert((a + 1) * (ext as int) <= b * (ext as int) && a * (ext as int) + (ext as int)
                == (a + 1) * (ext as int)) by (nonlinear_arith)
                requires
                    a < b,
                    ext >= 1,
            ;
        }
        lemma_pow8_pos(depth as nat);
        let last = r@.len() - 1;
        assert(r@[last].start() + r@[last].extent() == pow8(16)) by (nonlinear_arith)
            requires
                r@[last].start() == last * (ext as int),
                r@[last].extent() == ext as int,
                last + 1 == count,
                count as int * (ext as int) == pow8(16),
        ;
        assert forall|i: int| 0 <= i < r@.len() - 1 implies r@[i].start() + r@[i].extent() == r@[i
            + 1].start() by {
            assert(i * (ext as int) + ext as int == (i + 1) * (ext as int)) by (nonlinear_arith);
        }
    }
    r
}

/// The `depth`-level ancestor of every point, in point order.
#[verifier::loop_isolation(false)]
fn ancestors_of_points(points: &Vec<Point>, depth: u64) -> (r: Vec<MortonKey>)
    requires
        depth <= DEEPEST_LEVEL,
        points_wf(points@),
        points_sorted(points@),
    ensures
        r@.len() == points@.len(),
        forall|i: int|
            0 <= i < r@.len() ==> (#[trigger] r@[i]) == points@[i].base_key.ancestor_at(depth)
                && r@[i].wf() && r@[i].level == depth && r@[i].contains(points@[i].base_key),
        forall|i: int, j: int|
            0 <= i <= j < r@.len() ==> (#[trigger] r@[i]).start() <= (#[trigger] r@[j]).start(),
{
    let mut r: Vec<MortonKey> = Vec::new();
    let mut i: usize = 0;
    while i < points.len()
        invariant
            i <= points@.len(),
            r@.len() == i,
            forall|t: int|
                0 <= t < r@.len() ==> (#[trigger] r@[t]) == points@[t].base_key.ancestor_at(depth)
                    && r@[t].wf() && r@[t].level == depth && r@[t].contains(points@[t].base_key),
            forall|a: int, b: int|
                0 <= a <= b < r@.len() ==> (#[trigger] r@[a]).start() <= (#[trigger] r@[b]).start(),
        decreases points@.len() - i,
    {
        let cand = points[i].base_key.ancestor_key(depth);
        proof {
            lemma_ancestor_at(points@[i as int].base_key, depth);
            lemma_pow8_pos((DEEPEST_LEVEL - depth) as nat);
            assert forall|a: int| 0 <= a < r@.len() implies (#[trigger] r@[a]).start()
                <= cand.start() by {
                lemma_start_aligned(points@[a].base_key);
                lemma_start_aligned(points@[i as int].base_key);
                lemma_ancestor_at(points@[a].base_key, depth);
                lemma_floor_monotone(
                    points@[a].base_key.start(),
                    points@[i as int].base_key.start(),
                    pow8((DEEPEST_LEVEL - depth) as nat),
                );
            }
        }
        r.push(cand);
        i = i + 1;
    }
    r
}

/// Drop repeated keys from a run of same-level keys with nondecreasing
/// starts; what remains is strictly ascending and has the same members.
#[verifier::loop_isolation(false)]
fn dedup_keys(cands: &Vec<MortonKey>) -> (r: Vec<MortonKey>)
    requires
        forall|i: int|
            0 <= i < cands@.len() ==> (#[trigger] cands@[i]).wf() && cands@[i].level
                == cands@[0].level,
        forall|i: int, j: int|
            0 <= i <= j < cands@.len() ==> (#[trigger] cands@[i]).start() <= (
            #[trigger] cands@[j]).start(),
    ensures
        leaves_sorted_disjoint(r@),
        forall|i: int|
            0 <= i < r@.len() ==> (#[trigger] r@[i]).wf() && cands@.len() > 0 && r@[i].level
                == cands@[0].level,
        forall|k: int| 0 <= k < cands@.len() ==> r@.contains(#[trigger] cands@[k]),
        forall|j: int| 0 <= j < r@.len() ==> cands@.contains(#[trigger] r@[j]),
{
    let mut r: Vec<MortonKey> = Vec::new();
    let mut i: usize = 0;
    while i < cands.len()
        invariant
            i <= cands@.len(),
            leaves_sorted_disjoint(r@),
            forall|t: int|
                0 <= t < r@.len() ==> (#[trigger] r@[t]).wf() && cands@.len() > 0 && r@[t].level
                    == cands@[0].level,
            forall|j: int| 0 <= j < r@.len() ==> cands@.contains(#[trigger] r@[j]),
            forall|k: int| 0 <= k < i ==> r@.contains(#[trigger] cands@[k]),
            i > 0 ==> r@.len() > 0 && r@[r@.len() - 1] == cands@[i - 1],
            i == 0 ==> r@.len() == 0,
        decreases cands@.len() - i,
    {
        let ghost cseq = cands@;
        let cand = cands[i];
        let ghost r0 = r@;
        if r.len() == 0 {
            r.push(cand);
        } else {
            let last = r[r.len() - 1];
            let ls = last.start_index();
            let cs = cand.start_index();
            if ls == cs {
                proof {
                    lemma_key_from_start_level(last, cand);
                    assert(r@[r@.len() - 1] == cands@[i as int]);
                }
            } else {
                proof {
                    lemma_start_aligned(last);
                    lemma_start_aligned(cand);
                    lemma_aligned_below(last.start(), cand.start(), last.extent());
                }
                r.push(cand);
            }
        }
        proof {
            lemma_seq_push_keeps(r0, r@);
            assert(r@.contains(cands@[i as int])) by {
                assert(r@[r@.len() - 1] == cands@[i as int]);
            }
            assert forall|j: int| 0 <= j < r@.len() implies cands@.contains(#[trigger] r@[j]) by {
                if j == r@.len() - 1 {
                    assert(r@[j] == cands@[i as int]);
                } else {
                    assert(r@[j] == r0[j]);
                }
            }
        }
        i = i + 1;
    }
    r
}

/// The distinct `depth`-level ancestors of a sorted run of points, in
/// ascending order: the leaves of a sparse uniform tree. Complete for the
/// points and sound: every leaf is the ancestor of some point.
#[verifier::rlimit(60)]
pub fn sparse_leaves(points: &Vec<Point>, depth: u64) -> (r: Vec<MortonKey>)
    requires
        depth <= DEEPEST_LEVEL,
        points_wf(points@),
        points_sorted(points@),
    ensures
        leaves_sorted_disjoint(r@),
        leaves_wf(r@, depth),
        forall|i: int| 0 <= i < r@.len() ==> (#[trigger] r@[i]).level == depth,
        forall|i: int|
            0 <= i < points@.len() ==> r@.contains(
                (#[trigger] points@[i]).base_key.ancestor_at(depth),
            ),
        forall|j: int| 0 <= j < r@.len() ==> ancestor_of_some(#[trigger] r@[j], points@, depth),
        leaves_cover(points@, r@),
{
    let cands = ancestors_of_points(points, depth);
    let r = dedup_keys(&cands);
    proof {
        lemma_sparse_characterisation(points@, cands@, r@, depth);
    }
    r
}

/// Transfers the per-point ancestor facts through deduplication: the
/// deduplicated keys still contain every point's ancestor, each of them is
/// some point's ancestor, and so they cover all the points.
proof fn lemma_sparse_characterisation(
    points: Seq<Point>,
    cands: Seq<MortonKey>,
    r: Seq<MortonKey>,
    depth: u64,
)
    requires
        depth <= DEEPEST_LEVEL,
        points_wf(points),
        cands.len() == points.len(),
        forall|i: int| 0 <= i < cands.len() ==> (#[trigger] cands[i]) == points[i].base_key.ancestor_at(depth),
        forall|k: int| 0 <= k < cands.len() ==> r.contains(#[trigger] cands[k]),
        forall|j: int| 0 <= j < r.len() ==> cands.contains(#[trigger] r[j]),
    ensures
        forall|i: int|
            0 <= i < points.len() ==> r.contains((#[trigger] points[i]).base_key.ancestor_at(depth)),
        forall|j: int| 0 <= j < r.len() ==> ancestor_of_some(#[trigger] r[j], points, depth),
        leaves_cover(points, r),
{
    assert forall|i: int| 0 <= i < points.len() implies r.contains(
        (#[trigger] points[i]).base_key.ancestor_at(depth),
    ) by {
        assert(cands[i] == points[i].base_key.ancestor_at(depth));
        assert(r.contains(cands[i]));
    }
    assert forall|j: int| 0 <= j < r.len() implies ancestor_of_some(
        #[trigger] r[j],
        points,
        depth,
    ) by {
        assert(cands.contains(r[j]));
        let w = choose|i: int| 0 <= i < cands.len() && cands[i] == r[j];
        assert(cands[w] == points[w].base_key.ancestor_at(depth));
        assert(0 <= w < points.len() && r[j] == points[w].base_key.ancestor_at(depth));
    }
    assert forall|k: int| 0 <= k < points.len() implies covered_by(
        #[trigger] points[k],
        r,
    ) by {
        let a = points[k].base_key.ancestor_at(depth);
        assert(cands[k] == a);
        assert(r.contains(a));
        let w = choose|j: int| 0 <= j < r.len() && r[j] == a;
        lemma_ancestor_at(points[k].base_key, depth);
        assert(0 <= w < r.len() && r[w].contains(points[k].base_key));
    }
}

/// The per-leaf charge index map is sound: ranges are consecutive, start at
/// zero, end at the point count, and every point in leaf `i`'s range was
/// assigned leaf `i`, which contains its cell.
pub open spec fn ranges_wf(
    points: Seq<Point>,
    leaves: Seq<MortonKey>,
    ranges: Seq<(usize, usize)>,
) -> bool {
    &&& ranges.len() == leaves.len()
    &&& ranges.len() > 0 ==> ranges[0].0 == 0 && ranges[ranges.len() - 1].1 == points.len()
    &&& forall|i: int| 0 <= i < ranges.len() ==> (#[trigger] ranges[i]).0 <= ranges[i].1 <= points.len()
    &&& forall|i: int| 0 <= i < ranges.len() - 1 ==> (#[trigger] ranges[i]).1 == ranges[i + 1].0
    &&& forall|i: int, k: int|
        #![trigger leaves[i], points[k]]
        0 <= i < ranges.len() && ranges[i].0 <= k < ranges[i].1 ==> points[k].encoded_key
            == leaves[i] && leaves[i].contains(points[k].base_key)
}

/// Sweep the sorted points once and hand each its covering leaf, recording
/// the contiguous index range of every leaf's points.
#[verifier::loop_isolation(false)]
#[verifier::rlimit(60)]
pub fn assign_points(points: &Vec<Point>, leaves: &Vec<MortonKey>) -> (r: (
    Vec<Point>,
    Vec<(usize, usize)>,
))
    requires
        points_wf(points@),
        points_sorted(points@),
        leaves_wf(leaves@, DEEPEST_LEVEL),
        leaves_sorted_disjoint(leaves@),
        leaves_cover(points@, leaves@),
    ensures
        r.0@.len() == points@.len(),
        forall|k: int|
            0 <= k < points@.len() ==> (#[trigger] r.0@[k]).base_key == points@[k].base_key
                && r.0@[k].global_idx == points@[k].global_idx,
        points_wf(r.0@),
        points_sorted(r.0@),
        ranges_wf(r.0@, leaves@, r.1@),
{
    let n = points.len();
    let mut out: Vec<Point> = Vec::new();
    let mut ranges: Vec<(usize, usize)> = Vec::new();
    let mut j: usize = 0;
    let mut i: usize = 0;
    while i < leaves.len()
        invariant
            i <= leaves@.len(),
            j <= n,
            out@.len() == j,
            ranges@.len() == i,
            i > 0 ==> ranges@[0].0 == 0 && ranges@[i - 1].1 == j,
            i == 0 ==> j == 0,
            forall|t: int| 0 <= t < i ==> (#[trigger] ranges@[t]).0 <= ranges@[t].1 <= j,
            forall|t: int| 0 <= t < i - 1 ==> (#[trigger] ranges@[t]).1 == ranges@[t + 1].0,
            forall|t: int, k: int|
                #![trigger leaves@[t], out@[k]]
                0 <= t < i && ranges@[t].0 <= k < ranges@[t].1 ==> out@[k].encoded_key == leaves@[t]
                    && leaves@[t].contains(out@[k].base_key),
            forall|k: int|
                0 <= k < j ==> (#[trigger] out@[k]).base_key == points@[k].base_key
                    && out@[k].global_idx == points@[k].global_idx,
            forall|k: int|
                j <= k < n && i > 0 ==> (#[trigger] points@[k]).base_key.start() >= leaves@[i
                    - 1].start() + leaves@[i - 1].extent(),
        decreases leaves@.len() - i,
    {
        let leaf = leaves[i];
        proof {
            lemma_start_aligned(leaf);
            lemma_pow8_pos((DEEPEST_LEVEL - leaf.level) as nat);
            lemma_pow8_16();
            assert(pow8(16) % leaf.extent() == 0) by {
                lemma_pow8_adds((leaf.level) as nat, (DEEPEST_LEVEL - leaf.level) as nat);
                lemma_pow8_pos(leaf.level as nat);
                lemma_mod_multiples_basic(pow8(leaf.level as nat), leaf.extent());
            }
            lemma_aligned_below(leaf.start(), pow8(16), leaf.extent());
        }
        let e = leaf.start_index() + extent_length(leaf.level);
        let l = j;
        while j < n && points[j].base_key.start_index() < e
            invariant
                l <= j <= n,
                out@.len() == j,
                forall|t: int, k: int|
                    #![trigger leaves@[t], out@[k]]
                    0 <= t < i && ranges@[t].0 <= k < ranges@[t].1 ==> out@[k].encoded_key
                        == leaves@[t] && leaves@[t].contains(out@[k].base_key),
                forall|k: int|
                    0 <= k < j ==> (#[trigger] out@[k]).base_key == points@[k].base_key
                        && out@[k].global_idx == points@[k].global_idx,
                forall|k: int|
                    l <= k < j ==> (#[trigger] out@[k]).encoded_key == leaf && leaf.contains(
                        out@[k].base_key,
                    ),
                forall|k: int|
                    j <= k < n && i > 0 ==> (#[trigger] points@[k]).base_key.start() >= leaves@[i
                        - 1].start() + leaves@[i - 1].extent(),
            decreases n - j,
        {
            proof {
                let b = points@[j as int].base_key;
                lemma_start_aligned(b);
                // the point's cell lies in some leaf; by the sweep bounds it
                // must be this one
                assert(covered_by(points@[j as int], leaves@));
                let m = choose|m: int|
                    0 <= m < leaves@.len() && (#[trigger] leaves@[m]).contains(b);
                lemma_contains_iff_range(leaves@[m], b);
                if m < i {
                    if m < i - 1 {
                        assert(leaves@[m].start() + leaves@[m].extent() <= leaves@[i - 1].start());
                        lemma_start_aligned(leaves@[i - 1]);
                    }
                    assert(b.start() < leaves@[m].start() + leaves@[m].extent());
                    assert(false);
                }
                assert(leaf.start() <= b.start()) by {
                    if m > i {
                        assert(leaf.start() + leaf.extent() <= leaves@[m].start());
                    }
                }
                lemma_contains_iff_range(leaf, b);
                assert(leaf.contains(b));
            }
            let p = Point {
                global_idx: points[j].global_idx,
                base_key: points[j].base_key,
                encoded_key: leaf,
            };
            out.push(p);
            j = j + 1;
        }
        proof {
            // every unconsumed point starts at or beyond this leaf's end
            if j < n {
                assert(points@[j as int].base_key.start() >= e);
                assert forall|k: int| j <= k < n implies (#[trigger] points@[k]).base_key.start()
                    >= leaf.start() + leaf.extent() by {
                    assert(points@[j as int].base_key.start() <= points@[k].base_key.start());
                }
            }
        }
        ranges.push((l, j));
        i = i + 1;
    }
    proof {
        // the leaves cover every point, so the sweep consumed them all
        if j < n {
            let b = points@[j as int].base_key;
            assert(covered_by(points@[j as int], leaves@));
            let m = choose|m: int| 0 <= m < leaves@.len() && (#[trigger] leaves@[m]).contains(b);
            lemma_contains_iff_range(leaves@[m], b);
            if m < i - 1 {
                assert(leaves@[m].start() + leaves@[m].extent() <= leaves@[i - 1].start());
                lemma_start_aligned(leaves@[i - 1]);
            }
            assert(false);
        }
    }
    (out, ranges)
}

/// The deepest-level cell key over an anchor.
pub open spec fn base_key_of(a: Anchor) -> MortonKey {
    MortonKey { anchor: a, level: DEEPEST_LEVEL }
}

/// Some point carries the global index `g`.
pub open spec fn has_point_for(points: Seq<Point>, g: int) -> bool {
    exists|k: int| 0 <= k < points.len() && (#[trigger] points[k]).global_idx == g
}

/// The points are exactly the input anchors: each point's cell is the cell
/// of the anchor its global index names, and every global index occurs.
pub open spec fn points_match_anchors(points: Seq<Point>, anchors: Seq<Anchor>) -> bool {
    &&& points.len() == anchors.len()
    &&& forall|k: int|
        0 <= k < points.len() ==> (#[trigger] points[k]).global_idx < anchors.len()
            && points[k].base_key == base_key_of(anchors[points[k].global_idx as int])
    &&& forall|g: int| 0 <= g < anchors.len() ==> has_point_for(points, #[trigger] (g + 0))
}

/// All anchor coordinates lie on the deepest grid.
pub open spec fn anchors_ok(anchors: Seq<Anchor>) -> bool {
    forall|i: int|
        0 <= i < anchors.len() ==> (#[trigger] anchors[i]).x < LEVEL_SIZE && anchors[i].y
            < LEVEL_SIZE && anchors[i].z < LEVEL_SIZE
}

/// Encode each anchor as a deepest-level point carrying its position as
/// global index.
#[verifier::loop_isolation(false)]
pub(crate) fn encode_points(anchors: &Vec<Anchor>) -> (r: Vec<Point>)
    requires
        anchors_ok(anchors@),
    ensures
        r@.len() == anchors@.len(),
        forall|k: int|
            0 <= k < r@.len() ==> (#[trigger] r@[k]) == (Point {
                global_idx: k as usize,
                base_key: base_key_of(anchors@[k]),
                encoded_key: base_key_of(anchors@[k]),
            }),
        points_wf(r@),
        points_match_anchors(r@, anchors@),
{
    let mut r: Vec<Point> = Vec::new();
    let mut k: usize = 0;
    while k < anchors.len()
        invariant
            k <= anchors@.len(),
            r@.len() == k,
            forall|t: int|
                0 <= t < r@.len() ==> (#[trigger] r@[t]) == (Point {
                    global_idx: t as usize,
                    base_key: base_key_of(anchors@[t]),
                    encoded_key: base_key_of(anchors@[t]),
                }),
            points_wf(r@),
        decreases anchors@.len() - k,
    {
        let b = MortonKey { anchor: anchors[k], level: DEEPEST_LEVEL };
        proof {
            lemma2_to64();
            assert(b.side() == 1);
            lemma_mod_multiples_basic(b.anchor.x as int, 1);
            lemma_mod_multiples_basic(b.anchor.y as int, 1);
            lemma_mod_multiples_basic(b.anchor.z as int, 1);
            assert(b.anchor.x as int == b.anchor.x as int * 1);
            assert(b.anchor.y as int == b.anchor.y as int * 1);
            assert(b.anchor.z as int == b.anchor.z as int * 1);
            assert(b.wf());
        }
        r.push(Point { global_idx: k, base_key: b, encoded_key: b });
        k = k + 1;
    }
    proof {
        assert forall|g: int| 0 <= g < anchors@.len() implies has_point_for(
            r@,
            #[trigger] (g + 0),
        ) by {
            assert(r@[g].global_idx == g);
        }
    }
    r
}

/// First index whose point starts at or beyond `bound` along the curve.
#[verifier::loop_isolation(false)]
pub fn lower_bound(points: &Vec<Point>, bound: u64) -> (r: usize)
    requires
        points_wf(points@),
        points_sorted(points@),
    ensures
        r <= points@.len(),
        forall|k: int| 0 <= k < r ==> (#[trigger] points@[k]).base_key.start() < bound,
        forall|k: int| r <= k < points@.len() ==> (#[trigger] points@[k]).base_key.start() >= bound,
{
    let mut lo: usize = 0;
    let mut hi: usize = points.len();
    while lo < hi
        invariant
            lo <= hi <= points@.len(),
            forall|k: int| 0 <= k < lo ==> (#[trigger] points@[k]).base_key.start() < bound,
            forall|k: int|
                hi <= k < points@.len() ==> (#[trigger] points@[k]).base_key.start() >= bound,
        decreases hi - lo,
    {
        let mid = lo + (hi - lo) / 2;
        if points[mid].base_key.start_index() < bound {
            lo = mid + 1;
        } else {
            hi = mid;
        }
    }
    lo
}

/// In a tiling, every cell index below the domain size lies in the range of
/// some leaf at or after `i`.
proof fn lemma_tile_locate(leaves: Seq<MortonKey>, x: int, i: int)
    requires
        leaves_tile_domain(leaves),
        0 <= i < leaves.len(),
        leaves[i].start() <= x < pow8(16),
    ensures
        exists|j: int|
            i <= j < leaves.len() && (#[trigger] leaves[j]).start() <= x < leaves[j].start()
                + leaves[j].extent(),
    decreases leaves.len() - i,
{
    if x < leaves[i].start() + leaves[i].extent() {
        assert(leaves[i].start() <= x < leaves[i].start() + leaves[i].extent());
    } else {
        assert(i < leaves.len() - 1) by {
            if i == leaves.len() - 1 {
                assert(leaves[i].start() + leaves[i].extent() == pow8(16));
            }
        }
        lemma_tile_locate(leaves, x, i + 1);
    }
}

/// A tiling of the whole domain covers every point.
pub proof fn lemma_tile_covers(points: Seq<Point>, leaves: Seq<MortonKey>)
    requires
        points_wf(points),
        leaves_wf(leaves, DEEPEST_LEVEL),
        leaves_tile_domain(leaves),
    ensures
        leaves_cover(points, leaves),
{
    assert forall|i: int| 0 <= i < points.len() implies covered_by(#[trigger] points[i], leaves) by {
        let b = points[i].base_key;
        lemma_start_aligned(b);
        lemma_pow8_16();
        assert(leaves[0].start() == 0);
        lemma_tile_locate(leaves, b.start(), 0);
        let j = choose|j: int|
            0 <= j < leaves.len() && (#[trigger] leaves[j]).start() <= b.start() < leaves[j].start()
                + leaves[j].extent();
        lemma_contains_iff_range(leaves[j], b);
        assert(leaves[j].contains(b));
    }
}

/// A tiling is in particular sorted and disjoint.
pub proof fn lemma_tile_sorted(leaves: Seq<MortonKey>)
    requires
        leaves_tile_domain(leaves),
        forall|i: int| 0 <= i < leaves.len() ==> (#[trigger] leaves[i]).wf(),
    ensures
        leaves_sorted_disjoint(leaves),
    decreases leaves.len(),
{
    assert forall|i: int, j: int| 0 <= i < j < leaves.len() implies (#[trigger] leaves[i]).start()
        + leaves[i].extent() <= (#[trigger] leaves[j]).start() by {
        lemma_tile_chain(leaves, i, j);
    }
}

/// Chaining consecutive ranges: the end of leaf `i` is at most the start of
/// any later leaf.
proof fn lemma_tile_chain(leaves: Seq<MortonKey>, i: int, j: int)
    requires
        0 <= i < j < leaves.len(),
        forall|t: int|
            0 <= t < leaves.len() - 1 ==> (#[trigger] leaves[t]).start() + leaves[t].extent()
                == leaves[t + 1].start(),
        forall|t: int| 0 <= t < leaves.len() ==> (#[trigger] leaves[t]).wf(),
    ensures
        leaves[i].start() + leaves[i].extent() <= leaves[j].start(),
    decreases j - i,
{
    lemma_start_aligned(leaves[j]);
    lemma_pow8_pos((DEEPEST_LEVEL - leaves[j].level) as nat);
    if j > i + 1 {
        lemma_tile_chain(leaves, i, j - 1);
        lemma_start_aligned(leaves[j - 1]);
        lemma_pow8_pos((DEEPEST_LEVEL - leaves[j - 1].level) as nat);
    }
}

/// A single-node octree: points permuted into Morton order, the leaf boxes,
/// and the map from each leaf to its contiguous run of points.
pub struct SingleNodeTree {
    /// Points sorted along the Morton curve, each holding its leaf.
    pub points: Vec<Point>,
    /// The leaf boxes, sorted and pairwise non-overlapping.
    pub leaves: Vec<MortonKey>,
    /// Per-leaf half-open index range into `points`.
    pub leaf_to_points: Vec<(usize, usize)>,
    /// Deepest level any leaf may use.
    pub depth: u64,
    /// Whether the tree was built adaptively.
    pub adaptive: bool,
}

impl SingleNodeTree {
    /// The structural invariant every constructed tree satisfies: sorted
    /// well-formed points and leaves, non-overlapping leaves that cover all
    /// points, and a sound per-leaf index map.
    pub open spec fn wf(self) -> bool {
        &&& self.depth <= DEEPEST_LEVEL
        &&& points_wf(self.points@)
        &&& points_sorted(self.points@)
        &&& leaves_wf(self.leaves@, self.depth)
        &&& leaves_sorted_disjoint(self.leaves@)
        &&& leaves_cover(self.points@, self.leaves@)
        &&& ranges_wf(self.points@, self.leaves@, self.leaf_to_points@)
    }

    /// Build a uniform tree: every box at `depth`, or with `sparse` only the
    /// boxes holding at least one point. The point set is a permutation of
    /// the encoded anchors, laid out leaf by leaf.
    pub fn uniform_tree(anchors: &Vec<Anchor>, depth: u64, sparse: bool) -> (r: SingleNodeTree)
        requires
            1 <= anchors@.len(),
            depth <= DEEPEST_LEVEL,
            anchors_ok(anchors@),
        ensures
            r.wf(),
            !r.adaptive,
            r.depth == depth,
            points_match_anchors(r.points@, anchors@),
            forall|i: int| 0 <= i < r.leaves@.len() ==> (#[trigger] r.leaves@[i]).level == depth,
            !sparse ==> leaves_tile_domain(r.leaves@) && r.leaves@.len() == pow8(depth as nat),
            sparse ==> forall|i: int|
                0 <= i < r.points@.len() ==> r.leaves@.contains(
                    (#[trigger] r.points@[i]).base_key.ancestor_at(depth),
                ),
            sparse ==> forall|j: int|
                0 <= j < r.leaves@.len() ==> ancestor_of_some(
                    #[trigger] r.leaves@[j],
                    r.points@,
                    depth,
                ),
    {
        let encoded = encode_points(anchors);
        let sorted = sort_points(encoded);
        proof {
            lemma_match_through_permutation(encoded@, sorted@, anchors@);
        }
        let leaves = if sparse {
            sparse_leaves(&sorted, depth)
        } else {
            let u = uniform_leaves(depth);
            proof {
                lemma_tile_covers(sorted@, u@);
            }
            u
        };
        let (points, ranges) = assign_points(&sorted, &leaves);
        proof {
            lemma_match_same_fields(sorted@, points@, anchors@);
            assert(leaves_cover(points@, leaves@)) by {
                assert forall|i: int| 0 <= i < points@.len() implies covered_by(
                    #[trigger] points@[i],
                    leaves@,
                ) by {
                    assert(points@[i].base_key == sorted@[i].base_key);
                    assert(covered_by(sorted@[i], leaves@));
                    let j = choose|j: int|
                        0 <= j < leaves@.len() && (#[trigger] leaves@[j]).contains(
                            sorted@[i].base_key,
                        );
                    assert(leaves@[j].contains(points@[i].base_key));
                }
            }
            if sparse {
                assert forall|i: int| 0 <= i < points@.len() implies leaves@.contains(
                    (#[trigger] points@[i]).base_key.ancestor_at(depth),
                ) by {
                    assert(points@[i].base_key == sorted@[i].base_key);
                    assert(leaves@.contains(sorted@[i].base_key.ancestor_at(depth)));
                }
                assert forall|j: int| 0 <= j < leaves@.len() implies ancestor_of_some(
                    #[trigger] leaves@[j],
                    points@,
                    depth,
                ) by {
                    assert(ancestor_of_some(leaves@[j], sorted@, depth));
                    let w = choose|i: int|
                        0 <= i < sorted@.len() && leaves@[j] == (
                        #[trigger] sorted@[i]).base_key.ancestor_at(depth);
                    assert(points@[w].base_key == sorted@[w].base_key);
                    assert(leaves@[j] == points@[w].base_key.ancestor_at(depth));
                }
            }
        }
        SingleNodeTree { points, leaves, leaf_to_points: ranges, depth, adaptive: false }
    }
}

/// Points that agree index-wise on cell and global index match the same
/// anchors.
pub(crate) proof fn lemma_match_same_fields(a: Seq<Point>, b: Seq<Point>, anchors: Seq<Anchor>)
    requires
        points_match_anchors(a, anchors),
        a.len() == b.len(),
        forall|k: int|
            0 <= k < b.len() ==> (#[trigger] b[k]).base_key == a[k].base_key && b[k].global_idx
                == a[k].global_idx,
    ensures
        points_match_anchors(b, anchors),
{
    assert forall|g: int| 0 <= g < anchors.len() implies has_point_for(b, #[trigger] (g + 0)) by {
        assert(has_point_for(a, g + 0));
        let k = choose|k: int| 0 <= k < a.len() && (#[trigger] a[k]).global_idx == g + 0;
        assert(b[k].global_idx == g);
    }
}

/// Index `k` falls inside one of the ranges.
pub open spec fn some_range_holds(rs: Seq<(usize, usize)>, k: int) -> bool {
    exists|j: int| 0 <= j < rs.len() && (#[trigger] rs[j]).0 <= k < rs[j].1
}

/// Consecutive ranges cover every index between the first start and the
/// last end.
proof fn lemma_ranges_locate(rs: Seq<(usize, usize)>, k: int, i: int)
    requires
        0 <= i < rs.len(),
        rs[i].0 <= k,
        k < rs[rs.len() - 1].1,
        forall|t: int| 0 <= t < rs.len() - 1 ==> (#[trigger] rs[t]).1 == rs[t + 1].0,
        forall|t: int| 0 <= t < rs.len() ==> (#[trigger] rs[t]).0 <= rs[t].1,
    ensures
        some_range_holds(rs, k),
    decreases rs.len() - i,
{
    if k < rs[i].1 {
        assert(rs[i].0 <= k < rs[i].1);
    } else {
        assert(i < rs.len() - 1);
        lemma_ranges_locate(rs, k, i + 1);
    }
}

impl SingleNodeTree {
    /// Law: every point's assigned leaf is one of the tree's leaves, and
    /// the point's cell lies inside it.
    pub proof fn lemma_point_in_its_leaf(self, k: int)
        requires
            self.wf(),
            0 <= k < self.points@.len(),
        ensures
            exists|j: int|
                0 <= j < self.leaves@.len() && self.points@[k].encoded_key == (
                #[trigger] self.leaves@[j]) && self.leaves@[j].contains(self.points@[k].base_key),
    {
        let rs = self.leaf_to_points@;
        assert(covered_by(self.points@[k], self.leaves@));
        let w = choose|w: int|
            0 <= w < self.leaves@.len() && (#[trigger] self.leaves@[w]).contains(
                self.points@[k].base_key,
            );
        assert(rs.len() > 0 && rs[0].0 == 0 && rs[rs.len() - 1].1 == self.points@.len());
        lemma_ranges_locate(rs, k, 0);
        let j = choose|j: int| 0 <= j < rs.len() && (#[trigger] rs[j]).0 <= k < rs[j].1;
        assert(self.points@[k].encoded_key == self.leaves@[j] && self.leaves@[j].contains(
            self.points@[k].base_key,
        ));
    }

    /// Law: the leaves never overlap: no leaf contains another, and their
    /// index ranges are disjoint. Together with the covering clause of the
    /// invariant, the leaves partition the points.
    pub proof fn lemma_leaves_disjoint(self, i: int, j: int)
        requires
            self.wf(),
            0 <= i < self.leaves@.len(),
            0 <= j < self.leaves@.len(),
            i != j,
        ensures
            !self.leaves@[i].contains(self.leaves@[j]),
            !self.leaves@[j].contains(self.leaves@[i]),
    {
        let a = self.leaves@[i];
        let b = self.leaves@[j];
        lemma_start_aligned(a);
        lemma_start_aligned(b);
        if a.contains(b) {
            lemma_contains_iff_range(a, b);
        }
        if b.contains(a) {
            lemma_contains_iff_range(b, a);
        }
    }

    /// Whether the tree was built adaptively.
    pub fn get_adaptive(&self) -> (r: bool)
        ensures
            r == self.adaptive,
    {
        self.adaptive
    }

    /// The tree's leaf keys.
    pub fn get_keys(&self) -> (r: &Vec<MortonKey>)
        ensures
            r == &self.leaves,
    {
        &self.leaves
    }

    /// The tree's points, in Morton order.
    pub fn get_points(&self) -> (r: &Vec<Point>)
        ensures
            r == &self.points,
    {
        &self.points
    }

    /// The deepest level any leaf uses.
    pub fn get_depth(&self) -> (r: u64)
        ensures
            r == self.depth,
    {
        self.depth
    }

    /// The half-open range of point indices held by leaf `i`.
    pub fn map_key_to_points(&self, i: usize) -> (r: (usize, usize))
        requires
            self.wf(),
            i < self.leaf_to_points@.len(),
        ensures
            r == self.leaf_to_points@[i as int],
            r.0 <= r.1 <= self.points@.len(),
            forall|k: int|
                r.0 <= k < r.1 ==> (#[trigger] self.points@[k]).encoded_key == self.leaves@[i as int],
    {
        self.leaf_to_points[i]
    }

    /// All tree keys at the given level: the distinct level-`l` ancestors
    /// of the leaves at or below `l`, in Morton order.
    #[verifier::loop_isolation(false)]
    #[verifier::rlimit(60)]
    pub fn keys_at_level(&self, l: u64) -> (r: Vec<MortonKey>)
        requires
            self.wf(),
            l <= self.depth,
        ensures
            leaves_sorted_disjoint(r@),
            forall|j: int| 0 <= j < r@.len() ==> (#[trigger] r@[j]).wf() && r@[j].level == l,
            forall|i: int|
                0 <= i < self.leaves@.len() && l <= (#[trigger] self.leaves@[i]).level
                    ==> r@.contains(self.leaves@[i].ancestor_at(l)),
    {
        let mut cands: Vec<MortonKey> = Vec::new();
        let mut i: usize = 0;
        while i < self.leaves.len()
            invariant
                i <= self.leaves@.len(),
                forall|t: int|
                    0 <= t < cands@.len() ==> (#[trigger] cands@[t]).wf() && cands@[t].level == l,
                forall|a: int, b: int|
                    0 <= a <= b < cands@.len() ==> (#[trigger] cands@[a]).start() <= (
                    #[trigger] cands@[b]).start(),
                forall|t: int|
                    0 <= t < i && l <= (#[trigger] self.leaves@[t]).level ==> cands@.contains(
                        self.leaves@[t].ancestor_at(l),
                    ),
                cands@.len() > 0 ==> exists|t: int|
                    0 <= t < i && cands@[cands@.len() - 1] == (
                    #[trigger] self.leaves@[t]).ancestor_at(l) && l <= self.leaves@[t].level,
            decreases self.leaves@.len() - i,
        {
            let ghost c0 = cands@;
            if self.leaves[i].level >= l {
                let a = self.leaves[i].ancestor_key(l);
                proof {
                    lemma_ancestor_at(self.leaves@[i as int], l);
                    if cands@.len() > 0 {
                        let t = choose|t: int|
                            0 <= t < i && cands@[cands@.len() - 1] == (
                            #[trigger] self.leaves@[t]).ancestor_at(l) && l
                                <= self.leaves@[t].level;
                        lemma_ancestor_at(self.leaves@[t], l);
                        lemma_pow8_pos((DEEPEST_LEVEL - l) as nat);
                        lemma_start_aligned(self.leaves@[t]);
                        lemma_start_aligned(self.leaves@[i as int]);
                        lemma_floor_monotone(
                            self.leaves@[t].start(),
                            self.leaves@[i as int].start(),
                            pow8((DEEPEST_LEVEL - l) as nat),
                        );
                    }
                }
                cands.push(a);
            }
            proof {
                lemma_seq_push_keeps(c0, cands@);
                if self.leaves@[i as int].level >= l {
                    assert(cands@[cands@.len() - 1] == self.leaves@[i as int].ancestor_at(l));
                }
            }
            i = i + 1;
        }
        let r = dedup_keys(&cands);
        proof {
            assert forall|t: int|
                0 <= t < self.leaves@.len() && l <= (#[trigger] self.leaves@[t]).level implies r@.contains(
                self.leaves@[t].ancestor_at(l),
            ) by {
                assert(cands@.contains(self.leaves@[t].ancestor_at(l)));
                let w = choose|w: int|
                    0 <= w < cands@.len() && cands@[w] == self.leaves@[t].ancestor_at(l);
                assert(r@.contains(cands@[w]));
            }
        }
        r
    }
}

/// Some point occupies the cell `k`.
pub open spec fn has_cell(points: Seq<Point>, k: MortonKey) -> bool {
    exists|i: int| 0 <= i < points.len() && (#[trigger] points[i]).base_key == k
}

/// Two sorted, disjoint, well-formed key runs with the same members are
/// identical.
pub proof fn lemma_sorted_same_members_eq(a: Seq<MortonKey>, b: Seq<MortonKey>)
    requires
        leaves_sorted_disjoint(a),
        leaves_sorted_disjoint(b),
        forall|i: int| 0 <= i < a.len() ==> (#[trigger] a[i]).wf(),
        forall|i: int| 0 <= i < b.len() ==> (#[trigger] b[i]).wf(),
        forall|k: MortonKey| a.contains(k) <==> b.contains(k),
    ensures
        a == b,
    decreases a.len(),
{
    if a.len() == 0 {
        if b.len() > 0 {
            assert(b.contains(b[0]));
            assert(a.contains(b[0]));
        }
        assert(a =~= b);
    } else {
        assert(b.len() > 0) by {
            assert(a.contains(a[0]));
            assert(b.contains(a[0]));
        }
        lemma_start_aligned(a[0]);
        lemma_start_aligned(b[0]);
        assert(a[0] == b[0]) by {
            assert(a.contains(a[0]));
            assert(b.contains(a[0]));
            let j = choose|j: int| 0 <= j < b.len() && b[j] == a[0];
            assert(b.contains(b[0]));
            assert(a.contains(b[0]));
            let t = choose|t: int| 0 <= t < a.len() && a[t] == b[0];
            if j > 0 {
                assert(b[0].start() + b[0].extent() <= b[j].start());
            }
            if t > 0 {
                assert(a[0].start() + a[0].extent() <= a[t].start());
            }
        }
        let at = a.drop_first();
        let bt = b.drop_first();
        assert forall|i: int, j: int| 0 <= i < j < at.len() implies (#[trigger] at[i]).start()
            + at[i].extent() <= (#[trigger] at[j]).start() by {
            assert(at[i] == a[i + 1] && at[j] == a[j + 1]);
        }
        assert forall|i: int, j: int| 0 <= i < j < bt.len() implies (#[trigger] bt[i]).start()
            + bt[i].extent() <= (#[trigger] bt[j]).start() by {
            assert(bt[i] == b[i + 1] && bt[j] == b[j + 1]);
        }
        assert(forall|i: int| 0 <= i < at.len() ==> (#[trigger] at[i]).wf() && at[i] == a[i + 1]);
        assert(forall|i: int| 0 <= i < bt.len() ==> (#[trigger] bt[i]).wf() && bt[i] == b[i + 1]);
        assert forall|k: MortonKey| at.contains(k) <==> bt.contains(k) by {
            if at.contains(k) {
                let i = choose|i: int| 0 <= i < at.len() && at[i] == k;
                assert(a[i + 1] == k);
                assert(a.contains(k));
                assert(b.contains(k));
                let j = choose|j: int| 0 <= j < b.len() && b[j] == k;
                assert(j != 0) by {
                    if j == 0 {
                        lemma_start_aligned(a[i + 1]);
                        assert(a[0].start() + a[0].extent() <= a[i + 1].start());
                    }
                }
                assert(bt[j - 1] == k);
                assert(bt.contains(k));
            }
            if bt.contains(k) {
                let i = choose|i: int| 0 <= i < bt.len() && bt[i] == k;
                assert(b[i + 1] == k);
                assert(b.contains(k));
                assert(a.contains(k));
                let j = choose|j: int| 0 <= j < a.len() && a[j] == k;
                assert(j != 0) by {
                    if j == 0 {
                        lemma_start_aligned(b[i + 1]);
                        assert(b[0].start() + b[0].extent() <= b[i + 1].start());
                    }
                }
                assert(at[j - 1] == k);
                assert(at.contains(k));
            }
        }
        lemma_sorted_same_members_eq(at, bt);
        assert(a =~= b) by {
            assert(forall|i: int| 1 <= i < a.len() ==> a[i] == at[i - 1] && a[i] == bt[i - 1]);
        }
    }
}

/// Law: building a sparse uniform tree is idempotent. The leaves depend
/// only on the set of occupied cells, so two builds over point runs with
/// the same cells return identical leaves; in particular, rebuilding from
/// the coordinates a build hands back reproduces it.
pub proof fn lemma_sparse_build_idempotent(
    l1: Seq<MortonKey>,
    p1: Seq<Point>,
    l2: Seq<MortonKey>,
    p2: Seq<Point>,
    depth: u64,
)
    requires
        depth <= DEEPEST_LEVEL,
        points_wf(p1),
        points_wf(p2),
        leaves_sorted_disjoint(l1),
        leaves_sorted_disjoint(l2),
        forall|i: int| 0 <= i < l1.len() ==> (#[trigger] l1[i]).wf() && l1[i].level == depth,
        forall|i: int| 0 <= i < l2.len() ==> (#[trigger] l2[i]).wf() && l2[i].level == depth,
        forall|i: int|
            0 <= i < p1.len() ==> l1.contains((#[trigger] p1[i]).base_key.ancestor_at(depth)),
        forall|i: int|
            0 <= i < p2.len() ==> l2.contains((#[trigger] p2[i]).base_key.ancestor_at(depth)),
        forall|j: int| 0 <= j < l1.len() ==> ancestor_of_some(#[trigger] l1[j], p1, depth),
        forall|j: int| 0 <= j < l2.len() ==> ancestor_of_some(#[trigger] l2[j], p2, depth),
        forall|i: int| 0 <= i < p1.len() ==> has_cell(p2, (#[trigger] p1[i]).base_key),
        forall|i: int| 0 <= i < p2.len() ==> has_cell(p1, (#[trigger] p2[i]).base_key),
    ensures
        l1 == l2,
{
    assert forall|k: MortonKey| l1.contains(k) <==> l2.contains(k) by {
        if l1.contains(k) {
            let j = choose|j: int| 0 <= j < l1.len() && l1[j] == k;
            assert(ancestor_of_some(l1[j], p1, depth));
            let i = choose|i: int|
                0 <= i < p1.len() && l1[j] == (#[trigger] p1[i]).base_key.ancestor_at(depth);
            assert(has_cell(p2, p1[i].base_key));
            let m = choose|m: int| 0 <= m < p2.len() && (#[trigger] p2[m]).base_key == p1[i].base_key;
            assert(l2.contains(p2[m].base_key.ancestor_at(depth)));
        }
        if l2.contains(k) {
            let j = choose|j: int| 0 <= j < l2.len() && l2[j] == k;
            assert(ancestor_of_some(l2[j], p2, depth));
            let i = choose|i: int|
                0 <= i < p2.len() && l2[j] == (#[trigger] p2[i]).base_key.ancestor_at(depth);
            assert(has_cell(p1, p2[i].base_key));
            let m = choose|m: int| 0 <= m < p1.len() && (#[trigger] p1[m]).base_key == p2[i].base_key;
            assert(l1.contains(p1[m].base_key.ancestor_at(depth)));
        }
    }
    lemma_sorted_same_members_eq(l1, l2);
}

/// Anchor matching survives any permutation of the points.
pub(crate) proof fn lemma_match_through_permutation(a: Seq<Point>, b: Seq<Point>, anchors: Seq<Anchor>)
    requires
        points_match_anchors(a, anchors),
        a.len() == b.len(),
        forall|x: Point| b.contains(x) ==> a.contains(x),
        forall|x: Point| a.contains(x) ==> b.contains(x),
    ensures
        points_match_anchors(b, anchors),
{
    assert forall|k: int|
        0 <= k < b.len() implies (#[trigger] b[k]).global_idx < anchors.len() && b[k].base_key
        == base_key_of(anchors[b[k].global_idx as int]) by {
        assert(b.contains(b[k]));
        let t = choose|t: int| 0 <= t < a.len() && a[t] == b[k];
        assert(a[t].global_idx < anchors.len());
    }
    assert forall|g: int| 0 <= g < anchors.len() implies has_point_for(b, #[trigger] (g + 0)) by {
        assert(has_point_for(a, g + 0));
        let k = choose|k: int| 0 <= k < a.len() && (#[trigger] a[k]).global_idx == g + 0;
        assert(a.contains(a[k]));
        let t = choose|t: int| 0 <= t < b.len() && b[t] == a[k];
        assert(b[t].global_idx == g);
    }
}

} // verus!
