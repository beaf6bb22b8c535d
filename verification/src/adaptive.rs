//! Adaptive octrees: subdivision driven by a per-leaf point budget, and 2:1
//! balancing by refinement.
//!
//! The splitter walks the tree from the root, splitting any box holding more
//! than `n_crit` points until every leaf meets the budget or sits at the
//! deepest level. Balancing then repeatedly splits any leaf with an adjacent
//! leaf more than one level finer, until no such pair remains; refinement
//! only ever shrinks a leaf's point load, so the budget survives.

use vstd::prelude::*;
use vstd::arithmetic::div_mod::*;
use vstd::set_lib::{lemma_int_range, lemma_len_subset, set_int_range};
use crate::morton::{
    extent_length, lemma_aligned_below, lemma_child, lemma_contains_iff_range, lemma_pow8_16,
    lemma_pow8_adds, lemma_pow8_pos, lemma_start_aligned, pow8, root, MortonKey, DEEPEST_LEVEL,
    LEVEL_SIZE,
};
use crate::tree::{
    anchors_ok, assign_points, covered_by, encode_points, leaves_cover, leaves_tile_domain,
    leaves_wf, lemma_match_same_fields, lemma_match_through_permutation, lemma_tile_covers,
    lemma_tile_sorted, lower_bound, points_match_anchors, points_sorted, points_wf, sort_points, Point,
    SingleNodeTree,
};
use crate::morton::Anchor;
use crate::FmmError;

verus! {

/// Indices of the points whose cells lie inside box `k`.
pub open spec fn points_in_box(points: Seq<Point>, k: MortonKey) -> Set<int> {
    Set::new(|i: int| 0 <= i < points.len() && k.contains(points[i].base_key))
}

/// The leaf respects the point budget, or cannot be split further.
pub open spec fn leaf_count_ok(points: Seq<Point>, k: MortonKey, n_crit: usize) -> bool {
    (points_in_box(points, k).finite() && points_in_box(points, k).len() <= n_crit) || k.level
        == DEEPEST_LEVEL
}

/// No leaf is more than one level finer than an adjacent leaf.
pub open spec fn balanced(s: Seq<MortonKey>) -> bool {
    forall|i: int, j: int|
        0 <= i < s.len() && 0 <= j < s.len() && (#[trigger] s[i]).adjacent(#[trigger] s[j])
            ==> s[j].level <= s[i].level + 1
}

/// Number of boxes in a full octree of height `h`.
pub open spec fn subtree_size(h: nat) -> int
    decreases h,
{
    if h == 0 {
        1
    } else {
        1 + 8 * subtree_size((h - 1) as nat)
    }
}

/// A box's share of the refinement budget: the size of the full subtree
/// still below it.
pub open spec fn key_measure(k: MortonKey) -> int {
    subtree_size((DEEPEST_LEVEL - k.level) as nat)
}

/// The refinement budget of a whole work list.
pub open spec fn seq_measure(s: Seq<MortonKey>) -> int
    decreases s.len(),
{
    if s.len() == 0 {
        0
    } else {
        seq_measure(s.drop_last()) + key_measure(s.last())
    }
}

pub proof fn lemma_subtree_size_pos(h: nat)
    ensures
        subtree_size(h) >= 1,
    decreases h,
{
    if h > 0 {
        lemma_subtree_size_pos((h - 1) as nat);
    }
}

pub proof fn lemma_seq_measure_nonneg(s: Seq<MortonKey>)
    requires
        forall|t: int| 0 <= t < s.len() ==> (#[trigger] s[t]).level <= DEEPEST_LEVEL,
    ensures
        seq_measure(s) >= 0,
    decreases s.len(),
{
    if s.len() > 0 {
        lemma_seq_measure_nonneg(s.drop_last());
        lemma_subtree_size_pos((DEEPEST_LEVEL - s.last().level) as nat);
    }
}

pub proof fn lemma_seq_measure_push(s: Seq<MortonKey>, x: MortonKey)
    ensures
        seq_measure(s.push(x)) == seq_measure(s) + key_measure(x),
{
    assert(s.push(x).drop_last() =~= s);
    assert(s.push(x).last() == x);
}

/// Containment is transitive.
pub proof fn lemma_contains_transitive(a: MortonKey, b: MortonKey, c: MortonKey)
    requires
        a.wf(),
        b.wf(),
        c.wf(),
        a.contains(b),
        b.contains(c),
    ensures
        a.contains(c),
{
    lemma_contains_iff_range(a, b);
    lemma_contains_iff_range(b, c);
    lemma_contains_iff_range(a, c);
}

/// When the sweep bounds `lo` and `hi` isolate exactly the points whose
/// cells start inside `k`'s range, the box holds `hi - lo` points.
proof fn lemma_count_by_range(points: Seq<Point>, k: MortonKey, lo: int, hi: int)
    requires
        points_wf(points),
        k.wf(),
        0 <= lo <= hi <= points.len(),
        forall|t: int| 0 <= t < lo ==> (#[trigger] points[t]).base_key.start() < k.start(),
        forall|t: int| lo <= t < points.len() ==> (#[trigger] points[t]).base_key.start() >= k.start(),
        forall|t: int|
            0 <= t < hi ==> (#[trigger] points[t]).base_key.start() < k.start() + k.extent(),
        forall|t: int|
            hi <= t < points.len() ==> (#[trigger] points[t]).base_key.start() >= k.start()
                + k.extent(),
    ensures
        points_in_box(points, k) =~= set_int_range(lo, hi),
        points_in_box(points, k).finite(),
        points_in_box(points, k).len() == hi - lo,
{
    assert forall|i: int| #![auto] points_in_box(points, k).contains(i) <==> set_int_range(
        lo,
        hi,
    ).contains(i) by {
        if 0 <= i < points.len() {
            lemma_contains_iff_range(k, points[i].base_key);
        }
    }
    assert(points_in_box(points, k) =~= set_int_range(lo, hi));
    lemma_int_range(lo, hi);
}

/// Split every box holding more than `n_crit` points, starting from the
/// root. The leaves come out in Morton order and tile the domain, and each
/// respects the budget or sits at the deepest level.
#[verifier::loop_isolation(false)]
#[verifier::rlimit(100)]
pub fn adaptive_split(points: &Vec<Point>, n_crit: usize) -> (r: Vec<MortonKey>)
    requires
        points_wf(points@),
        points_sorted(points@),
        1 <= n_crit,
    ensures
        leaves_tile_domain(r@),
        leaves_wf(r@, DEEPEST_LEVEL),
        forall|j: int| 0 <= j < r@.len() ==> leaf_count_ok(points@, #[trigger] r@[j], n_crit),
{
    let mut out: Vec<MortonKey> = Vec::new();
    let mut stack: Vec<MortonKey> = Vec::new();
    let rt = root();
    stack.push(rt);
    proof {
        lemma_pow8_16();
        assert(stack@.drop_last() =~= Seq::<MortonKey>::empty());
    }
    while stack.len() > 0
        invariant
            forall|t: int| 0 <= t < stack@.len() ==> (#[trigger] stack@[t]).wf(),
            forall|j: int|
                0 <= j < out@.len() ==> (#[trigger] out@[j]).wf() && leaf_count_ok(
                    points@,
                    out@[j],
                    n_crit,
                ),
            forall|j: int|
                0 <= j < out@.len() - 1 ==> (#[trigger] out@[j]).start() + out@[j].extent()
                    == out@[j + 1].start(),
            out@.len() > 0 ==> out@[0].start() == 0,
            out@.len() == 0 && stack@.len() > 0 ==> stack@[stack@.len() - 1].start() == 0,
            out@.len() > 0 && stack@.len() > 0 ==> stack@[stack@.len() - 1].start() == out@[out@.len()
                - 1].start() + out@[out@.len() - 1].extent(),
            forall|t: int|
                0 < t < stack@.len() ==> (#[trigger] stack@[t]).start() + stack@[t].extent()
                    == stack@[t - 1].start(),
            stack@.len() > 0 ==> stack@[0].start() + stack@[0].extent() == pow8(16),
            stack@.len() == 0 ==> out@.len() > 0 && out@[out@.len() - 1].start() + out@[out@.len()
                - 1].extent() == pow8(16),
        decreases seq_measure(stack@),
    {
        let ghost stack0 = stack@;
        let b = stack[stack.len() - 1];
        let _ = stack.pop();
        proof {
            lemma_seq_measure_push(stack@, b);
            assert(stack0 =~= stack@.push(b));
            assert(seq_measure(stack0) == seq_measure(stack@) + key_measure(b));
            lemma_seq_measure_nonneg(stack@);
            lemma_subtree_size_pos((DEEPEST_LEVEL - b.level) as nat);
            lemma_start_aligned(b);
            lemma_pow8_pos((DEEPEST_LEVEL - b.level) as nat);
            assert(pow8(16) % b.extent() == 0) by {
                lemma_pow8_adds(b.level as nat, (DEEPEST_LEVEL - b.level) as nat);
                lemma_pow8_pos(b.level as nat);
                lemma_mod_multiples_basic(pow8(b.level as nat), b.extent());
            }
            lemma_aligned_below(b.start(), pow8(16), b.extent());
        }
        let s = b.start_index();
        let ext = extent_length(b.level);
        let e = s + ext;
        let lo = lower_bound(points, s);
        let hi = lower_bound(points, e);
        proof {
            if lo > hi {
                assert(points@[hi as int].base_key.start() < s);
                assert(points@[hi as int].base_key.start() >= e);
            }
        }
        if b.level == DEEPEST_LEVEL || hi - lo <= n_crit {
            proof {
                if b.level < DEEPEST_LEVEL {
                    lemma_count_by_range(points@, b, lo as int, hi as int);
                }
            }
            out.push(b);
        } else {
            let ch = b.children();
            proof {
                lemma_child(b, 0);
                lemma_child(b, 1);
                lemma_child(b, 2);
                lemma_child(b, 3);
                lemma_child(b, 4);
                lemma_child(b, 5);
                lemma_child(b, 6);
                lemma_child(b, 7);
                assert((DEEPEST_LEVEL - b.level) as nat == ((DEEPEST_LEVEL - (b.level + 1)) as nat)
                    + 1);
            }
            let ghost st0 = stack@;
            stack.push(ch[7]);
            stack.push(ch[6]);
            stack.push(ch[5]);
            stack.push(ch[4]);
            stack.push(ch[3]);
            stack.push(ch[2]);
            stack.push(ch[1]);
            stack.push(ch[0]);
            proof {
                let ce = b.child_of(0).extent();
                lemma_seq_measure_push(st0, ch@[7]);
                lemma_seq_measure_push(st0.push(ch@[7]), ch@[6]);
                lemma_seq_measure_push(st0.push(ch@[7]).push(ch@[6]), ch@[5]);
                lemma_seq_measure_push(st0.push(ch@[7]).push(ch@[6]).push(ch@[5]), ch@[4]);
                lemma_seq_measure_push(
                    st0.push(ch@[7]).push(ch@[6]).push(ch@[5]).push(ch@[4]),
                    ch@[3],
                );
                lemma_seq_measure_push(
                    st0.push(ch@[7]).push(ch@[6]).push(ch@[5]).push(ch@[4]).push(ch@[3]),
                    ch@[2],
                );
                lemma_seq_measure_push(
                    st0.push(ch@[7]).push(ch@[6]).push(ch@[5]).push(ch@[4]).push(ch@[3]).push(
                        ch@[2],
                    ),
                    ch@[1],
                );
                lemma_seq_measure_push(
                    st0.push(ch@[7]).push(ch@[6]).push(ch@[5]).push(ch@[4]).push(ch@[3]).push(
                        ch@[2],
                    ).push(ch@[1]),
                    ch@[0],
                );
                assert(seq_measure(stack@) == seq_measure(st0) + 8 * subtree_size(
                    (DEEPEST_LEVEL - (b.level + 1)) as nat,
                ));
            }
        }
    }
    proof {
        lemma_pow8_16();
    }
    out
}

/// A child of a budget-respecting box respects the budget: refinement only
/// sheds points.
proof fn lemma_child_count_ok(points: Seq<Point>, b: MortonKey, o: int, n_crit: usize)
    requires
        points_wf(points),
        b.wf(),
        b.level < DEEPEST_LEVEL,
        leaf_count_ok(points, b, n_crit),
        0 <= o < 8,
    ensures
        leaf_count_ok(points, b.child_of(o), n_crit),
{
    lemma_child(b, o);
    let c = b.child_of(o);
    assert(points_in_box(points, c).subset_of(points_in_box(points, b))) by {
        assert forall|i: int| points_in_box(points, c).contains(i) implies points_in_box(
            points,
            b,
        ).contains(i) by {
            lemma_contains_transitive(b, c, points[i].base_key);
        }
    }
    lemma_len_subset(points_in_box(points, c), points_in_box(points, b));
}

/// Append the eight children of `b` to a run of leaves ending exactly where
/// `b`'s range begins; the run then ends where `b`'s range ends, and the
/// work measure grows by one less than `b`'s own share.
#[verifier::loop_isolation(false)]
#[verifier::rlimit(100)]
fn push_children(out: &mut Vec<MortonKey>, b: MortonKey, points: &Vec<Point>, n_crit: usize)
    requires
        points_wf(points@),
        b.wf(),
        b.level < DEEPEST_LEVEL,
        leaf_count_ok(points@, b, n_crit),
        forall|j: int|
            0 <= j < old(out)@.len() ==> (#[trigger] old(out)@[j]).wf() && leaf_count_ok(
                points@,
                old(out)@[j],
                n_crit,
            ),
        forall|j: int|
            0 <= j < old(out)@.len() - 1 ==> (#[trigger] old(out)@[j]).start()
                + old(out)@[j].extent() == old(out)@[j + 1].start(),
        old(out)@.len() > 0 ==> old(out)@[old(out)@.len() - 1].start() + old(out)@[old(out)@.len()
            - 1].extent() == b.start(),
    ensures
        final(out)@.len() == old(out)@.len() + 8,
        forall|t: int| 0 <= t < old(out)@.len() ==> final(out)@[t] == old(out)@[t],
        forall|j: int|
            0 <= j < final(out)@.len() ==> (#[trigger] final(out)@[j]).wf() && leaf_count_ok(
                points@,
                final(out)@[j],
                n_crit,
            ),
        forall|j: int|
            0 <= j < final(out)@.len() - 1 ==> (#[trigger] final(out)@[j]).start()
                + final(out)@[j].extent() == final(out)@[j + 1].start(),
        final(out)@[final(out)@.len() - 1].start() + final(out)@[final(out)@.len() - 1].extent()
            == b.start() + b.extent(),
        final(out)@[0].start() == if old(out)@.len() > 0 {
            old(out)@[0].start()
        } else {
            b.start()
        },
        seq_measure(final(out)@) == seq_measure(old(out)@) + key_measure(b) - 1,
{
    let ch = b.children();
    proof {
        lemma_child(b, 0);
        lemma_child(b, 1);
        lemma_child(b, 2);
        lemma_child(b, 3);
        lemma_child(b, 4);
        lemma_child(b, 5);
        lemma_child(b, 6);
        lemma_child(b, 7);
        lemma_child_count_ok(points@, b, 0, n_crit);
        lemma_child_count_ok(points@, b, 1, n_crit);
        lemma_child_count_ok(points@, b, 2, n_crit);
        lemma_child_count_ok(points@, b, 3, n_crit);
        lemma_child_count_ok(points@, b, 4, n_crit);
        lemma_child_count_ok(points@, b, 5, n_crit);
        lemma_child_count_ok(points@, b, 6, n_crit);
        lemma_child_count_ok(points@, b, 7, n_crit);
        assert((DEEPEST_LEVEL - b.level) as nat == ((DEEPEST_LEVEL - (b.level + 1)) as nat) + 1);
    }
    let ghost o0 = out@;
    out.push(ch[0]);
    proof {
        lemma_seq_measure_push(o0, ch@[0]);
    }
    let ghost o1 = out@;
    out.push(ch[1]);
    proof {
        lemma_seq_measure_push(o1, ch@[1]);
    }
    let ghost o2 = out@;
    out.push(ch[2]);
    proof {
        lemma_seq_measure_push(o2, ch@[2]);
    }
    let ghost o3 = out@;
    out.push(ch[3]);
    proof {
        lemma_seq_measure_push(o3, ch@[3]);
    }
    let ghost o4 = out@;
    out.push(ch[4]);
    proof {
        lemma_seq_measure_push(o4, ch@[4]);
    }
    let ghost o5 = out@;
    out.push(ch[5]);
    proof {
        lemma_seq_measure_push(o5, ch@[5]);
    }
    let ghost o6 = out@;
    out.push(ch[6]);
    proof {
        lemma_seq_measure_push(o6, ch@[6]);
    }
    let ghost o7 = out@;
    out.push(ch[7]);
    proof {
        lemma_seq_measure_push(o7, ch@[7]);
    }
}

/// One balancing sweep: every leaf with an adjacent leaf at least two levels
/// finer is replaced by its eight children. When nothing changes the leaves
/// are 2:1 balanced; otherwise the work measure strictly shrinks.
#[verifier::loop_isolation(false)]
#[verifier::rlimit(100)]
fn balance_round(points: &Vec<Point>, leaves: &Vec<MortonKey>, n_crit: usize) -> (r: (
    Vec<MortonKey>,
    bool,
))
    requires
        points_wf(points@),
        leaves_tile_domain(leaves@),
        leaves_wf(leaves@, DEEPEST_LEVEL),
        forall|j: int| 0 <= j < leaves@.len() ==> leaf_count_ok(points@, #[trigger] leaves@[j], n_crit),
    ensures
        leaves_tile_domain(r.0@),
        leaves_wf(r.0@, DEEPEST_LEVEL),
        forall|j: int| 0 <= j < r.0@.len() ==> leaf_count_ok(points@, #[trigger] r.0@[j], n_crit),
        !r.1 ==> r.0@ == leaves@ && balanced(leaves@),
        r.1 ==> seq_measure(r.0@) < seq_measure(leaves@),
{
    let n = leaves.len();
    let mut out: Vec<MortonKey> = Vec::new();
    let mut changed = false;
    let mut i: usize = 0;
    while i < n
        invariant
            i <= n,
            i == 0 ==> out@.len() == 0,
            i > 0 ==> out@.len() > 0,
            forall|j: int|
                0 <= j < out@.len() ==> (#[trigger] out@[j]).wf() && out@[j].level <= DEEPEST_LEVEL
                    && leaf_count_ok(points@, out@[j], n_crit),
            forall|j: int|
                0 <= j < out@.len() - 1 ==> (#[trigger] out@[j]).start() + out@[j].extent()
                    == out@[j + 1].start(),
            out@.len() > 0 ==> out@[0].start() == 0,
            i < n && out@.len() > 0 ==> out@[out@.len() - 1].start() + out@[out@.len()
                - 1].extent() == leaves@[i as int].start(),
            i == n && out@.len() > 0 ==> out@[out@.len() - 1].start() + out@[out@.len()
                - 1].extent() == pow8(16),
            seq_measure(out@) <= seq_measure(leaves@.subrange(0, i as int)),
            changed ==> seq_measure(out@) < seq_measure(leaves@.subrange(0, i as int)),
            !changed ==> out@ == leaves@.subrange(0, i as int),
            !changed ==> forall|a: int, b: int|
                0 <= a < i && 0 <= b < n && (#[trigger] leaves@[a]).adjacent(#[trigger] leaves@[b])
                    ==> leaves@[b].level <= leaves@[a].level + 1,
        decreases n - i,
    {
        let cur = leaves[i];
        let mut viol = false;
        let mut j: usize = 0;
        while j < n
            invariant
                j <= n,
                !viol ==> forall|b: int|
                    0 <= b < j ==> !(cur.adjacent(#[trigger] leaves@[b]) && leaves@[b].level
                        >= cur.level + 2),
                viol ==> cur.level + 2 <= DEEPEST_LEVEL,
            decreases n - j,
        {
            if cur.is_adjacent(&leaves[j]) && leaves[j].level >= cur.level + 2 {
                viol = true;
            }
            j = j + 1;
        }
        let ghost pre = out@;
        let ghost prefix = leaves@.subrange(0, i as int);
        let ghost prefix1 = leaves@.subrange(0, i + 1 as int);
        proof {
            assert(prefix1.drop_last() =~= prefix);
            assert(prefix1.last() == leaves@[i as int]);
            assert(seq_measure(prefix1) == seq_measure(prefix) + key_measure(leaves@[i as int]));
            lemma_subtree_size_pos((DEEPEST_LEVEL - leaves@[i as int].level) as nat);
        }
        if viol {
            push_children(&mut out, cur, points, n_crit);
            changed = true;
            proof {
                if i + 1 < n {
                    assert(leaves@[i as int].start() + leaves@[i as int].extent() == leaves@[i
                        + 1].start());
                }
            }
        } else {
            out.push(cur);
            proof {
                lemma_seq_measure_push(pre, cur);
                if !changed {
                    assert(out@ =~= leaves@.subrange(0, i + 1 as int));
                }
                if i + 1 < n {
                    assert(leaves@[i as int].start() + leaves@[i as int].extent() == leaves@[i
                        + 1].start());
                }
            }
        }
        i = i + 1;
    }
    proof {
        assert(leaves@.subrange(0, n as int) =~= leaves@);
        if !changed {
            assert(out@ == leaves@);
        }
    }
    (out, changed)
}

/// Split leaves until the 2:1 balance condition holds: no leaf has an
/// adjacent leaf more than one level finer. The leaves still tile the
/// domain and still respect the point budget.
#[verifier::loop_isolation(false)]
pub fn balance(points: &Vec<Point>, leaves: Vec<MortonKey>, n_crit: usize) -> (r: Vec<MortonKey>)
    requires
        points_wf(points@),
        leaves_tile_domain(leaves@),
        leaves_wf(leaves@, DEEPEST_LEVEL),
        forall|j: int| 0 <= j < leaves@.len() ==> leaf_count_ok(points@, #[trigger] leaves@[j], n_crit),
    ensures
        leaves_tile_domain(r@),
        leaves_wf(r@, DEEPEST_LEVEL),
        forall|j: int| 0 <= j < r@.len() ==> leaf_count_ok(points@, #[trigger] r@[j], n_crit),
        balanced(r@),
{
    let mut cur = leaves;
    loop
        invariant
            points_wf(points@),
            leaves_tile_domain(cur@),
            leaves_wf(cur@, DEEPEST_LEVEL),
            forall|j: int| 0 <= j < cur@.len() ==> leaf_count_ok(points@, #[trigger] cur@[j], n_crit),
        decreases seq_measure(cur@),
    {
        proof {
            lemma_seq_measure_nonneg(cur@);
        }
        let (next, changed) = balance_round(points, &cur, n_crit);
        if !changed {
            return next;
        }
        proof {
            lemma_seq_measure_nonneg(next@);
        }
        cur = next;
    }
}

/// Law: in a balanced tree the relation is symmetric in both directions:
/// two adjacent leaves differ by at most one level either way.
pub proof fn lemma_two_to_one_balance(s: Seq<MortonKey>, i: int, j: int)
    requires
        balanced(s),
        0 <= i < s.len(),
        0 <= j < s.len(),
        s[i].adjacent(s[j]),
    ensures
        s[j].level <= s[i].level + 1,
        s[i].level <= s[j].level + 1,
{
    assert(s[j].adjacent(s[i]));
}

/// Replacing per-point leaf assignments does not change which points lie in
/// a box: only the cells matter.
proof fn lemma_points_in_box_same_cells(a: Seq<Point>, b: Seq<Point>, k: MortonKey)
    requires
        a.len() == b.len(),
        forall|t: int| 0 <= t < b.len() ==> (#[trigger] b[t]).base_key == a[t].base_key,
    ensures
        points_in_box(b, k) =~= points_in_box(a, k),
{
    assert forall|i: int| #![auto] points_in_box(b, k).contains(i) <==> points_in_box(
        a,
        k,
    ).contains(i) by {}
}

/// Reassigning leaves to points changes neither which leaf covers a point
/// nor any leaf's point load: both depend on the cells alone.
proof fn lemma_assignment_keeps_facts(
    sorted: Seq<Point>,
    points: Seq<Point>,
    bal: Seq<MortonKey>,
    n_crit: usize,
)
    requires
        sorted.len() == points.len(),
        forall|k: int|
            0 <= k < points.len() ==> (#[trigger] points[k]).base_key == sorted[k].base_key,
        leaves_cover(sorted, bal),
        forall|j: int| 0 <= j < bal.len() ==> leaf_count_ok(sorted, #[trigger] bal[j], n_crit),
    ensures
        leaves_cover(points, bal),
        forall|j: int| 0 <= j < bal.len() ==> leaf_count_ok(points, #[trigger] bal[j], n_crit),
{
    assert forall|i: int| 0 <= i < points.len() implies covered_by(#[trigger] points[i], bal) by {
        assert(covered_by(sorted[i], bal));
        let j = choose|j: int| 0 <= j < bal.len() && (#[trigger] bal[j]).contains(sorted[i].base_key);
        assert(bal[j].contains(points[i].base_key));
    }
    assert forall|j: int| 0 <= j < bal.len() implies leaf_count_ok(
        points,
        #[trigger] bal[j],
        n_crit,
    ) by {
        lemma_points_in_box_same_cells(sorted, points, bal[j]);
    }
}

impl SingleNodeTree {
    /// Build an adaptive tree: split any box holding more than `n_crit`
    /// points, then enforce the 2:1 balance by further refinement. The
    /// leaves tile the domain; every leaf meets the budget or sits at the
    /// deepest level.
    #[verifier::loop_isolation(false)]
    #[verifier::spinoff_prover]
    #[verifier::rlimit(100)]
    pub fn adaptive_tree(anchors: &Vec<Anchor>, n_crit: usize) -> (r: SingleNodeTree)
        requires
            1 <= anchors@.len(),
            anchors_ok(anchors@),
            1 <= n_crit,
        ensures
            r.wf(),
            r.adaptive,
            points_match_anchors(r.points@, anchors@),
            leaves_tile_domain(r.leaves@),
            balanced(r.leaves@),
            forall|j: int|
                0 <= j < r.leaves@.len() ==> leaf_count_ok(r.points@, #[trigger] r.leaves@[j], n_crit),
    {
        let encoded = encode_points(anchors);
        let sorted = sort_points(encoded);
        proof {
            lemma_match_through_permutation(encoded@, sorted@, anchors@);
        }
        let split = adaptive_split(&sorted, n_crit);
        let bal = balance(&sorted, split, n_crit);
        let mut depth: u64 = 0;
        let mut t: usize = 0;
        while t < bal.len()
            invariant
                t <= bal@.len(),
                depth <= DEEPEST_LEVEL,
                forall|j: int| 0 <= j < t ==> (#[trigger] bal@[j]).level <= depth,
            decreases bal@.len() - t,
        {
            proof {
                assert(bal@[t as int].wf() && bal@[t as int].level <= DEEPEST_LEVEL);
            }
            if bal[t].level > depth {
                depth = bal[t].level;
            }
            t = t + 1;
        }
        proof {
            lemma_tile_covers(sorted@, bal@);
            lemma_tile_sorted(bal@);
            assert(leaves_wf(bal@, depth));
        }
        let (points, ranges) = assign_points(&sorted, &bal);
        proof {
            lemma_match_same_fields(sorted@, points@, anchors@);
            lemma_assignment_keeps_facts(sorted@, points@, bal@, n_crit);
        }
        SingleNodeTree { points, leaves: bal, leaf_to_points: ranges, depth, adaptive: true }
    }

    /// Build a tree from deepest-grid anchors. An empty input is rejected as
    /// `NoPoints`; an anchor off the grid or a zero point budget or an
    /// inexpressible depth is rejected as `InvalidConfig`. Defaults: a
    /// budget of 150 points per leaf and a uniform depth equal to the
    /// deepest level.
    pub fn new(
        anchors: &Vec<Anchor>,
        adaptive: bool,
        n_crit: Option<usize>,
        depth: Option<u64>,
        sparse: bool,
    ) -> (r: Result<SingleNodeTree, FmmError>)
        ensures
            anchors@.len() == 0 ==> r == Result::<SingleNodeTree, FmmError>::Err(
                FmmError::NoPoints,
            ),
            anchors@.len() > 0 && !(anchors_ok(anchors@) && opt_n_crit(n_crit) >= 1 && opt_depth(
                depth,
            ) <= DEEPEST_LEVEL) ==> r == Result::<SingleNodeTree, FmmError>::Err(
                FmmError::InvalidConfig,
            ),
            anchors@.len() > 0 && anchors_ok(anchors@) && opt_n_crit(n_crit) >= 1 && opt_depth(
                depth,
            ) <= DEEPEST_LEVEL ==> r is Ok,
            r matches Ok(tr) ==> tr.wf() && tr.adaptive == adaptive && points_match_anchors(
                tr.points@,
                anchors@,
            ),
            adaptive ==> (r matches Ok(tr) ==> balanced(tr.leaves@) && leaves_tile_domain(
                tr.leaves@,
            ) && forall|j: int|
                0 <= j < tr.leaves@.len() ==> leaf_count_ok(
                    tr.points@,
                    #[trigger] tr.leaves@[j],
                    opt_n_crit(n_crit),
                )),
            !adaptive ==> (r matches Ok(tr) ==> tr.depth == opt_depth(depth) && forall|i: int|
                0 <= i < tr.leaves@.len() ==> (#[trigger] tr.leaves@[i]).level == opt_depth(depth)),
    {
        if anchors.len() == 0 {
            return Err(FmmError::NoPoints);
        }
        let nc = match n_crit {
            Some(v) => v,
            None => 150,
        };
        let d = match depth {
            Some(v) => v,
            None => DEEPEST_LEVEL,
        };
        let mut ok = true;
        let mut i: usize = 0;
        while i < anchors.len()
            invariant
                i <= anchors@.len(),
                ok <==> forall|j: int|
                    0 <= j < i ==> (#[trigger] anchors@[j]).x < LEVEL_SIZE && anchors@[j].y
                        < LEVEL_SIZE && anchors@[j].z < LEVEL_SIZE,
            decreases anchors@.len() - i,
        {
            if !(anchors[i].x < LEVEL_SIZE && anchors[i].y < LEVEL_SIZE && anchors[i].z
                < LEVEL_SIZE) {
                ok = false;
            }
            i = i + 1;
        }
        if !(ok && nc >= 1 && d <= DEEPEST_LEVEL) {
            return Err(FmmError::InvalidConfig);
        }
        if adaptive {
            Ok(SingleNodeTree::adaptive_tree(anchors, nc))
        } else {
            Ok(SingleNodeTree::uniform_tree(anchors, d, sparse))
        }
    }
}

/// The point budget actually used: the caller's, or 150.
pub open spec fn opt_n_crit(n_crit: Option<usize>) -> usize {
    match n_crit {
        Some(v) => v,
        None => 150,
    }
}

/// The uniform depth actually used: the caller's, or the deepest level.
pub open spec fn opt_depth(depth: Option<u64>) -> u64 {
    match depth {
        Some(v) => v,
        None => DEEPEST_LEVEL,
    }
}

} // verus!
