//! The two-pass evaluation schedule of the FMM driver.
//!
//! The driver's only decisions are which translation operator to run next
//! and at which level; the operators themselves are numerical work. The
//! schedule is therefore computed here as data: the upward pass seeds the
//! multipoles and merges them bottom-up, the downward pass pushes local
//! expansions top-down while folding in the far field level by level, and
//! the leaf passes finish with the near field. Adaptive trees add the
//! point-to-local and multipole-to-point sweeps.

use vstd::prelude::*;

verus! {

/// One step of the evaluation: a translation operator, with its level where
/// the operator acts per level.
#[derive(Clone, Copy, Debug, PartialEq, Eq, Structural)]
pub enum FmmOp {
    /// Charges to multipole expansions, over the leaves.
    P2M,
    /// Multipoles merged into the parent level.
    M2M { level: u64 },
    /// Locals pushed down to the children at this level.
    L2L { level: u64 },
    /// Source points folded into locals at this level.
    P2L { level: u64 },
    /// Far-field multipoles folded into locals at this level.
    M2L { level: u64 },
    /// Multipoles of the W lists evaluated at leaf points.
    M2P,
    /// Near-field direct summation over the leaves.
    P2P,
    /// Locals evaluated at the leaf points.
    L2P,
}

/// The upward pass: seed the leaf multipoles, then merge multipoles upward
/// from the deepest level to level 1.
pub open spec fn upward_schedule(depth: u64) -> Seq<FmmOp> {
    seq![FmmOp::P2M] + Seq::new(depth as nat, |i: int| FmmOp::M2M { level: (depth - i) as u64 })
}

/// The per-level block of the downward pass: inherit the parent's local
/// below level 2, fold in the X-list sources on adaptive trees, then the
/// far field.
pub open spec fn level_block(level: u64, adaptive: bool) -> Seq<FmmOp> {
    (if level > 2 {
        seq![FmmOp::L2L { level }]
    } else {
        Seq::empty()
    }) + (if adaptive {
        seq![FmmOp::P2L { level }]
    } else {
        Seq::empty()
    }) + seq![FmmOp::M2L { level }]
}

/// The downward pass over levels 2 through `depth`, top-down.
pub open spec fn downward_schedule(depth: u64, adaptive: bool) -> Seq<FmmOp>
    decreases depth,
{
    if depth < 2 {
        Seq::empty()
    } else {
        downward_schedule((depth - 1) as u64, adaptive) + level_block(depth, adaptive)
    }
}

/// The whole evaluation: both passes, then the leaf-level operators, with
/// the W-list sweep only on adaptive trees.
pub open spec fn full_schedule(depth: u64, adaptive: bool) -> Seq<FmmOp> {
    upward_schedule(depth) + downward_schedule(depth, adaptive) + (if adaptive {
        seq![FmmOp::M2P]
    } else {
        Seq::empty()
    }) + seq![FmmOp::P2P, FmmOp::L2P]
}

/// Compute the operator schedule for a tree of the given depth.
#[verifier::loop_isolation(false)]
pub fn schedule(depth: u64, adaptive: bool) -> (r: Vec<FmmOp>)
    requires
        depth <= 16,
    ensures
        r@ == full_schedule(depth, adaptive),
{
    let mut r: Vec<FmmOp> = Vec::new();
    r.push(FmmOp::P2M);
    let mut l: u64 = depth;
    proof {
        assert(r@ =~= seq![FmmOp::P2M] + Seq::new(0, |i: int| FmmOp::M2M {
            level: (depth - i) as u64,
        }));
    }
    while l >= 1
        invariant
            l <= depth,
            r@ == seq![FmmOp::P2M] + Seq::new(
                (depth - l) as nat,
                |i: int| FmmOp::M2M { level: (depth - i) as u64 },
            ),
        decreases l,
    {
        r.push(FmmOp::M2M { level: l });
        proof {
            assert(r@ =~= seq![FmmOp::P2M] + Seq::new(
                (depth - (l - 1)) as nat,
                |i: int| FmmOp::M2M { level: (depth - i) as u64 },
            ));
        }
        l = l - 1;
    }
    proof {
        assert(r@ == upward_schedule(depth));
        assert(r@ =~= upward_schedule(depth) + downward_schedule(1, adaptive));
    }
    let mut l: u64 = 2;
    while l <= depth
        invariant
            2 <= l,
            depth >= 2 ==> l <= depth + 1,
            depth < 2 ==> l == 2,
            r@ == upward_schedule(depth) + downward_schedule((l - 1) as u64, adaptive),
        decreases depth + 1 - l,
    {
        let ghost r0 = r@;
        if l > 2 {
            r.push(FmmOp::L2L { level: l });
        }
        if adaptive {
            r.push(FmmOp::P2L { level: l });
        }
        r.push(FmmOp::M2L { level: l });
        proof {
            assert(r@ =~= r0 + level_block(l, adaptive));
            assert(downward_schedule(l, adaptive) == downward_schedule((l - 1) as u64, adaptive)
                + level_block(l, adaptive));
            assert(r@ =~= upward_schedule(depth) + downward_schedule(l, adaptive));
        }
        l = l + 1;
    }
    proof {
        assert(r@ == upward_schedule(depth) + downward_schedule(depth, adaptive)) by {
            if depth < 2 {
                assert(downward_schedule(1, adaptive) =~= downward_schedule(depth, adaptive));
            }
        }
    }
    let ghost r1 = r@;
    if adaptive {
        r.push(FmmOp::M2P);
    }
    r.push(FmmOp::P2P);
    r.push(FmmOp::L2P);
    proof {
        assert(r@ =~= r1 + (if adaptive {
            seq![FmmOp::M2P]
        } else {
            Seq::<FmmOp>::empty()
        }) + seq![FmmOp::P2P, FmmOp::L2P]);
    }
    r
}

} // verus!