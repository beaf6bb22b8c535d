//! Equivalent-surface combinatorics and expansion metadata.
//!
//! An expansion of order `p` stores one coefficient per grid point on the
//! surface of a `p` by `p` by `p` cube: `6(p-1)^2 + 2` of them. This module
//! holds that count, the enumeration of the surface grid in index space
//! (scaling the indices onto a concrete box is a task for the numerical
//! layer), and the per-box expansion metadata.

use vstd::prelude::*;
use crate::FmmError;

verus! {

/// Number of grid points on the surface of a `p^3` cube: `6(p-1)^2 + 2`.
pub open spec fn ncoeffs_spec(expansion_order: int) -> int {
    6 * (expansion_order - 1) * (expansion_order - 1) + 2
}

/// Stepping a product: one more block of size `b`.
proof fn lemma_mul_step(a: int, b: int)
    ensures
        (a + 1) * b == a * b + b,
{
    assert((a + 1) * b == a * b + b) by (nonlinear_arith);
}

/// Number of coefficients of an expansion of the given order.
pub fn ncoeffs(expansion_order: usize) -> (r: usize)
    requires
        2 <= expansion_order,
        ncoeffs_spec(expansion_order as int) <= usize::MAX,
    ensures
        r == ncoeffs_spec(expansion_order as int),
{
    proof {
        assert(6 * (expansion_order - 1) <= 6 * (expansion_order - 1) * (expansion_order - 1))
            by (nonlinear_arith)
            requires
                expansion_order >= 2,
        ;
    }
    6 * (expansion_order - 1) * (expansion_order - 1) + 2
}

/// A grid index lies on the surface of the `p^3` cube: some coordinate is
/// extremal.
pub open spec fn on_surface(t: (usize, usize, usize), p: int) -> bool {
    &&& t.0 < p && t.1 < p && t.2 < p
    &&& (t.0 == 0 || t.0 == p - 1 || t.1 == 0 || t.1 == p - 1 || t.2 == 0 || t.2 == p - 1)
}

/// Row-major position of a grid index.
pub open spec fn flat_index(t: (usize, usize, usize), p: int) -> int {
    t.0 * p * p + t.1 * p + t.2
}

/// Enumerate the surface grid of a cube of `expansion_order` points per
/// side, in row-major order. Exactly the `6(p-1)^2 + 2` surface indices
/// come out, each once; an order below 2 is rejected as `InvalidOrder`.
#[verifier::loop_isolation(false)]
#[verifier::rlimit(100)]
pub fn surface_grid_indices(expansion_order: usize) -> (r: Result<
    Vec<(usize, usize, usize)>,
    FmmError,
>)
    requires
        expansion_order * expansion_order * expansion_order <= usize::MAX,
    ensures
        expansion_order < 2 ==> r == Result::<Vec<(usize, usize, usize)>, FmmError>::Err(
            FmmError::InvalidOrder,
        ),
        expansion_order >= 2 ==> r is Ok,
        r matches Ok(v) ==> v@.len() == ncoeffs_spec(expansion_order as int),
        r matches Ok(v) ==> forall|t: int|
            0 <= t < v@.len() ==> on_surface(#[trigger] v@[t], expansion_order as int),
        r matches Ok(v) ==> forall|a: int, b: int|
            0 <= a < b < v@.len() ==> flat_index(#[trigger] v@[a], expansion_order as int)
                < flat_index(#[trigger] v@[b], expansion_order as int),
{
    if expansion_order < 2 {
        return Err(FmmError::InvalidOrder);
    }
    let p = expansion_order;
    let mut v: Vec<(usize, usize, usize)> = Vec::new();
    let mut i: usize = 0;
    while i < p
        invariant
            2 <= p,
            p * p * p <= usize::MAX,
            i <= p,
            i == 0 ==> v@.len() == 0,
            1 <= i <= p - 1 ==> v@.len() == p * p + (i - 1) * (4 * p - 4),
            i == p ==> v@.len() == 2 * p * p + (p - 2) * (4 * p - 4),
            forall|t: int| 0 <= t < v@.len() ==> on_surface(#[trigger] v@[t], p as int),
            forall|t: int|
                0 <= t < v@.len() ==> flat_index(#[trigger] v@[t], p as int) < i * p * p,
            forall|a: int, b: int|
                0 <= a < b < v@.len() ==> flat_index(#[trigger] v@[a], p as int) < flat_index(
                    #[trigger] v@[b],
                    p as int,
                ),
        decreases p - i,
    {
        let ghost base: int = v@.len() as int;
        proof {
            assert(i == 0 ==> base == 0);
            assert(1 <= i <= p - 1 ==> base == p * p + (i - 1) * (4 * p - 4));
        }
        if i == 0 || i == p - 1 {
            // a full face
            let mut j: usize = 0;
            while j < p
                invariant
                    i < p,
                    j <= p,
                    v@.len() == base + j * p,
                    forall|t: int| 0 <= t < v@.len() ==> on_surface(#[trigger] v@[t], p as int),
                    forall|t: int|
                        0 <= t < v@.len() ==> flat_index(#[trigger] v@[t], p as int) < i * p * p + j
                            * p,
                    forall|a: int, b: int|
                        0 <= a < b < v@.len() ==> flat_index(#[trigger] v@[a], p as int)
                            < flat_index(#[trigger] v@[b], p as int),
                decreases p - j,
            {
                let mut k: usize = 0;
                while k < p
                    invariant
                        i < p,
                        j < p,
                        k <= p,
                        v@.len() == base + j * p + k,
                        forall|t: int| 0 <= t < v@.len() ==> on_surface(#[trigger] v@[t], p as int),
                        forall|t: int|
                            0 <= t < v@.len() ==> flat_index(#[trigger] v@[t], p as int) < i * p * p
                                + j * p + k,
                        forall|a: int, b: int|
                            0 <= a < b < v@.len() ==> flat_index(#[trigger] v@[a], p as int)
                                < flat_index(#[trigger] v@[b], p as int),
                    decreases p - k,
                {
                    v.push((i, j, k));
                    k = k + 1;
                }
                proof {
                    lemma_mul_step(j as int, p as int);
                }
                j = j + 1;
            }
        } else {
            // a ring: the two extremal rows whole, two cells of each other row
            let mut j: usize = 0;
            while j < p
                invariant
                    1 <= i < p - 1,
                    j <= p,
                    j == 0 ==> v@.len() == base,
                    1 <= j <= p - 1 ==> v@.len() == base + p + (j - 1) * 2,
                    j == p ==> v@.len() == base + 2 * p + (p - 2) * 2,
                    forall|t: int| 0 <= t < v@.len() ==> on_surface(#[trigger] v@[t], p as int),
                    forall|t: int|
                        0 <= t < v@.len() ==> flat_index(#[trigger] v@[t], p as int) < i * p * p + j
                            * p,
                    forall|a: int, b: int|
                        0 <= a < b < v@.len() ==> flat_index(#[trigger] v@[a], p as int)
                            < flat_index(#[trigger] v@[b], p as int),
                decreases p - j,
            {
                let ghost rbase: int = v@.len() as int;
                proof {
                    assert(j == 0 ==> rbase == base);
                    assert(1 <= j <= p - 1 ==> rbase == base + p + (j - 1) * 2);
                }
                if j == 0 || j == p - 1 {
                    let mut k: usize = 0;
                    while k < p
                        invariant
                            1 <= i < p - 1,
                            j == 0 || j == p - 1,
                            j < p,
                            k <= p,
                            v@.len() == rbase + k,
                            forall|t: int|
                                0 <= t < v@.len() ==> on_surface(#[trigger] v@[t], p as int),
                            forall|t: int|
                                0 <= t < v@.len() ==> flat_index(#[trigger] v@[t], p as int) < i * p
                                    * p + j * p + k,
                            forall|a: int, b: int|
                                0 <= a < b < v@.len() ==> flat_index(#[trigger] v@[a], p as int)
                                    < flat_index(#[trigger] v@[b], p as int),
                        decreases p - k,
                    {
                        v.push((i, j, k));
                        k = k + 1;
                    }
                } else {
                    v.push((i, j, 0));
                    v.push((i, j, p - 1));
                }
                proof {
                    lemma_mul_step(j as int, p as int);
                }
                j = j + 1;
            }
        }
        proof {
            lemma_mul_step(i as int, (p * p) as int);
            assert((i as int + 1) * ((p * p) as int) == (i as int + 1) * (p as int) * (p as int))
                by (nonlinear_arith);
            assert((i as int) * ((p * p) as int) == (i as int) * (p as int) * (p as int))
                by (nonlinear_arith);
            if 1 <= i < p - 1 {
                lemma_mul_step((i - 1) as int, (4 * p - 4) as int);
            }
            if i == p - 1 && i >= 1 {
                assert((i as int - 1) * (4 * (p as int) - 4) == ((p as int) - 2) * (4 * (
                p as int) - 4)) by (nonlinear_arith)
                    requires
                        i == p - 1,
                ;
                assert(2 * (p as int) * (p as int) == (p as int) * (p as int) + (p as int) * (
                p as int)) by (nonlinear_arith);
            }
        }
        i = i + 1;
    }
    proof {
        assert(v@.len() == 2 * p * p + (p - 2) * (4 * p - 4));
        assert(2 * (p as int) * (p as int) + ((p as int) - 2) * (4 * (p as int) - 4)
            == ncoeffs_spec(p as int)) by (nonlinear_arith);
    }
    Ok(v)
}

/// Which expansion layout a box's data uses.
pub enum NodeType {
    /// Minimal layout with a single unit field.
    Default,
    /// Fast-multipole layout: a multipole and a local expansion.
    Fmm,
}

/// Per-box expansion metadata: the length of each stored field and the
/// offset where it starts in the box's coefficient buffer.
#[derive(Clone, Debug, PartialEq, Eq)]
pub struct NodeData {
    /// Length of each stored field.
    pub field_size: Vec<usize>,
    /// Start offset of each stored field.
    pub displacement: Vec<usize>,
}

impl NodeData {
    /// Metadata for the chosen layout.
    pub fn new(node_type: NodeType) -> (r: NodeData)
        ensures
            r.field_size@.len() >= 1,
            r.field_size@.len() == r.displacement@.len(),
    {
        match node_type {
            NodeType::Default => NodeData::default_data(),
            NodeType::Fmm => NodeData::fmm_data(),
        }
    }

    /// Minimal layout: one unit field at offset zero.
    pub fn default_data() -> (r: NodeData)
        ensures
            r.field_size@ == seq![1usize],
            r.displacement@ == seq![0usize],
    {
        let mut field_size: Vec<usize> = Vec::new();
        field_size.push(1);
        let mut displacement: Vec<usize> = Vec::new();
        displacement.push(0);
        proof {
            assert(field_size@ =~= seq![1usize]);
            assert(displacement@ =~= seq![0usize]);
        }
        NodeData { field_size, displacement }
    }

    /// Fast-multipole layout: two equal fields, laid out back to back.
    pub fn fmm_data() -> (r: NodeData)
        ensures
            r.field_size@ == seq![1usize, 1usize],
            r.displacement@ == seq![0usize, 1usize],
    {
        let mut field_size: Vec<usize> = Vec::new();
        field_size.push(1);
        field_size.push(1);
        let mut displacement: Vec<usize> = Vec::new();
        displacement.push(0);
        displacement.push(1);
        proof {
            assert(field_size@ =~= seq![1usize, 1usize]);
            assert(displacement@ =~= seq![0usize, 1usize]);
        }
        NodeData { field_size, displacement }
    }

    /// Size both expansions for the given order: each field holds one
    /// coefficient per surface point, the second displaced past the first.
    pub fn set_expansion_order(&mut self, order: usize)
        requires
            2 <= order,
            ncoeffs_spec(order as int) <= usize::MAX,
        ensures
            final(self).field_size@ == seq![
                ncoeffs_spec(order as int) as usize,
                ncoeffs_spec(order as int) as usize,
            ],
            final(self).displacement@ == seq![0usize, ncoeffs_spec(order as int) as usize],
    {
        let nc = ncoeffs(order);
        let mut field_size: Vec<usize> = Vec::new();
        field_size.push(nc);
        field_size.push(nc);
        let mut displacement: Vec<usize> = Vec::new();
        displacement.push(0);
        displacement.push(nc);
        proof {
            assert(field_size@ =~= seq![
                ncoeffs_spec(order as int) as usize,
                ncoeffs_spec(order as int) as usize,
            ]);
            assert(displacement@ =~= seq![0usize, ncoeffs_spec(order as int) as usize]);
        }
        self.field_size = field_size;
        self.displacement = displacement;
    }

    /// Recover the expansion order from the first field's size: the inverse
    /// of `set_expansion_order`, rounding down for sizes that are not exact
    /// coefficient counts.
    pub fn get_expansion_order(&self) -> (r: usize)
        requires
            self.field_size@.len() >= 1,
        ensures
            self.field_size@[0] >= 2 ==> {
                let s = ((self.field_size@[0] - 2) / 6) as int;
                r >= 1 && ((r - 1) * (r - 1) <= s) && (r * r > s)
            },
            forall|order: int|
                2 <= order && self.field_size@[0] == ncoeffs_spec(order) ==> r == order,
    {
        let fs = self.field_size[0];
        if fs < 2 {
            return 0;
        }
        proof {
            assert(((fs - 2) / 6) as int <= (usize::MAX - 2) / 6) by {
                vstd::arithmetic::div_mod::lemma_div_is_ordered((fs - 2) as int, (usize::MAX - 2) as int, 6);
            }
        }
        let s: u64 = ((fs - 2) / 6) as u64;
        // integer square root of s, plus one
        let mut q: u64 = 1;
        while q * q <= s
            invariant
                1 <= q,
                q <= s + 1,
                (q - 1) * (q - 1) <= s,
                q * q <= 2 * (s as int) + 2,
                s <= u64::MAX / 6,
            decreases s + 1 - q,
        {
            proof {
                assert(q * q <= s ==> q + 1 <= s + 1) by (nonlinear_arith)
                    requires
                        q >= 1,
                ;
                assert((q + 1) * (q + 1) <= 2 * (s as int) + 2) by (nonlinear_arith)
                    requires
                        q * q <= s,
                        q >= 1,
                ;
            }
            q = q + 1;
        }
        proof {
            assert forall|order: int|
                2 <= order && self.field_size@[0] == ncoeffs_spec(order) implies q == order by {
                assert(s == (order - 1) * (order - 1)) by (nonlinear_arith)
                    requires
                        fs == 6 * (order - 1) * (order - 1) + 2,
                        s == (fs - 2) / 6,
                        order >= 2,
                ;
                assert((q - 1) * (q - 1) <= (order - 1) * (order - 1) && q * q > (order - 1) * (
                order - 1));
                assert(q == order) by (nonlinear_arith)
                    requires
                        (q - 1) * (q - 1) <= (order - 1) * (order - 1),
                        q * q > (order - 1) * (order - 1),
                        q >= 1,
                        order >= 2,
                ;
            }
        }
        q as usize
    }
}

} // verus!