//! Morton key codec for the octree.
//!
//! A key names one box of a 3D octree over a cubic domain. The box at level
//! `l` (0 is the root, 16 the deepest level) has an *anchor*: the integer
//! grid coordinates of its lower corner on the deepest grid of `2^16` cells
//! per axis, each coordinate a multiple of the box side `2^(16 - l)`.
//!
//! The codec orders boxes along the Morton (Z-order) curve: interleaving the
//! three 16-bit anchor coordinates gives a 48-bit index, and the deepest
//! descendants of any box occupy a contiguous index range. All structural
//! reasoning in the crate (ancestors, overlap, coverage) is carried out over
//! these ranges.

use vstd::prelude::*;
use vstd::arithmetic::div_mod::*;
use vstd::arithmetic::mul::*;
use vstd::arithmetic::power2::*;

verus! {

/// Deepest level the codec can express.
pub const DEEPEST_LEVEL: u64 = 16;

/// Grid cells per axis at the deepest level: `2^16`.
pub const LEVEL_SIZE: u64 = 65536;

/// Interleave the low `n` bits of `x`, `y` and `z` into a base-8 digit
/// string, least-significant digit first: digit `i` is built from bit `i` of
/// each coordinate, with `x` contributing the high bit of the digit.
pub open spec fn ilv(x: int, y: int, z: int, n: nat) -> int
    decreases n,
{
    if n == 0 {
        0
    } else {
        4 * (x % 2) + 2 * (y % 2) + (z % 2) + 8 * ilv(x / 2, y / 2, z / 2, (n - 1) as nat)
    }
}

/// `8^e`, the number of boxes a box splits into after `e` rounds of octant
/// subdivision.
pub open spec fn pow8(e: nat) -> int
    decreases e,
{
    if e == 0 {
        1
    } else {
        8 * pow8((e - 1) as nat)
    }
}

pub proof fn lemma_pow8_pos(e: nat)
    ensures
        pow8(e) >= 1,
    decreases e,
{
    if e > 0 {
        lemma_pow8_pos((e - 1) as nat);
    }
}

pub proof fn lemma_pow8_adds(a: nat, b: nat)
    ensures
        pow8(a + b) == pow8(a) * pow8(b),
    decreases a,
{
    if a == 0 {
        assert(pow8(b) == 1 * pow8(b)) by (nonlinear_arith);
    } else {
        lemma_pow8_adds((a - 1) as nat, b);
        assert(8 * (pow8((a - 1) as nat) * pow8(b)) == (8 * pow8((a - 1) as nat)) * pow8(b))
            by (nonlinear_arith);
    }
}

/// `8^16 == 2^48`: the number of deepest-level boxes.
pub proof fn lemma_pow8_16()
    ensures
        pow8(16) == 0x1000000000000,
{
    reveal_with_fuel(pow8, 17);
}

/// The interleave of any triple over `n` bits is a nonnegative number below
/// `8^n`.
pub proof fn lemma_ilv_bound(x: int, y: int, z: int, n: nat)
    requires
        0 <= x,
        0 <= y,
        0 <= z,
    ensures
        0 <= ilv(x, y, z, n) < pow8(n),
    decreases n,
{
    if n > 0 {
        lemma_ilv_bound(x / 2, y / 2, z / 2, (n - 1) as nat);
        let d = 4 * (x % 2) + 2 * (y % 2) + (z % 2);
        let r = ilv(x / 2, y / 2, z / 2, (n - 1) as nat);
        assert(0 <= d <= 7);
        assert(d + 8 * r < pow8(n)) by (nonlinear_arith)
            requires
                0 <= d <= 7,
                0 <= r < pow8((n - 1) as nat),
                pow8(n) == 8 * pow8((n - 1) as nat),
        ;
    }
}

/// Splitting an interleave at bit `m`: the low `m` digits come from the low
/// `m` bits of each coordinate, the rest from the shifted coordinates.
pub proof fn lemma_ilv_split(x: int, y: int, z: int, m: nat, n: nat)
    requires
        0 <= x,
        0 <= y,
        0 <= z,
        m <= n,
    ensures
        ilv(x, y, z, n) == ilv(x, y, z, m) + pow8(m) * ilv(
            x / pow2(m) as int,
            y / pow2(m) as int,
            z / pow2(m) as int,
            (n - m) as nat,
        ),
    decreases m,
{
    lemma_pow2_pos(m);
    if m == 0 {
        assert(pow2(0) == 1) by {
            lemma2_to64();
        }
        assert(x / 1 == x && y / 1 == y && z / 1 == z) by {
            lemma_div_basics(x);
            lemma_div_basics(y);
            lemma_div_basics(z);
        }
        assert(pow8(0) * ilv(x, y, z, n) == ilv(x, y, z, n)) by (nonlinear_arith)
            requires
                pow8(0) == 1,
        ;
    } else {
        let m1 = (m - 1) as nat;
        lemma_ilv_split(x / 2, y / 2, z / 2, m1, (n - 1) as nat);
        lemma_pow2_unfold(m);
        lemma_pow2_pos(m1);
        // (x / 2) / 2^(m-1) == x / 2^m
        assert((x / 2) / pow2(m1) as int == x / pow2(m) as int) by {
            lemma_div_denominator(x, 2, pow2(m1) as int);
            assert(2 * pow2(m1) == pow2(m));
        }
        assert((y / 2) / pow2(m1) as int == y / pow2(m) as int) by {
            lemma_div_denominator(y, 2, pow2(m1) as int);
            assert(2 * pow2(m1) == pow2(m));
        }
        assert((z / 2) / pow2(m1) as int == z / pow2(m) as int) by {
            lemma_div_denominator(z, 2, pow2(m1) as int);
            assert(2 * pow2(m1) == pow2(m));
        }
        let hi = ilv(x / pow2(m) as int, y / pow2(m) as int, z / pow2(m) as int, (n - m) as nat);
        let lo1 = ilv(x / 2, y / 2, z / 2, m1);
        assert(8 * (lo1 + pow8(m1) * hi) == 8 * lo1 + pow8(m) * hi) by (nonlinear_arith)
            requires
                pow8(m) == 8 * pow8(m1),
        ;
    }
}

/// If each coordinate is a multiple of `2^m`, the low `m` interleave digits
/// vanish.
pub proof fn lemma_ilv_low_zero(x: int, y: int, z: int, m: nat)
    requires
        0 <= x,
        0 <= y,
        0 <= z,
        x % pow2(m) as int == 0,
        y % pow2(m) as int == 0,
        z % pow2(m) as int == 0,
    ensures
        ilv(x, y, z, m) == 0,
    decreases m,
{
    lemma_pow2_pos(m);
    if m > 0 {
        let m1 = (m - 1) as nat;
        lemma_pow2_unfold(m);
        lemma_pow2_pos(m1);
        let p1 = pow2(m1) as int;
        lemma_even_from_aligned(x, p1);
        lemma_even_from_aligned(y, p1);
        lemma_even_from_aligned(z, p1);
        lemma_ilv_low_zero(x / 2, y / 2, z / 2, m1);
    }
}

/// A nonnegative multiple of `2 * p` is even, and its half is a multiple of
/// `p`.
proof fn lemma_even_from_aligned(x: int, p: int)
    requires
        0 <= x,
        1 <= p,
        x % (2 * p) == 0,
    ensures
        x % 2 == 0,
        (x / 2) % p == 0,
{
    let q = x / (2 * p);
    lemma_fundamental_div_mod(x, 2 * p);
    assert(x == 2 * p * q);
    assert(x == 2 * (p * q) && p * q >= 0) by (nonlinear_arith)
        requires
            x == 2 * p * q,
            x >= 0,
            p >= 1,
    ;
    lemma_mod_multiples_basic(p * q, 2);
    assert(x % 2 == 0);
    lemma_fundamental_div_mod_converse(x, 2, p * q, 0);
    assert(x / 2 == p * q);
    lemma_mul_is_commutative(p, q);
    lemma_mod_multiples_basic(q, p);
}

/// Interleaving is injective on coordinates of `n` bits.
pub proof fn lemma_ilv_injective(
    x1: int,
    y1: int,
    z1: int,
    x2: int,
    y2: int,
    z2: int,
    n: nat,
)
    requires
        0 <= x1 < pow2(n),
        0 <= y1 < pow2(n),
        0 <= z1 < pow2(n),
        0 <= x2 < pow2(n),
        0 <= y2 < pow2(n),
        0 <= z2 < pow2(n),
        ilv(x1, y1, z1, n) == ilv(x2, y2, z2, n),
    ensures
        x1 == x2,
        y1 == y2,
        z1 == z2,
    decreases n,
{
    if n == 0 {
        assert(pow2(0) == 1) by {
            lemma2_to64();
        }
    } else {
        let n1 = (n - 1) as nat;
        let d1 = 4 * (x1 % 2) + 2 * (y1 % 2) + (z1 % 2);
        let d2 = 4 * (x2 % 2) + 2 * (y2 % 2) + (z2 % 2);
        let r1 = ilv(x1 / 2, y1 / 2, z1 / 2, n1);
        let r2 = ilv(x2 / 2, y2 / 2, z2 / 2, n1);
        lemma_ilv_bound(x1 / 2, y1 / 2, z1 / 2, n1);
        lemma_ilv_bound(x2 / 2, y2 / 2, z2 / 2, n1);
        assert(0 <= d1 <= 7 && 0 <= d2 <= 7);
        assert(d1 + 8 * r1 == d2 + 8 * r2);
        lemma_fundamental_div_mod_converse(d1 + 8 * r1, 8, r1, d1);
        lemma_fundamental_div_mod_converse(d2 + 8 * r2, 8, r2, d2);
        assert(d1 == d2 && r1 == r2);
        assert(x1 % 2 == x2 % 2 && y1 % 2 == y2 % 2 && z1 % 2 == z2 % 2);
        lemma_pow2_unfold(n);
        lemma_pow2_pos(n1);
        assert(x1 / 2 < pow2(n1)) by {
            lemma_div_strict_bound(x1, pow2(n1) as int);
        }
        assert(y1 / 2 < pow2(n1)) by {
            lemma_div_strict_bound(y1, pow2(n1) as int);
        }
        assert(z1 / 2 < pow2(n1)) by {
            lemma_div_strict_bound(z1, pow2(n1) as int);
        }
        assert(x2 / 2 < pow2(n1)) by {
            lemma_div_strict_bound(x2, pow2(n1) as int);
        }
        assert(y2 / 2 < pow2(n1)) by {
            lemma_div_strict_bound(y2, pow2(n1) as int);
        }
        assert(z2 / 2 < pow2(n1)) by {
            lemma_div_strict_bound(z2, pow2(n1) as int);
        }
        lemma_ilv_injective(x1 / 2, y1 / 2, z1 / 2, x2 / 2, y2 / 2, z2 / 2, n1);
        lemma_fundamental_div_mod(x1, 2);
        lemma_fundamental_div_mod(x2, 2);
        lemma_fundamental_div_mod(y1, 2);
        lemma_fundamental_div_mod(y2, 2);
        lemma_fundamental_div_mod(z1, 2);
        lemma_fundamental_div_mod(z2, 2);
    }
}

/// `x < 2 * b` implies `x / 2 < b`.
proof fn lemma_div_strict_bound(x: int, b: int)
    requires
        0 <= x < 2 * b,
        1 <= b,
    ensures
        x / 2 < b,
{
    assert(x / 2 < b) by (nonlinear_arith)
        requires
            0 <= x < 2 * b,
            1 <= b,
    ;
}

/// `v / p == q` exactly when `v` lies in the `q`-th block of size `p`.
pub proof fn lemma_div_eq_iff_in_block(v: int, q: int, p: int)
    requires
        0 <= v,
        1 <= p,
    ensures
        v / p == q <==> p * q <= v < p * (q + 1),
{
    if v / p == q {
        lemma_fundamental_div_mod(v, p);
        lemma_mod_division_less_than_divisor(v, p);
        assert(p * q <= v < p * (q + 1)) by (nonlinear_arith)
            requires
                v == p * (v / p) + v % p,
                0 <= v % p < p,
                v / p == q,
        ;
    }
    if p * q <= v < p * (q + 1) {
        assert(v == q * p + (v - p * q) && 0 <= v - p * q < p) by (nonlinear_arith)
            requires
                p * q <= v < p * (q + 1),
        ;
        lemma_fundamental_div_mod_converse_div(v, p, q, v - p * q);
    }
}

/// An aligned value strictly below an aligned bound leaves room for one more
/// block: `v % e == 0`, `m % e == 0`, `v < m` imply `v + e <= m`.
pub proof fn lemma_aligned_below(v: int, m: int, e: int)
    requires
        0 <= v < m,
        1 <= e,
        v % e == 0,
        m % e == 0,
    ensures
        v + e <= m,
{
    lemma_fundamental_div_mod(v, e);
    lemma_fundamental_div_mod(m, e);
    assert(v + e <= m) by (nonlinear_arith)
        requires
            v == e * (v / e),
            m == e * (m / e),
            0 <= v < m,
            1 <= e,
    ;
}

/// A multiple of `a * b` is a multiple of `b`.
pub proof fn lemma_mod_of_factor(v: int, a: int, b: int)
    requires
        1 <= a,
        1 <= b,
        v % (a * b) == 0,
    ensures
        v % b == 0,
{
    lemma_mul_is_commutative(a, b);
    lemma_mod_mod(v, b, a);
}

/// Integer grid coordinates of a box's lower corner on the deepest grid.
#[derive(Clone, Copy, Debug, PartialEq, Eq, Hash, Structural)]
pub struct Anchor {
    pub x: u64,
    pub y: u64,
    pub z: u64,
}

/// One octree box: an anchor and a refinement level.
#[derive(Clone, Copy, Debug, PartialEq, Eq, Hash, Structural)]
pub struct MortonKey {
    pub anchor: Anchor,
    pub level: u64,
}

impl MortonKey {
    /// Side of the box in deepest-grid cells: `2^(16 - level)`.
    pub open spec fn side(self) -> int {
        pow2((DEEPEST_LEVEL - self.level) as nat) as int
    }

    /// Number of deepest-level boxes this box contains: `8^(16 - level)`.
    pub open spec fn extent(self) -> int {
        pow8((DEEPEST_LEVEL - self.level) as nat)
    }

    /// Morton index of the box's first deepest-level descendant. The box's
    /// descendants at the deepest level occupy exactly
    /// `[start, start + extent)`.
    pub open spec fn start(self) -> int {
        ilv(self.anchor.x as int, self.anchor.y as int, self.anchor.z as int, 16)
    }

    /// A key is well formed when its level is expressible and its anchor
    /// lies on the grid of its level.
    pub open spec fn wf(self) -> bool {
        &&& self.level <= DEEPEST_LEVEL
        &&& self.anchor.x < LEVEL_SIZE
        &&& self.anchor.y < LEVEL_SIZE
        &&& self.anchor.z < LEVEL_SIZE
        &&& self.anchor.x as int % self.side() == 0
        &&& self.anchor.y as int % self.side() == 0
        &&& self.anchor.z as int % self.side() == 0
    }

    /// `self` covers `other`: `other` is `self` or one of its descendants,
    /// stated geometrically on the anchor grid.
    pub open spec fn contains(self, other: MortonKey) -> bool {
        &&& self.level <= other.level
        &&& self.anchor.x <= other.anchor.x < self.anchor.x + self.side()
        &&& self.anchor.y <= other.anchor.y < self.anchor.y + self.side()
        &&& self.anchor.z <= other.anchor.z < self.anchor.z + self.side()
    }

    /// The box at the next level whose lower corner is offset by the octant
    /// bits of `o`: bit 2 of `o` selects the upper half in `x`, bit 1 in
    /// `y`, bit 0 in `z`.
    pub open spec fn child_of(self, o: int) -> MortonKey {
        let hs = pow2((15 - self.level) as nat) as int;
        MortonKey {
            anchor: Anchor {
                x: (self.anchor.x + (o / 4) * hs) as u64,
                y: (self.anchor.y + ((o / 2) % 2) * hs) as u64,
                z: (self.anchor.z + (o % 2) * hs) as u64,
            },
            level: (self.level + 1) as u64,
        }
    }

    /// The box one level coarser whose grid cell contains this box.
    pub open spec fn parent_of(self) -> MortonKey {
        let s2 = pow2((17 - self.level) as nat) as int;
        MortonKey {
            anchor: Anchor {
                x: (self.anchor.x as int - self.anchor.x as int % s2) as u64,
                y: (self.anchor.y as int - self.anchor.y as int % s2) as u64,
                z: (self.anchor.z as int - self.anchor.z as int % s2) as u64,
            },
            level: (self.level - 1) as u64,
        }
    }

    /// Which of its parent's eight octants this box occupies.
    pub open spec fn octant(self) -> int {
        (self.start() / self.extent()) % 8
    }

    /// Two boxes are adjacent when they share at least a face, edge or
    /// vertex but neither contains the other: on every axis their closed
    /// extents meet, and they are not nested.
    pub open spec fn adjacent(self, other: MortonKey) -> bool {
        &&& !self.contains(other)
        &&& !other.contains(self)
        &&& other.anchor.x <= self.anchor.x + self.side()
        &&& self.anchor.x <= other.anchor.x + other.side()
        &&& other.anchor.y <= self.anchor.y + self.side()
        &&& self.anchor.y <= other.anchor.y + other.side()
        &&& other.anchor.z <= self.anchor.z + self.side()
        &&& self.anchor.z <= other.anchor.z + other.side()
    }

    /// Strict Morton order: by curve position of the first descendant, then
    /// by level, so that every ancestor precedes its descendants.
    pub open spec fn lt(self, other: MortonKey) -> bool {
        self.start() < other.start() || (self.start() == other.start() && self.level < other.level)
    }

    pub open spec fn le(self, other: MortonKey) -> bool {
        self.lt(other) || self == other
    }
}

/// The root box: anchor at the origin, level 0.
pub fn root() -> (r: MortonKey)
    ensures
        r.wf(),
        r.level == 0,
        r.anchor.x == 0 && r.anchor.y == 0 && r.anchor.z == 0,
        r.start() == 0,
        r.extent() == pow8(16),
{
    let k = MortonKey { anchor: Anchor { x: 0, y: 0, z: 0 }, level: 0 };
    proof {
        lemma_pow2_pos(16);
        lemma_mod_basics_auto_local(k.side());
        assert(ilv(0, 0, 0, 16) == 0) by {
            lemma_pow2_pos(16);
            lemma_small_mod(0, pow2(16));
            lemma_ilv_low_zero(0, 0, 0, 16);
        }
    }
    k
}

proof fn lemma_mod_basics_auto_local(m: int)
    requires
        0 < m,
    ensures
        0int % m == 0,
{
    lemma_small_mod(0, m as nat);
}

/// `8^e` is monotone in `e`.
pub proof fn lemma_pow8_le(a: nat, b: nat)
    requires
        a <= b,
    ensures
        pow8(a) <= pow8(b),
{
    lemma_pow8_adds(a, (b - a) as nat);
    lemma_pow8_pos(a);
    lemma_pow8_pos((b - a) as nat);
    assert(pow8(a) * 1 <= pow8(a) * pow8((b - a) as nat)) by (nonlinear_arith)
        requires
            pow8(a) >= 1,
            pow8((b - a) as nat) >= 1,
    ;
}

/// If the low `m` interleave digits vanish, each coordinate is a multiple of
/// `2^m`: the converse of `lemma_ilv_low_zero`.
pub proof fn lemma_ilv_zero_aligned(x: int, y: int, z: int, m: nat)
    requires
        0 <= x,
        0 <= y,
        0 <= z,
        ilv(x, y, z, m) == 0,
    ensures
        x % pow2(m) as int == 0,
        y % pow2(m) as int == 0,
        z % pow2(m) as int == 0,
    decreases m,
{
    lemma_pow2_pos(m);
    if m == 0 {
        assert(pow2(0) == 1) by {
            lemma2_to64();
        }
        lemma_mod_multiples_basic(x, 1);
        lemma_mod_multiples_basic(y, 1);
        lemma_mod_multiples_basic(z, 1);
    } else {
        let m1 = (m - 1) as nat;
        let d = 4 * (x % 2) + 2 * (y % 2) + (z % 2);
        let r = ilv(x / 2, y / 2, z / 2, m1);
        lemma_ilv_bound(x / 2, y / 2, z / 2, m1);
        assert(d + 8 * r == 0 && d >= 0 && r >= 0);
        assert(d == 0 && r == 0) by (nonlinear_arith)
            requires
                d + 8 * r == 0,
                d >= 0,
                r >= 0,
        ;
        lemma_ilv_zero_aligned(x / 2, y / 2, z / 2, m1);
        lemma_pow2_unfold(m);
        lemma_pow2_pos(m1);
        let p1 = pow2(m1) as int;
        // x is even with x / 2 a multiple of 2^(m-1), so x is a multiple of 2^m
        lemma_fundamental_div_mod(x, 2);
        lemma_fundamental_div_mod(x / 2, p1);
        lemma_fundamental_div_mod(y, 2);
        lemma_fundamental_div_mod(y / 2, p1);
        lemma_fundamental_div_mod(z, 2);
        lemma_fundamental_div_mod(z / 2, p1);
        lemma_double_multiple(x, p1);
        lemma_double_multiple(y, p1);
        lemma_double_multiple(z, p1);
    }
}

/// An even value whose half is a multiple of `p` is a multiple of `2 * p`.
proof fn lemma_double_multiple(x: int, p: int)
    requires
        0 <= x,
        1 <= p,
        x % 2 == 0,
        (x / 2) % p == 0,
    ensures
        x % (2 * p) == 0,
{
    lemma_fundamental_div_mod(x, 2);
    lemma_fundamental_div_mod(x / 2, p);
    let q = (x / 2) / p;
    assert(x == 2 * (p * q));
    assert(x == q * (2 * p) + 0) by (nonlinear_arith)
        requires
            x == 2 * (p * q),
    ;
    lemma_fundamental_div_mod_converse_mod(x, 2 * p, q, 0);
}

/// A well-formed key's start is aligned to its extent and lies in the curve.
pub proof fn lemma_start_aligned(k: MortonKey)
    requires
        k.wf(),
    ensures
        0 <= k.start() < pow8(16),
        k.start() % k.extent() == 0,
        k.extent() >= 1,
        k.side() >= 1,
{
    let m = (DEEPEST_LEVEL - k.level) as nat;
    lemma_pow2_pos(m);
    lemma_pow8_pos(m);
    lemma_ilv_bound(k.anchor.x as int, k.anchor.y as int, k.anchor.z as int, 16);
    lemma_ilv_split(k.anchor.x as int, k.anchor.y as int, k.anchor.z as int, m, 16);
    lemma_ilv_low_zero(k.anchor.x as int, k.anchor.y as int, k.anchor.z as int, m);
    let hi = ilv(
        k.anchor.x as int / pow2(m) as int,
        k.anchor.y as int / pow2(m) as int,
        k.anchor.z as int / pow2(m) as int,
        (16 - m) as nat,
    );
    assert(k.start() == pow8(m) * hi);
    lemma_ilv_bound(
        k.anchor.x as int / pow2(m) as int,
        k.anchor.y as int / pow2(m) as int,
        k.anchor.z as int / pow2(m) as int,
        (16 - m) as nat,
    );
    lemma_mul_is_commutative(pow8(m), hi);
    lemma_mod_multiples_basic(hi, pow8(m));
}

/// Geometric containment coincides with containment of Morton index ranges:
/// `d` lies inside `a`'s box exactly when `d`'s start falls in `a`'s range,
/// and then `d`'s whole range lies in `a`'s.
pub proof fn lemma_contains_iff_range(a: MortonKey, d: MortonKey)
    requires
        a.wf(),
        d.wf(),
        a.level <= d.level,
    ensures
        a.contains(d) <==> (a.start() <= d.start() < a.start() + a.extent()),
        a.contains(d) ==> d.start() + d.extent() <= a.start() + a.extent(),
{
    let m = (DEEPEST_LEVEL - a.level) as nat;
    let nm = (16 - m) as nat;
    let p2 = pow2(m) as int;
    let p8 = pow8(m);
    lemma_pow2_pos(m);
    lemma_pow8_pos(m);
    lemma_start_aligned(a);
    lemma_start_aligned(d);
    let ax = a.anchor.x as int;
    let ay = a.anchor.y as int;
    let az = a.anchor.z as int;
    let dx = d.anchor.x as int;
    let dy = d.anchor.y as int;
    let dz = d.anchor.z as int;
    // quotient coordinates of a's anchor
    lemma_fundamental_div_mod(ax, p2);
    lemma_fundamental_div_mod(ay, p2);
    lemma_fundamental_div_mod(az, p2);
    let qx = ax / p2;
    let qy = ay / p2;
    let qz = az / p2;
    assert(ax == p2 * qx && ay == p2 * qy && az == p2 * qz);
    // a's start is p8 times the interleave of its quotient coordinates
    lemma_ilv_split(ax, ay, az, m, 16);
    lemma_ilv_low_zero(ax, ay, az, m);
    let ha = ilv(qx, qy, qz, nm);
    assert(a.start() == p8 * ha);
    // d's start splits into a low part below p8 and a high interleave
    lemma_ilv_split(dx, dy, dz, m, 16);
    lemma_ilv_bound(dx, dy, dz, m);
    let hd = ilv(dx / p2, dy / p2, dz / p2, nm);
    let lo = ilv(dx, dy, dz, m);
    assert(d.start() == lo + p8 * hd);
    lemma_ilv_bound(dx / p2, dy / p2, dz / p2, nm);
    lemma_ilv_bound(qx, qy, qz, nm);
    // coordinate quotients are below 2^(16-m)
    assert(pow2(m) * pow2(nm) == pow2(16) == 65536) by {
        lemma_pow2_adds(m, nm);
        lemma2_to64();
    }
    lemma_multiply_divide_lt(dx, p2, pow2(nm) as int);
    lemma_multiply_divide_lt(dy, p2, pow2(nm) as int);
    lemma_multiply_divide_lt(dz, p2, pow2(nm) as int);
    lemma_multiply_divide_lt(ax, p2, pow2(nm) as int);
    lemma_multiply_divide_lt(ay, p2, pow2(nm) as int);
    lemma_multiply_divide_lt(az, p2, pow2(nm) as int);
    // start(d) lies in a's block of size p8 exactly when the high parts agree
    assert(d.start() / p8 == hd) by {
        lemma_mul_is_commutative(p8, hd);
        lemma_fundamental_div_mod_converse_div(d.start(), p8, hd, lo);
    }
    lemma_div_eq_iff_in_block(d.start(), ha, p8);
    assert((a.start() <= d.start() < a.start() + p8) <==> d.start() / p8 == ha) by {
        assert(p8 * ha == a.start() && p8 * (ha + 1) == a.start() + p8) by (nonlinear_arith)
            requires
                a.start() == p8 * ha,
        ;
    }
    // per-axis containment coincides with equal quotients
    lemma_div_eq_iff_in_block(dx, qx, p2);
    lemma_div_eq_iff_in_block(dy, qy, p2);
    lemma_div_eq_iff_in_block(dz, qz, p2);
    assert((ax <= dx < ax + p2) <==> dx / p2 == qx) by (nonlinear_arith)
        requires
            ax == p2 * qx,
            (dx / p2 == qx <==> p2 * qx <= dx < p2 * (qx + 1)),
    ;
    assert((ay <= dy < ay + p2) <==> dy / p2 == qy) by (nonlinear_arith)
        requires
            ay == p2 * qy,
            (dy / p2 == qy <==> p2 * qy <= dy < p2 * (qy + 1)),
    ;
    assert((az <= dz < az + p2) <==> dz / p2 == qz) by (nonlinear_arith)
        requires
            az == p2 * qz,
            (dz / p2 == qz <==> p2 * qz <= dz < p2 * (qz + 1)),
    ;
    // equal high interleaves force equal quotients
    if hd == ha {
        lemma_ilv_injective(dx / p2, dy / p2, dz / p2, qx, qy, qz, nm);
    }
    assert(a.contains(d) <==> (a.start() <= d.start() < a.start() + a.extent()));
    // the whole of d's range fits in a's
    if a.contains(d) {
        let md = (DEEPEST_LEVEL - d.level) as nat;
        let e = pow8(md);
        lemma_pow8_pos(md);
        assert(p8 % e == 0) by {
            lemma_pow8_adds((m - md) as nat, md);
            lemma_pow8_pos((m - md) as nat);
            lemma_mod_multiples_basic(pow8((m - md) as nat), e);
        }
        assert(a.start() % e == 0) by {
            lemma_pow8_pos((m - md) as nat);
            lemma_pow8_adds((m - md) as nat, md);
            lemma_mod_of_factor(a.start(), pow8((m - md) as nat), e);
            assert(a.extent() == pow8((m - md) as nat) * e);
        }
        if d.start() < a.start() + p8 {
            // both start(d) and a.start() + p8 are multiples of e
            assert((a.start() + p8) % e == 0) by {
                lemma_add_mod_noop(a.start(), p8, e);
                lemma_small_mod(0, e as nat);
            }
            lemma_aligned_below(d.start(), a.start() + p8, e);
            lemma_pow8_le(md, m);
        }
    }
}

/// Two well-formed boxes are nested or their index ranges are disjoint.
pub proof fn lemma_nested_or_disjoint(a: MortonKey, b: MortonKey)
    requires
        a.wf(),
        b.wf(),
    ensures
        a.contains(b) || b.contains(a) || a.start() + a.extent() <= b.start() || b.start()
            + b.extent() <= a.start(),
{
    if a.level <= b.level {
        lemma_contains_iff_range(a, b);
        if !a.contains(b) {
            lemma_start_aligned(a);
            lemma_start_aligned(b);
            if b.start() < a.start() {
                // both aligned to b's extent; a's start is also such a multiple
                let mb = (DEEPEST_LEVEL - b.level) as nat;
                let ma = (DEEPEST_LEVEL - a.level) as nat;
                let e = pow8(mb);
                lemma_pow8_pos(mb);
                assert(a.start() % e == 0) by {
                    lemma_pow8_pos((ma - mb) as nat);
                    lemma_pow8_adds((ma - mb) as nat, mb);
                    lemma_mod_of_factor(a.start(), pow8((ma - mb) as nat), e);
                }
                lemma_aligned_below(b.start(), a.start(), e);
            }
        }
    } else {
        lemma_contains_iff_range(b, a);
        if !b.contains(a) {
            lemma_start_aligned(a);
            lemma_start_aligned(b);
            if a.start() < b.start() {
                let ma = (DEEPEST_LEVEL - a.level) as nat;
                let mb = (DEEPEST_LEVEL - b.level) as nat;
                let e = pow8(ma);
                lemma_pow8_pos(ma);
                assert(b.start() % e == 0) by {
                    lemma_pow8_pos((mb - ma) as nat);
                    lemma_pow8_adds((mb - ma) as nat, ma);
                    lemma_mod_of_factor(b.start(), pow8((mb - ma) as nat), e);
                }
                lemma_aligned_below(a.start(), b.start(), e);
            }
        }
    }
}

/// A key is determined by its start and level.
pub proof fn lemma_key_from_start_level(a: MortonKey, b: MortonKey)
    requires
        a.wf(),
        b.wf(),
        a.start() == b.start(),
        a.level == b.level,
    ensures
        a == b,
{
    assert(pow2(16) == 65536) by {
        lemma2_to64();
    }
    lemma_ilv_injective(
        a.anchor.x as int,
        a.anchor.y as int,
        a.anchor.z as int,
        b.anchor.x as int,
        b.anchor.y as int,
        b.anchor.z as int,
        16,
    );
}

/// At one level, a box containing a given box is unique.
pub proof fn lemma_unique_cover_at_level(a: MortonKey, b: MortonKey, k: MortonKey)
    requires
        a.wf(),
        b.wf(),
        k.wf(),
        a.level == b.level,
        a.contains(k),
        b.contains(k),
    ensures
        a == b,
{
    lemma_contains_iff_range(a, k);
    lemma_contains_iff_range(b, k);
    lemma_start_aligned(a);
    lemma_start_aligned(b);
    lemma_start_aligned(k);
    let e = a.extent();
    if a.start() < b.start() {
        lemma_aligned_below(a.start(), b.start(), e);
    }
    if b.start() < a.start() {
        lemma_aligned_below(b.start(), a.start(), e);
    }
    lemma_key_from_start_level(a, b);
}

/// Splitting a box: each of the eight children is well formed, sits one
/// level deeper inside its parent, their index ranges tile the parent's
/// range in octant order, and the parent of each child is the box that was
/// split.
#[verifier::rlimit(60)]
pub proof fn lemma_child(k: MortonKey, o: int)
    requires
        k.wf(),
        k.level < DEEPEST_LEVEL,
        0 <= o < 8,
    ensures
        k.child_of(o).wf(),
        k.child_of(o).level == k.level + 1,
        k.child_of(o).start() == k.start() + o * k.child_of(o).extent(),
        k.contains(k.child_of(o)),
        k.child_of(o).parent_of() == k,
        k.child_of(o).octant() == o,
{
    let m = (DEEPEST_LEVEL - k.level) as nat;
    let m1 = (m - 1) as nat;
    let nm = (16 - m) as nat;
    let p2 = pow2(m) as int;
    let hs = pow2(m1) as int;
    let e = pow8(m1);
    lemma_pow2_pos(m);
    lemma_pow2_pos(m1);
    lemma_pow2_unfold(m);
    lemma_pow8_pos(m1);
    let bx = o / 4;
    let by = (o / 2) % 2;
    let bz = o % 2;
    assert(0 <= bx <= 1 && 0 <= by <= 1 && 0 <= bz <= 1);
    assert(o == 4 * bx + 2 * by + bz);
    let c = k.child_of(o);
    let kx = k.anchor.x as int;
    let ky = k.anchor.y as int;
    let kz = k.anchor.z as int;
    // the anchor stays on the grid and in range
    assert(65536int % p2 == 0) by {
        lemma_pow2_adds(m, nm);
        lemma2_to64();
        lemma_pow2_pos(nm);
        lemma_mul_is_commutative(p2, pow2(nm) as int);
        lemma_mod_multiples_basic(pow2(nm) as int, p2);
    }
    lemma_aligned_below(kx, 65536, p2);
    lemma_aligned_below(ky, 65536, p2);
    lemma_aligned_below(kz, 65536, p2);
    lemma_fundamental_div_mod(kx, p2);
    lemma_fundamental_div_mod(ky, p2);
    lemma_fundamental_div_mod(kz, p2);
    let qx = kx / p2;
    let qy = ky / p2;
    let qz = kz / p2;
    assert(kx == p2 * qx && ky == p2 * qy && kz == p2 * qz);
    let cx = kx + bx * hs;
    let cy = ky + by * hs;
    let cz = kz + bz * hs;
    assert((15 - k.level) as nat == m1);
    assert(0 <= bx * hs <= hs && 0 <= by * hs <= hs && 0 <= bz * hs <= hs) by (nonlinear_arith)
        requires
            0 <= bx <= 1 && 0 <= by <= 1 && 0 <= bz <= 1,
            hs >= 1,
    ;
    assert(c.anchor.x == cx && c.anchor.y == cy && c.anchor.z == cz);
    // each child coordinate is (2q + b) * hs
    assert(cx == hs * (2 * qx + bx) && cy == hs * (2 * qy + by) && cz == hs * (2 * qz + bz))
        by (nonlinear_arith)
        requires
            kx == p2 * qx,
            ky == p2 * qy,
            kz == p2 * qz,
            p2 == 2 * hs,
            cx == kx + bx * hs,
            cy == ky + by * hs,
            cz == kz + bz * hs,
    ;
    lemma_mul_is_commutative(hs, 2 * qx + bx);
    lemma_mul_is_commutative(hs, 2 * qy + by);
    lemma_mul_is_commutative(hs, 2 * qz + bz);
    lemma_fundamental_div_mod_converse(cx, hs, 2 * qx + bx, 0);
    lemma_fundamental_div_mod_converse(cy, hs, 2 * qy + by, 0);
    lemma_fundamental_div_mod_converse(cz, hs, 2 * qz + bz, 0);
    assert(c.wf());
    // the child's start: zero low digits, then one octant digit, then k's
    // high interleave
    lemma_ilv_split(cx, cy, cz, m1, 16);
    lemma_ilv_low_zero(cx, cy, cz, m1);
    assert(ilv(2 * qx + bx, 2 * qy + by, 2 * qz + bz, (16 - m1) as nat) == o + 8 * ilv(
        qx,
        qy,
        qz,
        nm,
    )) by {
        assert((2 * qx + bx) % 2 == bx && (2 * qx + bx) / 2 == qx) by {
            lemma_fundamental_div_mod_converse(2 * qx + bx, 2, qx, bx);
        }
        assert((2 * qy + by) % 2 == by && (2 * qy + by) / 2 == qy) by {
            lemma_fundamental_div_mod_converse(2 * qy + by, 2, qy, by);
        }
        assert((2 * qz + bz) % 2 == bz && (2 * qz + bz) / 2 == qz) by {
            lemma_fundamental_div_mod_converse(2 * qz + bz, 2, qz, bz);
        }
    }
    let h = ilv(qx, qy, qz, nm);
    assert(c.start() == e * (o + 8 * h));
    // k's start is 8^m times its high interleave
    lemma_ilv_split(kx, ky, kz, m, 16);
    lemma_ilv_low_zero(kx, ky, kz, m);
    assert(k.start() == pow8(m) * h);
    assert(c.start() == k.start() + o * e) by (nonlinear_arith)
        requires
            c.start() == e * (o + 8 * h),
            k.start() == pow8(m) * h,
            pow8(m) == 8 * e,
    ;
    // containment on each axis
    assert(bx * hs < p2 && by * hs < p2 && bz * hs < p2) by (nonlinear_arith)
        requires
            0 <= bx <= 1 && 0 <= by <= 1 && 0 <= bz <= 1,
            p2 == 2 * hs,
            hs >= 1,
    ;
    assert(k.contains(c));
    // the parent of the child is k: subtracting the offset restores the
    // anchor
    assert(cx % p2 == bx * hs && cy % p2 == by * hs && cz % p2 == bz * hs) by {
        lemma_mul_is_commutative(p2, qx);
        lemma_mul_is_commutative(p2, qy);
        lemma_mul_is_commutative(p2, qz);
        lemma_fundamental_div_mod_converse(cx, p2, qx, bx * hs);
        lemma_fundamental_div_mod_converse(cy, p2, qy, by * hs);
        lemma_fundamental_div_mod_converse(cz, p2, qz, bz * hs);
    }
    assert(c.parent_of() == k);
    // the octant digit is recovered from the start
    lemma_ilv_bound(qx, qy, qz, nm);
    assert(c.start() / e == o + 8 * h) by {
        lemma_mul_is_commutative(e, o + 8 * h);
        lemma_fundamental_div_mod_converse_div(c.start(), e, o + 8 * h, 0);
    }
    assert((o + 8 * h) % 8 == o) by {
        lemma_fundamental_div_mod_converse_mod(o + 8 * h, 8, h, o);
    }
}

/// Every non-root box is one of its parent's children, at the octant its
/// start digit names.
pub proof fn lemma_self_is_child(k: MortonKey)
    requires
        k.wf(),
        1 <= k.level,
    ensures
        k.parent_of().wf(),
        k.parent_of().level == k.level - 1,
        k.parent_of().contains(k),
        0 <= k.octant() < 8,
        k.parent_of().child_of(k.octant()) == k,
{
    let p = k.parent_of();
    let m = (DEEPEST_LEVEL - k.level) as nat;
    let s2 = pow2((17 - k.level) as nat) as int;
    lemma_pow2_pos((17 - k.level) as nat);
    let kx = k.anchor.x as int;
    let ky = k.anchor.y as int;
    let kz = k.anchor.z as int;
    lemma_fundamental_div_mod(kx, s2);
    lemma_fundamental_div_mod(ky, s2);
    lemma_fundamental_div_mod(kz, s2);
    lemma_mod_division_less_than_divisor(kx, s2);
    lemma_mod_division_less_than_divisor(ky, s2);
    lemma_mod_division_less_than_divisor(kz, s2);
    // the parent is well formed
    assert(p.anchor.x as int == s2 * (kx / s2) && p.anchor.y as int == s2 * (ky / s2)
        && p.anchor.z as int == s2 * (kz / s2));
    assert(p.wf()) by {
        lemma_mod_multiples_basic(kx / s2, s2);
        lemma_mod_multiples_basic(ky / s2, s2);
        lemma_mod_multiples_basic(kz / s2, s2);
        lemma_mul_is_commutative(s2, kx / s2);
        lemma_mul_is_commutative(s2, ky / s2);
        lemma_mul_is_commutative(s2, kz / s2);
    }
    assert(p.contains(k));
    // k's start lies in the parent's range, at an offset divisible by k's
    // extent
    lemma_contains_iff_range(p, k);
    lemma_start_aligned(p);
    lemma_start_aligned(k);
    let e = k.extent();
    assert(p.extent() == 8 * e) by {
        assert((DEEPEST_LEVEL - p.level) as nat == m + 1);
    }
    assert(p.start() % e == 0) by {
        lemma_mod_of_factor(p.start(), 8, e);
    }
    let diff = k.start() - p.start();
    lemma_fundamental_div_mod(k.start(), e);
    lemma_fundamental_div_mod(p.start(), e);
    let u = k.start() / e;
    let v = p.start() / e;
    assert(k.start() == e * u && p.start() == e * v);
    let o = u - v;
    assert(diff == e * o) by (nonlinear_arith)
        requires
            k.start() == e * u,
            p.start() == e * v,
            diff == k.start() - p.start(),
            o == u - v,
    ;
    assert(0 <= o < 8) by (nonlinear_arith)
        requires
            diff == e * o,
            0 <= diff < 8 * e,
            e >= 1,
    ;
    lemma_child(p, o);
    let c = p.child_of(o);
    assert(c.start() == k.start()) by (nonlinear_arith)
        requires
            c.start() == p.start() + o * c.extent(),
            c.extent() == e,
            diff == e * o,
            diff == k.start() - p.start(),
    ;
    lemma_key_from_start_level(c, k);
    assert(k.octant() == o);
}

/// Law: splitting a box and taking the parent of any of the eight children
/// returns the box that was split.
pub proof fn lemma_parent_of_children(k: MortonKey, o: int)
    requires
        k.wf(),
        k.level < DEEPEST_LEVEL,
        0 <= o < 8,
    ensures
        k.child_of(o).parent_of() == k,
{
    lemma_child(k, o);
}

/// Side of a box at `level`, in deepest-grid cells: `2^(16 - level)`.
#[verifier::loop_isolation(false)]
pub fn side_length(level: u64) -> (r: u64)
    requires
        level <= DEEPEST_LEVEL,
    ensures
        r as int == pow2((DEEPEST_LEVEL - level) as nat),
{
    let n = DEEPEST_LEVEL - level;
    let mut r: u64 = 1;
    let mut i: u64 = 0;
    proof {
        lemma2_to64();
    }
    while i < n
        invariant
            i <= n,
            r as int == pow2(i as nat),
        decreases n - i,
    {
        proof {
            lemma_pow2_strictly_increases(i as nat, 16);
            lemma_pow2_unfold((i + 1) as nat);
        }
        r = r * 2;
        i = i + 1;
    }
    r
}

/// Number of deepest-level boxes inside a box at `level`: `8^(16 - level)`.
#[verifier::loop_isolation(false)]
pub fn extent_length(level: u64) -> (r: u64)
    requires
        level <= DEEPEST_LEVEL,
    ensures
        r as int == pow8((DEEPEST_LEVEL - level) as nat),
{
    let n = DEEPEST_LEVEL - level;
    let mut r: u64 = 1;
    let mut i: u64 = 0;
    while i < n
        invariant
            i <= n,
            r as int == pow8(i as nat),
        decreases n - i,
    {
        proof {
            lemma_pow8_le((i + 1) as nat, 16);
            lemma_pow8_16();
        }
        r = r * 8;
        i = i + 1;
    }
    r
}

impl MortonKey {
    /// Morton index of the box's first deepest-level descendant, computed by
    /// interleaving the anchor bits.
    #[verifier::loop_isolation(false)]
    pub fn start_index(&self) -> (r: u64)
        requires
            self.wf(),
        ensures
            r as int == self.start(),
            r < 0x1000000000000,
    {
        let x = self.anchor.x;
        let y = self.anchor.y;
        let z = self.anchor.z;
        let mut xs = x;
        let mut ys = y;
        let mut zs = z;
        let mut acc: u64 = 0;
        let mut p: u64 = 1;
        let mut i: u64 = 0;
        proof {
            lemma2_to64();
            lemma_div_basics(x as int);
            lemma_div_basics(y as int);
            lemma_div_basics(z as int);
        }
        while i < 16
            invariant
                i <= 16,
                p as int == pow8(i as nat),
                acc as int == ilv(x as int, y as int, z as int, i as nat),
                xs as int == x as int / pow2(i as nat) as int,
                ys as int == y as int / pow2(i as nat) as int,
                zs as int == z as int / pow2(i as nat) as int,
            decreases 16 - i,
        {
            let d = 4 * (xs % 2) + 2 * (ys % 2) + (zs % 2);
            proof {
                let i1 = (i + 1) as nat;
                let xq = x as int / pow2(i as nat) as int;
                let yq = y as int / pow2(i as nat) as int;
                let zq = z as int / pow2(i as nat) as int;
                lemma_ilv_split(x as int, y as int, z as int, i as nat, i1);
                assert(ilv(xq, yq, zq, 1) == 4 * (xq % 2) + 2 * (yq % 2) + (zq % 2)) by {
                    reveal_with_fuel(ilv, 2);
                }
                lemma_ilv_bound(x as int, y as int, z as int, i1);
                lemma_pow8_le(i1, 16);
                lemma_pow8_16();
                lemma_pow2_pos(i as nat);
                lemma_pow2_unfold(i1);
                lemma_div_denominator(x as int, pow2(i as nat) as int, 2);
                lemma_div_denominator(y as int, pow2(i as nat) as int, 2);
                lemma_div_denominator(z as int, pow2(i as nat) as int, 2);
                lemma_mul_is_commutative(pow2(i as nat) as int, 2);
            }
            acc = acc + p * d;
            xs = xs / 2;
            ys = ys / 2;
            zs = zs / 2;
            p = p * 8;
            i = i + 1;
        }
        proof {
            lemma_ilv_bound(x as int, y as int, z as int, 16);
            lemma_pow8_16();
        }
        acc
    }

    /// The packed Morton code: the 48-bit curve index in the high bits, the
    /// level in the low 16. Comparing codes as integers compares keys in
    /// Morton order, ancestors first.
    pub fn morton(&self) -> (r: u64)
        requires
            self.wf(),
        ensures
            r as int == self.start() * 65536 + self.level,
    {
        let s = self.start_index();
        s * 65536 + self.level
    }

    /// Strict Morton-order comparison.
    pub fn less_than(&self, other: &MortonKey) -> (r: bool)
        requires
            self.wf(),
            other.wf(),
        ensures
            r == self.lt(*other),
    {
        let s1 = self.start_index();
        let s2 = other.start_index();
        s1 < s2 || (s1 == s2 && self.level < other.level)
    }

    /// The box one level coarser that contains this box.
    pub fn parent(&self) -> (r: MortonKey)
        requires
            self.wf(),
            1 <= self.level,
        ensures
            r == self.parent_of(),
            r.wf(),
            r.level == self.level - 1,
            r.contains(*self),
    {
        proof {
            lemma_self_is_child(*self);
        }
        let s2 = side_length(self.level - 1);
        proof {
            assert((DEEPEST_LEVEL - (self.level - 1)) as nat == (17 - self.level) as nat);
            lemma_pow2_pos((17 - self.level) as nat);
            lemma_mod_decreases(self.anchor.x as nat, s2 as nat);
            lemma_mod_decreases(self.anchor.y as nat, s2 as nat);
            lemma_mod_decreases(self.anchor.z as nat, s2 as nat);
        }
        let k = MortonKey {
            anchor: Anchor {
                x: self.anchor.x - self.anchor.x % s2,
                y: self.anchor.y - self.anchor.y % s2,
                z: self.anchor.z - self.anchor.z % s2,
            },
            level: self.level - 1,
        };
        k
    }

    /// The eight children of this box, in octant order: the `o`-th entry is
    /// `child_of(o)`, and their index ranges tile this box's range.
    #[verifier::loop_isolation(false)]
    pub fn children(&self) -> (r: Vec<MortonKey>)
        requires
            self.wf(),
            self.level < DEEPEST_LEVEL,
        ensures
            r@.len() == 8,
            forall|o: int|
                0 <= o < 8 ==> r@[o] == self.child_of(o) && (#[trigger] r@[o]).wf() && r@[o].level
                    == self.level + 1 && self.contains(r@[o]),
    {
        let hs = side_length(self.level + 1);
        proof {
            assert((DEEPEST_LEVEL - (self.level + 1)) as nat == (15 - self.level) as nat);
            lemma_pow2_strictly_increases((15 - self.level) as nat, 16);
            lemma2_to64();
        }
        let mut r: Vec<MortonKey> = Vec::new();
        let mut o: u64 = 0;
        while o < 8
            invariant
                o <= 8,
                r@.len() == o,
                forall|j: int|
                    0 <= j < o ==> r@[j] == self.child_of(j) && (#[trigger] r@[j]).wf() && r@[j].level
                        == self.level + 1 && self.contains(r@[j]),
            decreases 8 - o,
        {
            proof {
                lemma_child(*self, o as int);
            }
            let bx = o / 4;
            let by = (o / 2) % 2;
            let bz = o % 2;
            proof {
                assert(bx * hs <= hs && by * hs <= hs && bz * hs <= hs) by (nonlinear_arith)
                    requires
                        0 <= bx <= 1 && 0 <= by <= 1 && 0 <= bz <= 1,
                        hs >= 0,
                ;
            }
            let c = MortonKey {
                anchor: Anchor {
                    x: self.anchor.x + bx * hs,
                    y: self.anchor.y + by * hs,
                    z: self.anchor.z + bz * hs,
                },
                level: self.level + 1,
            };
            assert(c == self.child_of(o as int));
            r.push(c);
            o = o + 1;
        }
        r
    }

    /// The eight boxes sharing this box's parent, in octant order; this box
    /// is among them.
    pub fn siblings(&self) -> (r: Vec<MortonKey>)
        requires
            self.wf(),
            1 <= self.level,
        ensures
            r@.len() == 8,
            forall|o: int|
                0 <= o < 8 ==> r@[o] == self.parent_of().child_of(o) && (#[trigger] r@[o]).wf()
                    && r@[o].level == self.level,
            r@[self.octant()] == *self,
    {
        proof {
            lemma_self_is_child(*self);
        }
        let p = self.parent();
        let r = p.children();
        r
    }

    /// Which of its parent's eight octants this box occupies; selects the
    /// per-octant translation operator.
    pub fn sibling_position(&self) -> (r: u64)
        requires
            self.wf(),
            1 <= self.level,
        ensures
            r as int == self.octant(),
            r < 8,
            self.parent_of().child_of(r as int) == *self,
    {
        proof {
            lemma_self_is_child(*self);
            lemma_start_aligned(*self);
        }
        let s = self.start_index();
        let e = extent_length(self.level);
        (s / e) % 8
    }
}

/// The side of any expressible box is at most the whole grid.
pub proof fn lemma_side_bound(level: u64)
    requires
        level <= DEEPEST_LEVEL,
    ensures
        1 <= pow2((DEEPEST_LEVEL - level) as nat) <= 65536,
{
    let m = (DEEPEST_LEVEL - level) as nat;
    lemma_pow2_pos(m);
    lemma_pow2_pos((16 - m) as nat);
    lemma_pow2_adds(m, (16 - m) as nat);
    lemma2_to64();
    assert(pow2(m) * 1 <= pow2(m) * pow2((16 - m) as nat)) by (nonlinear_arith)
        requires
            pow2(m) >= 1,
            pow2((16 - m) as nat) >= 1,
    ;
}

impl MortonKey {
    /// Decide geometric containment.
    pub fn contains_key(&self, other: &MortonKey) -> (r: bool)
        requires
            self.wf(),
            other.wf(),
        ensures
            r == self.contains(*other),
    {
        proof {
            lemma_side_bound(self.level);
        }
        let s = side_length(self.level);
        self.level <= other.level && self.anchor.x <= other.anchor.x && other.anchor.x
            < self.anchor.x + s && self.anchor.y <= other.anchor.y && other.anchor.y
            < self.anchor.y + s && self.anchor.z <= other.anchor.z && other.anchor.z
            < self.anchor.z + s
    }

    /// Decide adjacency: the boxes touch on a face, edge or vertex and
    /// neither contains the other. Boxes at different levels are compared
    /// directly on the grid.
    pub fn is_adjacent(&self, other: &MortonKey) -> (r: bool)
        requires
            self.wf(),
            other.wf(),
        ensures
            r == self.adjacent(*other),
    {
        proof {
            lemma_side_bound(self.level);
            lemma_side_bound(other.level);
        }
        let ss = side_length(self.level);
        let os = side_length(other.level);
        let nested = self.contains_key(other) || other.contains_key(self);
        !nested && other.anchor.x <= self.anchor.x + ss && self.anchor.x <= other.anchor.x + os
            && other.anchor.y <= self.anchor.y + ss && self.anchor.y <= other.anchor.y + os
            && other.anchor.z <= self.anchor.z + ss && self.anchor.z <= other.anchor.z + os
    }
}

impl MortonKey {
    /// The ancestor of this box at level `l`.
    pub fn ancestor_key(&self, l: u64) -> (r: MortonKey)
        requires
            self.wf(),
            l <= self.level,
        ensures
            r == self.ancestor_at(l),
            r.wf(),
            r.level == l,
            r.contains(*self),
    {
        proof {
            lemma_ancestor_at(*self, l);
            lemma_pow2_pos((DEEPEST_LEVEL - l) as nat);
            lemma_mod_decreases(self.anchor.x as nat, pow2((DEEPEST_LEVEL - l) as nat));
            lemma_mod_decreases(self.anchor.y as nat, pow2((DEEPEST_LEVEL - l) as nat));
            lemma_mod_decreases(self.anchor.z as nat, pow2((DEEPEST_LEVEL - l) as nat));
        }
        let s = side_length(l);
        MortonKey {
            anchor: Anchor {
                x: self.anchor.x - self.anchor.x % s,
                y: self.anchor.y - self.anchor.y % s,
                z: self.anchor.z - self.anchor.z % s,
            },
            level: l,
        }
    }
}

/// Two distinct well-formed boxes at one level sit at anchor offsets that
/// are multiples of the side; when they are adjacent each offset is `-s`,
/// `0` or `s`.
pub proof fn lemma_adjacent_same_level(a: MortonKey, n: MortonKey)
    requires
        a.wf(),
        n.wf(),
        a.level == n.level,
        a.adjacent(n),
    ensures
        n.anchor.x == a.anchor.x - a.side() || n.anchor.x == a.anchor.x || n.anchor.x == a.anchor.x
            + a.side(),
        n.anchor.y == a.anchor.y - a.side() || n.anchor.y == a.anchor.y || n.anchor.y == a.anchor.y
            + a.side(),
        n.anchor.z == a.anchor.z - a.side() || n.anchor.z == a.anchor.z || n.anchor.z == a.anchor.z
            + a.side(),
        !(n.anchor == a.anchor),
{
    let s = a.side();
    lemma_pow2_pos((DEEPEST_LEVEL - a.level) as nat);
    lemma_axis_offset(a.anchor.x as int, n.anchor.x as int, s);
    lemma_axis_offset(a.anchor.y as int, n.anchor.y as int, s);
    lemma_axis_offset(a.anchor.z as int, n.anchor.z as int, s);
    if n.anchor == a.anchor {
        assert(a.contains(n));
    }
}

/// Aligned coordinates within one side of each other differ by `-s`, `0` or
/// `s`.
proof fn lemma_axis_offset(av: int, nv: int, s: int)
    requires
        1 <= s,
        0 <= av,
        0 <= nv,
        av % s == 0,
        nv % s == 0,
        nv <= av + s,
        av <= nv + s,
    ensures
        nv == av - s || nv == av || nv == av + s,
{
    lemma_fundamental_div_mod(av, s);
    lemma_fundamental_div_mod(nv, s);
    let p = av / s;
    let q = nv / s;
    assert(nv == av - s || nv == av || nv == av + s) by (nonlinear_arith)
        requires
            av == s * p,
            nv == s * q,
            nv <= av + s,
            av <= nv + s,
            1 <= s,
    ;
}

impl MortonKey {
    /// All boxes at this box's level that are adjacent to it: up to 26, fewer
    /// at the domain boundary. The result is complete: every well-formed box
    /// of the same level adjacent to this one appears in it.
    #[verifier::loop_isolation(false)]
    #[verifier::rlimit(60)]
    pub fn neighbors(&self) -> (r: Vec<MortonKey>)
        requires
            self.wf(),
            1 <= self.level,
        ensures
            forall|j: int|
                0 <= j < r@.len() ==> (#[trigger] r@[j]).wf() && r@[j].level == self.level
                    && self.adjacent(r@[j]),
            forall|n: MortonKey|
                n.wf() && n.level == self.level && self.adjacent(n) ==> r@.contains(n),
    {
        let s = side_length(self.level);
        proof {
            lemma_pow2_pos((DEEPEST_LEVEL - self.level) as nat);
        }
        proof {
            lemma_side_bound(self.level);
        }
        let mut r: Vec<MortonKey> = Vec::new();
        let mut d: u64 = 0;
        while d < 27
            invariant
                d <= 27,
                forall|j: int|
                    0 <= j < r@.len() ==> (#[trigger] r@[j]).wf() && r@[j].level == self.level
                        && self.adjacent(r@[j]),
                forall|n: MortonKey|
                    n.wf() && n.level == self.level && self.adjacent(n) && 0 <= neighbor_slot(
                        *self,
                        n,
                    ) < d ==> r@.contains(n),
            decreases 27 - d,
        {
            let ghost r0 = r@;
            if d != 13 {
                let dx = d / 9;
                let dy = (d / 3) % 3;
                let dz = d % 3;
                let ok_x = (dx != 0 || self.anchor.x >= s) && (dx != 2 || self.anchor.x + s
                    < LEVEL_SIZE);
                let ok_y = (dy != 0 || self.anchor.y >= s) && (dy != 2 || self.anchor.y + s
                    < LEVEL_SIZE);
                let ok_z = (dz != 0 || self.anchor.z >= s) && (dz != 2 || self.anchor.z + s
                    < LEVEL_SIZE);
                if ok_x && ok_y && ok_z {
                    let nx = if dx == 0 {
                        self.anchor.x - s
                    } else if dx == 1 {
                        self.anchor.x
                    } else {
                        self.anchor.x + s
                    };
                    let ny = if dy == 0 {
                        self.anchor.y - s
                    } else if dy == 1 {
                        self.anchor.y
                    } else {
                        self.anchor.y + s
                    };
                    let nz = if dz == 0 {
                        self.anchor.z - s
                    } else if dz == 1 {
                        self.anchor.z
                    } else {
                        self.anchor.z + s
                    };
                    let c = MortonKey { anchor: Anchor { x: nx, y: ny, z: nz }, level: self.level };
                    proof {
                        lemma_neighbor_candidate_wf(*self, c);
                    }
                    r.push(c);
                }
                proof {
                    assert forall|n: MortonKey|
                        n.wf() && n.level == self.level && self.adjacent(n) && neighbor_slot(
                            *self,
                            n,
                        ) == d implies r@.contains(n) by {
                        lemma_slot_of_neighbor(*self, n);
                        assert(ok_x && ok_y && ok_z);
                        assert(r@[r@.len() - 1] == n);
                    }
                }
            }
            proof {
                lemma_seq_push_keeps(r0, r@);
                if d == 13 {
                    assert forall|n: MortonKey|
                        n.wf() && n.level == self.level && self.adjacent(n) && neighbor_slot(
                            *self,
                            n,
                        ) == d implies r@.contains(n) by {
                        lemma_slot_of_neighbor(*self, n);
                    }
                }
            }
            d = d + 1;
        }
        proof {
            assert forall|n: MortonKey|
                n.wf() && n.level == self.level && self.adjacent(n) implies r@.contains(n) by {
                lemma_slot_of_neighbor(*self, n);
            }
        }
        r
    }
}

/// A sequence of codes extended at the end keeps its members.
pub proof fn lemma_seq_push_keeps_u64(s1: Seq<u64>, s2: Seq<u64>)
    requires
        s1 == s2 || s2 == s1.push(s2.last()),
    ensures
        forall|y: u64| s1.contains(y) ==> s2.contains(y),
{
    assert forall|y: u64| s1.contains(y) implies s2.contains(y) by {
        let i = choose|i: int| 0 <= i < s1.len() && s1[i] == y;
        assert(s2[i] == y);
    }
}

/// A sequence extended at the end keeps its members.
pub proof fn lemma_seq_push_keeps(s1: Seq<MortonKey>, s2: Seq<MortonKey>)
    requires
        s1 == s2 || s2 == s1.push(s2.last()),
    ensures
        forall|y: MortonKey| s1.contains(y) ==> s2.contains(y),
{
    assert forall|y: MortonKey| s1.contains(y) implies s2.contains(y) by {
        let i = choose|i: int| 0 <= i < s1.len() && s1[i] == y;
        assert(s2[i] == y);
    }
}

/// The position of a same-level neighbour in the 3 x 3 x 3 stencil around a
/// box: each axis contributes 0, 1 or 2 for an offset of `-s`, `0` or `s`.
pub open spec fn neighbor_slot(a: MortonKey, n: MortonKey) -> int {
    let s = a.side();
    ((n.anchor.x - a.anchor.x) / s + 1) * 9 + ((n.anchor.y - a.anchor.y) / s + 1) * 3 + ((n.anchor.z
        - a.anchor.z) / s + 1)
}

/// The stencil digit of an offset of `-s`, `0` or `s`.
proof fn lemma_slot_axis(av: int, nv: int, s: int)
    requires
        1 <= s,
        nv == av - s || nv == av || nv == av + s,
    ensures
        nv == av - s ==> (nv - av) / s + 1 == 0,
        nv == av ==> (nv - av) / s + 1 == 1,
        nv == av + s ==> (nv - av) / s + 1 == 2,
{
    if nv == av - s {
        lemma_fundamental_div_mod_converse_div(nv - av, s, -1, 0);
    }
    if nv == av {
        lemma_fundamental_div_mod_converse_div(0, s, 0, 0);
    }
    if nv == av + s {
        lemma_fundamental_div_mod_converse_div(nv - av, s, 1, 0);
    }
}

/// A same-level neighbour's stencil slot is one of the 26 off-centre cells,
/// and its digits recover the neighbour's anchor.
proof fn lemma_slot_of_neighbor(a: MortonKey, n: MortonKey)
    requires
        a.wf(),
        n.wf(),
        a.level == n.level,
        a.adjacent(n),
    ensures
        0 <= neighbor_slot(a, n) < 27,
        neighbor_slot(a, n) != 13,
        neighbor_slot(a, n) / 9 == 0 ==> n.anchor.x == a.anchor.x - a.side(),
        neighbor_slot(a, n) / 9 == 1 ==> n.anchor.x == a.anchor.x,
        neighbor_slot(a, n) / 9 == 2 ==> n.anchor.x == a.anchor.x + a.side(),
        (neighbor_slot(a, n) / 3) % 3 == 0 ==> n.anchor.y == a.anchor.y - a.side(),
        (neighbor_slot(a, n) / 3) % 3 == 1 ==> n.anchor.y == a.anchor.y,
        (neighbor_slot(a, n) / 3) % 3 == 2 ==> n.anchor.y == a.anchor.y + a.side(),
        neighbor_slot(a, n) % 3 == 0 ==> n.anchor.z == a.anchor.z - a.side(),
        neighbor_slot(a, n) % 3 == 1 ==> n.anchor.z == a.anchor.z,
        neighbor_slot(a, n) % 3 == 2 ==> n.anchor.z == a.anchor.z + a.side(),
{
    let s = a.side();
    lemma_pow2_pos((DEEPEST_LEVEL - a.level) as nat);
    lemma_adjacent_same_level(a, n);
    lemma_slot_axis(a.anchor.x as int, n.anchor.x as int, s);
    lemma_slot_axis(a.anchor.y as int, n.anchor.y as int, s);
    lemma_slot_axis(a.anchor.z as int, n.anchor.z as int, s);
    let sx = (n.anchor.x - a.anchor.x) / s + 1;
    let sy = (n.anchor.y - a.anchor.y) / s + 1;
    let sz = (n.anchor.z - a.anchor.z) / s + 1;
    assert(0 <= sx < 3 && 0 <= sy < 3 && 0 <= sz < 3);
    let t = neighbor_slot(a, n);
    assert(t == 9 * sx + 3 * sy + sz);
    assert(sx == 1 && sy == 1 && sz == 1 ==> n.anchor == a.anchor);
    assert(t / 9 == sx) by {
        lemma_fundamental_div_mod_converse_div(t, 9, sx, 3 * sy + sz);
    }
    assert(t / 3 == 3 * sx + sy) by {
        lemma_fundamental_div_mod_converse_div(t, 3, 3 * sx + sy, sz);
    }
    assert((3 * sx + sy) % 3 == sy) by {
        lemma_fundamental_div_mod_converse_mod(3 * sx + sy, 3, sx, sy);
    }
    assert(t % 3 == sz) by {
        lemma_fundamental_div_mod_converse_mod(t, 3, 3 * sx + sy, sz);
    }
}

/// A stencil candidate next to a well-formed box is itself well formed and
/// adjacent to it.
proof fn lemma_neighbor_candidate_wf(a: MortonKey, n: MortonKey)
    requires
        a.wf(),
        n.level == a.level,
        n.anchor.x < LEVEL_SIZE,
        n.anchor.y < LEVEL_SIZE,
        n.anchor.z < LEVEL_SIZE,
        n.anchor.x == a.anchor.x - a.side() || n.anchor.x == a.anchor.x || n.anchor.x == a.anchor.x
            + a.side(),
        n.anchor.y == a.anchor.y - a.side() || n.anchor.y == a.anchor.y || n.anchor.y == a.anchor.y
            + a.side(),
        n.anchor.z == a.anchor.z - a.side() || n.anchor.z == a.anchor.z || n.anchor.z == a.anchor.z
            + a.side(),
        !(n.anchor == a.anchor),
    ensures
        n.wf(),
        a.adjacent(n),
{
    let s = a.side();
    lemma_pow2_pos((DEEPEST_LEVEL - a.level) as nat);
    lemma_offset_aligned(a.anchor.x as int, n.anchor.x as int, s);
    lemma_offset_aligned(a.anchor.y as int, n.anchor.y as int, s);
    lemma_offset_aligned(a.anchor.z as int, n.anchor.z as int, s);
    assert(n.wf());
    assert(!a.contains(n) && !n.contains(a)) by {
        if a.contains(n) {
            lemma_anchor_eq_from_contains(a, n);
        }
        if n.contains(a) {
            lemma_anchor_eq_from_contains(n, a);
        }
    }
}

/// A value one side away from an aligned value is aligned.
proof fn lemma_offset_aligned(av: int, nv: int, s: int)
    requires
        1 <= s,
        0 <= av,
        0 <= nv,
        av % s == 0,
        nv == av - s || nv == av || nv == av + s,
    ensures
        nv % s == 0,
{
    if nv == av + s {
        lemma_mod_add_multiples_vanish(av, s);
    }
    if nv == av - s {
        lemma_mod_sub_multiples_vanish(av, s);
    }
}

/// Same-level containment forces equal anchors.
proof fn lemma_anchor_eq_from_contains(a: MortonKey, n: MortonKey)
    requires
        a.wf(),
        n.wf(),
        a.level == n.level,
        a.contains(n),
    ensures
        n.anchor == a.anchor,
{
    let s = a.side();
    lemma_pow2_pos((DEEPEST_LEVEL - a.level) as nat);
    lemma_contained_axis(a.anchor.x as int, n.anchor.x as int, s);
    lemma_contained_axis(a.anchor.y as int, n.anchor.y as int, s);
    lemma_contained_axis(a.anchor.z as int, n.anchor.z as int, s);
}

/// An aligned coordinate inside an aligned cell sits at the cell's corner.
proof fn lemma_contained_axis(av: int, nv: int, s: int)
    requires
        1 <= s,
        0 <= av,
        0 <= nv,
        av % s == 0,
        nv % s == 0,
        av <= nv < av + s,
    ensures
        nv == av,
{
    if av < nv {
        lemma_aligned_below(av, nv, s);
    }
}

impl MortonKey {
    /// The ancestor of this box at the coarser level `l`: the anchor rounded
    /// down to the grid of that level.
    pub open spec fn ancestor_at(self, l: u64) -> MortonKey {
        let s = pow2((DEEPEST_LEVEL - l) as nat) as int;
        MortonKey {
            anchor: Anchor {
                x: (self.anchor.x as int - self.anchor.x as int % s) as u64,
                y: (self.anchor.y as int - self.anchor.y as int % s) as u64,
                z: (self.anchor.z as int - self.anchor.z as int % s) as u64,
            },
            level: l,
        }
    }
}

/// The ancestor at a coarser level is well formed, contains the box, and its
/// start is the box's start rounded down to that level's extent.
pub proof fn lemma_ancestor_at(k: MortonKey, l: u64)
    requires
        k.wf(),
        l <= k.level,
    ensures
        k.ancestor_at(l).wf(),
        k.ancestor_at(l).level == l,
        k.ancestor_at(l).contains(k),
        k.ancestor_at(l).start() == k.start() - k.start() % pow8((DEEPEST_LEVEL - l) as nat),
        l == k.level ==> k.ancestor_at(l) == k,
{
    let a = k.ancestor_at(l);
    let m = (DEEPEST_LEVEL - l) as nat;
    let s = pow2(m) as int;
    lemma_pow2_pos(m);
    let kx = k.anchor.x as int;
    let ky = k.anchor.y as int;
    let kz = k.anchor.z as int;
    lemma_fundamental_div_mod(kx, s);
    lemma_fundamental_div_mod(ky, s);
    lemma_fundamental_div_mod(kz, s);
    lemma_mod_division_less_than_divisor(kx, s);
    lemma_mod_division_less_than_divisor(ky, s);
    lemma_mod_division_less_than_divisor(kz, s);
    assert(a.wf()) by {
        lemma_mod_multiples_basic(kx / s, s);
        lemma_mod_multiples_basic(ky / s, s);
        lemma_mod_multiples_basic(kz / s, s);
        lemma_mul_is_commutative(s, kx / s);
        lemma_mul_is_commutative(s, ky / s);
        lemma_mul_is_commutative(s, kz / s);
    }
    // the rounded anchor still contains k because the side of k divides s
    assert(kx % s < s && ky % s < s && kz % s < s);
    assert(a.contains(k));
    lemma_contains_iff_range(a, k);
    lemma_start_aligned(a);
    lemma_start_aligned(k);
    let e = pow8(m);
    lemma_pow8_pos(m);
    lemma_fundamental_div_mod(k.start(), e);
    lemma_fundamental_div_mod(a.start(), e);
    lemma_div_eq_iff_in_block(k.start(), a.start() / e, e);
    assert(k.start() / e == a.start() / e) by {
        assert(e * (a.start() / e) == a.start());
        assert(e * (a.start() / e + 1) == a.start() + e) by (nonlinear_arith)
            requires
                e * (a.start() / e) == a.start(),
        ;
    }
    // when l is k's own level the rounding is the identity
    if l == k.level {
        assert(kx % s == 0 && ky % s == 0 && kz % s == 0);
        assert(a == k);
    }
}

/// Rounding the start down to a coarser extent is monotone.
pub proof fn lemma_floor_monotone(x: int, y: int, e: int)
    requires
        0 <= x <= y,
        1 <= e,
    ensures
        x - x % e <= y - y % e,
{
    lemma_fundamental_div_mod(x, e);
    lemma_fundamental_div_mod(y, e);
    lemma_div_is_ordered(x, y, e);
    assert(e * (x / e) <= e * (y / e)) by (nonlinear_arith)
        requires
            x / e <= y / e,
            1 <= e,
    ;
}

impl MortonKey {
    /// The box and all its ancestors up to the root, finest first: entry
    /// `i` is the ancestor at level `self.level - i`.
    pub fn ancestors(&self) -> (r: Vec<MortonKey>)
        requires
            self.wf(),
        ensures
            r@.len() == self.level + 1,
            forall|i: int|
                0 <= i < r@.len() ==> (#[trigger] r@[i]) == self.ancestor_at(
                    (self.level - i) as u64,
                ) && r@[i].wf() && r@[i].level == self.level - i && r@[i].contains(*self),
            r@[0] == *self,
    {
        proof {
            lemma_ancestor_at(*self, self.level);
        }
        let mut r: Vec<MortonKey> = Vec::new();
        let mut i: u64 = 0;
        while i <= self.level
            invariant
                self.wf(),
                i <= self.level + 1,
                r@.len() == i,
                forall|t: int|
                    0 <= t < r@.len() ==> (#[trigger] r@[t]) == self.ancestor_at(
                        (self.level - t) as u64,
                    ) && r@[t].wf() && r@[t].level == self.level - t && r@[t].contains(*self),
            decreases self.level + 1 - i,
        {
            let a = self.ancestor_key(self.level - i);
            proof {
                lemma_ancestor_at(*self, (self.level - i) as u64);
            }
            r.push(a);
            i = i + 1;
        }
        proof {
            assert(r@[0] == self.ancestor_at(self.level));
        }
        r
    }

    /// The deepest box containing both `self` and `other`: their finest
    /// common ancestor. No deeper box contains the two.
    pub fn finest_ancestor(&self, other: &MortonKey) -> (r: MortonKey)
        requires
            self.wf(),
            other.wf(),
        ensures
            r.wf(),
            r.contains(*self),
            r.contains(*other),
            forall|c: MortonKey| c.wf() && c.contains(*self) && c.contains(*other) ==> c.level
                <= r.level,
    {
        let mut l: u64 = if self.level < other.level {
            self.level
        } else {
            other.level
        };
        loop
            invariant
                self.wf(),
                other.wf(),
                l <= self.level && l <= other.level,
                forall|m: u64|
                    l < m <= self.level && m <= other.level ==> #[trigger] self.ancestor_at(m)
                        != other.ancestor_at(m),
            ensures
                l <= self.level && l <= other.level,
                self.ancestor_at(l) == other.ancestor_at(l),
                forall|m: u64|
                    l < m <= self.level && m <= other.level ==> #[trigger] self.ancestor_at(m)
                        != other.ancestor_at(m),
            decreases l,
        {
            let a = self.ancestor_key(l);
            let b = other.ancestor_key(l);
            if a == b {
                break;
            }
            proof {
                lemma_ancestor_at(*self, l);
                lemma_ancestor_at(*other, l);
                if l == 0 {
                    // level-zero boxes are all the root
                    lemma2_to64();
                    lemma_pow2_pos(16);
                    lemma_small_mod(a.anchor.x as nat, 65536);
                    lemma_small_mod(a.anchor.y as nat, 65536);
                    lemma_small_mod(a.anchor.z as nat, 65536);
                    lemma_small_mod(b.anchor.x as nat, 65536);
                    lemma_small_mod(b.anchor.y as nat, 65536);
                    lemma_small_mod(b.anchor.z as nat, 65536);
                    assert(a == b);
                }
            }
            l = l - 1;
        }
        proof {
            lemma_ancestor_at(*self, l);
            lemma_ancestor_at(*other, l);
            assert forall|c: MortonKey|
                c.wf() && c.contains(*self) && c.contains(*other) implies c.level <= l by {
                if c.level > l {
                    lemma_ancestor_at(*self, c.level);
                    lemma_ancestor_at(*other, c.level);
                    lemma_unique_cover_at_level(c, self.ancestor_at(c.level), *self);
                    lemma_unique_cover_at_level(c, other.ancestor_at(c.level), *other);
                    assert(self.ancestor_at(c.level) == other.ancestor_at(c.level));
                }
            }
        }
        self.ancestor_key(l)
    }
}

/// Rebuild the key at `level` whose range starts at curve index `idx`.
#[verifier::loop_isolation(false)]
pub fn key_from_index(idx: u64, level: u64) -> (r: MortonKey)
    requires
        level <= DEEPEST_LEVEL,
        idx < 0x1000000000000,
        idx as int % pow8((DEEPEST_LEVEL - level) as nat) == 0,
    ensures
        r.wf(),
        r.level == level,
        r.start() == idx,
{
    let mut x: u64 = 0;
    let mut y: u64 = 0;
    let mut z: u64 = 0;
    let mut p: u64 = extent_length(1);
    let mut j: u64 = 0;
    proof {
        lemma_pow8_16();
        lemma_pow8_pos(16);
        assert(idx as int / pow8(16) == 0) by {
            lemma_basic_div(idx as int, pow8(16));
        }
        lemma2_to64();
    }
    while j < 16
        invariant
            j <= 16,
            j < 16 ==> p as int == pow8((15 - j) as nat),
            x < pow2(j as nat),
            y < pow2(j as nat),
            z < pow2(j as nat),
            ilv(x as int, y as int, z as int, j as nat) == idx as int / pow8((16 - j) as nat),
        decreases 16 - j,
    {
        proof {
            lemma_pow8_pos((15 - j) as nat);
        }
        let d = (idx / p) % 8;
        proof {
            let pj = pow8((15 - j) as nat);
            let v = idx as int / pj;
            lemma_pow8_pos((15 - j) as nat);
            lemma_mod_division_less_than_divisor(v, 8);
            lemma_div_pos_is_pos(v, 8);
            lemma_div_pos_is_pos(idx as int, pj);
            // v / 8 is the next coarser digit string
            lemma_div_denominator(idx as int, pj, 8);
            assert(pj * 8 == pow8((16 - j) as nat)) by {
                lemma_pow8_adds((15 - j) as nat, 1);
                assert(pow8(1) == 8) by {
                    reveal_with_fuel(pow8, 2);
                }
            }
            lemma_fundamental_div_mod(v, 8);
            // the new interleave appends digit d at the bottom
            let dd = v % 8;
            let bx = dd / 4;
            let by = (dd / 2) % 2;
            let bz = dd % 2;
            assert(dd == 4 * bx + 2 * by + bz);
            assert((2 * x as int + bx) % 2 == bx && (2 * x as int + bx) / 2 == x as int) by {
                lemma_fundamental_div_mod_converse(2 * x as int + bx, 2, x as int, bx);
            }
            assert((2 * y as int + by) % 2 == by && (2 * y as int + by) / 2 == y as int) by {
                lemma_fundamental_div_mod_converse(2 * y as int + by, 2, y as int, by);
            }
            assert((2 * z as int + bz) % 2 == bz && (2 * z as int + bz) / 2 == z as int) by {
                lemma_fundamental_div_mod_converse(2 * z as int + bz, 2, z as int, bz);
            }
            lemma_pow2_unfold((j + 1) as nat);
            lemma_pow2_strictly_increases(j as nat, 16);
        }
        x = 2 * x + d / 4;
        y = 2 * y + (d / 2) % 2;
        z = 2 * z + d % 2;
        j = j + 1;
        if j < 16 {
            p = p / 8;
            proof {
                assert(pow8((16 - j) as nat) == 8 * pow8((15 - j) as nat));
            }
        }
    }
    let r = MortonKey { anchor: Anchor { x, y, z }, level };
    proof {
        lemma_pow8_pos(0);
        assert(pow8(0) == 1);
        lemma_div_basics(idx as int);
        assert(r.start() == idx);
        // alignment of the anchor follows from alignment of the index
        let m = (DEEPEST_LEVEL - level) as nat;
        lemma_ilv_split(x as int, y as int, z as int, m, 16);
        lemma_ilv_bound(x as int, y as int, z as int, m);
        lemma_pow8_pos(m);
        let lo = ilv(x as int, y as int, z as int, m);
        let hi = ilv(
            x as int / pow2(m) as int,
            y as int / pow2(m) as int,
            z as int / pow2(m) as int,
            (16 - m) as nat,
        );
        assert(lo == idx as int % pow8(m)) by {
            lemma_mul_is_commutative(pow8(m), hi);
            lemma_fundamental_div_mod_converse_mod(idx as int, pow8(m), hi, lo);
        }
        lemma_ilv_zero_aligned(x as int, y as int, z as int, m);
        assert(r.wf());
    }
    r
}

} // verus!
