//! Transfer vectors: the keys of the multipole-to-local operator library.
//!
//! A far-field source in a box's V list sits at an integer offset
//! `(dx, dy, dz)` of whole box sides, each component between -3 and 3 and
//! not all between -1 and 1. The translation operator depends only on this
//! offset, so the precomputed library is indexed by a hash of it; there are
//! `7^3 - 3^3 = 316` distinct transfer vectors.

use vstd::prelude::*;
use vstd::arithmetic::div_mod::*;
use vstd::arithmetic::power2::*;
use crate::morton::{lemma_seq_push_keeps_u64, lemma_side_bound, side_length, MortonKey};

verus! {

/// The canonical hash of a transfer vector: its components, each shifted by
/// 3, read as a three-digit base-7 number.
pub open spec fn transfer_hash(dx: int, dy: int, dz: int) -> int {
    (dx + 3) * 49 + (dy + 3) * 7 + (dz + 3)
}

/// A hash whose three digits all lie in the near-field band: the offset has
/// every component between -1 and 1, so it is not a transfer vector.
pub open spec fn near_hash(d: int) -> bool {
    2 <= d / 49 <= 4 && 2 <= (d / 7) % 7 <= 4 && 2 <= d % 7 <= 4
}

/// Law: the hash is one-to-one on the offset cube: equal hashes of offsets
/// with components in `-3..=3` force equal offsets.
pub proof fn lemma_transfer_hash_injective(
    x1: int,
    y1: int,
    z1: int,
    x2: int,
    y2: int,
    z2: int,
)
    requires
        -3 <= x1 <= 3 && -3 <= y1 <= 3 && -3 <= z1 <= 3,
        -3 <= x2 <= 3 && -3 <= y2 <= 3 && -3 <= z2 <= 3,
        transfer_hash(x1, y1, z1) == transfer_hash(x2, y2, z2),
    ensures
        x1 == x2 && y1 == y2 && z1 == z2,
{
}

/// The hash of the offset from `src` to `tgt`, two boxes of one level at
/// most three sides apart on every axis: the key under which the
/// multipole-to-local operator for this pair is stored.
pub fn find_transfer_vector(src: &MortonKey, tgt: &MortonKey) -> (r: u64)
    requires
        src.wf(),
        tgt.wf(),
        src.level == tgt.level,
        1 <= src.level,
        src.anchor.x <= tgt.anchor.x + 3 * src.side(),
        tgt.anchor.x <= src.anchor.x + 3 * src.side(),
        src.anchor.y <= tgt.anchor.y + 3 * src.side(),
        tgt.anchor.y <= src.anchor.y + 3 * src.side(),
        src.anchor.z <= tgt.anchor.z + 3 * src.side(),
        tgt.anchor.z <= src.anchor.z + 3 * src.side(),
    ensures
        r as int == transfer_hash(
            (tgt.anchor.x - src.anchor.x) / src.side(),
            (tgt.anchor.y - src.anchor.y) / src.side(),
            (tgt.anchor.z - src.anchor.z) / src.side(),
        ),
        r < 343,
{
    proof {
        lemma_side_bound(src.level);
        lemma_pow2_pos((16 - src.level) as nat);
    }
    let s = side_length(src.level);
    proof {
        lemma_axis_digit(src.anchor.x as int, tgt.anchor.x as int, s as int);
        lemma_axis_digit(src.anchor.y as int, tgt.anchor.y as int, s as int);
        lemma_axis_digit(src.anchor.z as int, tgt.anchor.z as int, s as int);
    }
    let ux = (tgt.anchor.x + 3 * s - src.anchor.x) / s;
    let uy = (tgt.anchor.y + 3 * s - src.anchor.y) / s;
    let uz = (tgt.anchor.z + 3 * s - src.anchor.z) / s;
    ux * 49 + uy * 7 + uz
}

/// On one axis, the shifted gap between two aligned coordinates at most
/// three sides apart divides out to a digit between 0 and 6.
proof fn lemma_axis_digit(sv: int, tv: int, s: int)
    requires
        1 <= s,
        0 <= sv,
        0 <= tv,
        sv % s == 0,
        tv % s == 0,
        sv <= tv + 3 * s,
        tv <= sv + 3 * s,
    ensures
        0 <= (tv + 3 * s - sv) / s <= 6,
        (tv + 3 * s - sv) / s == (tv - sv) / s + 3,
{
    lemma_fundamental_div_mod(sv, s);
    lemma_fundamental_div_mod(tv, s);
    let qs = sv / s;
    let qt = tv / s;
    assert(sv == s * qs && tv == s * qt);
    assert(tv + 3 * s - sv == (qt + 3 - qs) * s + 0 && tv - sv == (qt - qs) * s + 0 && qt - qs + 3
        >= 0 && qt - qs <= 3) by (nonlinear_arith)
        requires
            sv == s * qs,
            tv == s * qt,
            sv <= tv + 3 * s,
            tv <= sv + 3 * s,
            s >= 1,
    ;
    lemma_fundamental_div_mod_converse_div(tv + 3 * s - sv, s, qt + 3 - qs, 0);
    lemma_fundamental_div_mod_converse_div(tv - sv, s, qt - qs, 0);
}

/// All 316 transfer-vector hashes, ascending: the three-digit base-7
/// numbers whose digits do not all lie in the near band. Complete: every
/// such hash below `343` appears.
#[verifier::loop_isolation(false)]
#[verifier::rlimit(100)]
pub fn transfer_vectors() -> (r: Vec<u64>)
    ensures
        r@.len() == 316,
        forall|t: int| 0 <= t < r@.len() ==> (#[trigger] r@[t]) < 343 && !near_hash(r@[t] as int),
        forall|a: int, b: int| 0 <= a < b < r@.len() ==> r@[a] < r@[b],
        forall|d: u64| d < 343 && !near_hash(d as int) ==> r@.contains(d),
{
    let mut r: Vec<u64> = Vec::new();
    let mut a: u64 = 0;
    while a < 7
        invariant
            a <= 7,
            r@.len() == 49 * a - 9 * near_below(a as int),
            forall|t: int|
                0 <= t < r@.len() ==> (#[trigger] r@[t]) < 49 * a && !near_hash(r@[t] as int),
            forall|x: int, y: int| 0 <= x < y < r@.len() ==> r@[x] < r@[y],
            forall|d: u64| d < 49 * a && !near_hash(d as int) ==> r@.contains(d),
        decreases 7 - a,
    {
        let mut b: u64 = 0;
        while b < 7
            invariant
                a < 7,
                b <= 7,
                r@.len() == 49 * a - 9 * near_below(a as int) + 7 * b - (if 2 <= a <= 4 {
                    3 * near_below(b as int)
                } else {
                    0
                }),
                forall|t: int|
                    0 <= t < r@.len() ==> (#[trigger] r@[t]) < 49 * a + 7 * b && !near_hash(
                        r@[t] as int,
                    ),
                forall|x: int, y: int| 0 <= x < y < r@.len() ==> r@[x] < r@[y],
                forall|d: u64| d < 49 * a + 7 * b && !near_hash(d as int) ==> r@.contains(d),
            decreases 7 - b,
        {
            let mut c: u64 = 0;
            while c < 7
                invariant
                    a < 7,
                    b < 7,
                    c <= 7,
                    r@.len() == 49 * a - 9 * near_below(a as int) + 7 * b - (if 2 <= a <= 4 {
                        3 * near_below(b as int)
                    } else {
                        0
                    }) + c - (if 2 <= a <= 4 && 2 <= b <= 4 {
                        near_below(c as int)
                    } else {
                        0
                    }),
                    forall|t: int|
                        0 <= t < r@.len() ==> (#[trigger] r@[t]) < 49 * a + 7 * b + c && !near_hash(
                            r@[t] as int,
                        ),
                    forall|x: int, y: int| 0 <= x < y < r@.len() ==> r@[x] < r@[y],
                    forall|d: u64| d < 49 * a + 7 * b + c && !near_hash(d as int) ==> r@.contains(d),
                decreases 7 - c,
            {
                let d = a * 49 + b * 7 + c;
                proof {
                    lemma_fundamental_div_mod_converse(
                        d as int,
                        49,
                        a as int,
                        (7 * b + c) as int,
                    );
                    lemma_fundamental_div_mod_converse(d as int, 7, (7 * a + b) as int, c as int);
                    lemma_fundamental_div_mod_converse(
                        (7 * a + b) as int,
                        7,
                        a as int,
                        b as int,
                    );
                    assert(d as int / 49 == a && d as int % 7 == c && (d as int / 7) % 7 == b);
                }
                let ghost r0 = r@;
                if !(2 <= a && a <= 4 && 2 <= b && b <= 4 && 2 <= c && c <= 4) {
                    r.push(d);
                }
                proof {
                    lemma_seq_push_keeps_u64(r0, r@);
                    assert forall|e: u64| e < 49 * a + 7 * b + c + 1 && !near_hash(
                        e as int,
                    ) implies r@.contains(e) by {
                        if e == d {
                            assert(r@[r@.len() - 1] == d);
                        }
                    }
                }
                c = c + 1;
            }
            b = b + 1;
        }
        a = a + 1;
    }
    r
}

/// How many of the digit values below `x` lie in the near band `2..=4`.
pub open spec fn near_below(x: int) -> int {
    if x <= 2 {
        0
    } else if x >= 5 {
        3
    } else {
        x - 2
    }
}

} // verus!