//! Fixed-point scalar arithmetic for the ray tracer: the global scale and
//! range constants, coordinate triples, truncating division and an integer
//! square root, each with an exact mathematical specification.

use vstd::prelude::*;

verus! {

/// Fixed-point scale: a world coordinate is stored as an integer count of
/// 1/1024 units, so `FP` is one world unit.
pub const FP: i64 = 1024;

/// Largest magnitude a stored position coordinate may have (fixed-point).
pub const POS_MAX: i64 = 16777216;

/// Largest sphere radius (fixed-point).
pub const RAD_MAX: i64 = 16777216;

/// Largest magnitude a ray-direction component may have (fixed-point).
pub const DIR_MAX: i64 = 32768;

/// Largest hit parameter a primitive ever reports.
pub const T_MAX: i64 = 1073741824;

/// Padding added to bounding boxes so that fixed-point rounding in the
/// intersection formulas never places a reported hit point outside the
/// reporting primitive's box.
pub const PAD: i64 = 64;

/// Largest magnitude a bounding-box coordinate may have.
pub const BOX_MAX: i64 = 33554496;

/// A coordinate triple in fixed-point units.
#[derive(Clone, Copy, PartialEq, Eq, Structural, Debug)]
pub struct Vec3 {
    pub x: i64,
    pub y: i64,
    pub z: i64,
}

/// Every component of `v` has magnitude at most `m`.
pub open spec fn vec3_in_range(v: Vec3, m: i64) -> bool {
    &&& -m <= v.x <= m
    &&& -m <= v.y <= m
    &&& -m <= v.z <= m
}

/// Mathematical dot product of two coordinate triples.
pub open spec fn dot(a: Vec3, b: Vec3) -> int {
    a.x * b.x + a.y * b.y + a.z * b.z
}

/// Bound on |a * b| from bounds on the factors.
pub proof fn lemma_mul_bound(a: int, b: int, ma: int, mb: int)
    requires
        -ma <= a <= ma,
        -mb <= b <= mb,
        0 <= ma,
        0 <= mb,
    ensures
        -(ma * mb) <= a * b <= ma * mb,
{
    assert(-(ma * mb) <= a * b <= ma * mb) by (nonlinear_arith)
        requires
            -ma <= a <= ma,
            -mb <= b <= mb,
            0 <= ma,
            0 <= mb,
    ;
}

/// A square is nonnegative.
pub proof fn lemma_square_nonneg(a: int)
    ensures
        a * a >= 0,
{
    assert(a * a >= 0) by (nonlinear_arith);
}

/// Truncating division (rounding toward zero), for a positive divisor.
pub open spec fn tdiv_spec(n: int, d: int) -> int
    recommends
        d > 0,
{
    if n >= 0 {
        n / d
    } else {
        -((-n) / d)
    }
}

/// Truncating division on machine integers; returns exactly `tdiv_spec`.
pub fn tdiv(n: i64, d: i64) -> (r: i64)
    requires
        d > 0,
        n > i64::MIN,
    ensures
        r == tdiv_spec(n as int, d as int),
        n >= 0 ==> 0 <= r <= n,
        n < 0 ==> n <= r <= 0,
{
    if n >= 0 {
        let q = (n as u64) / (d as u64);
        proof {
            vstd::arithmetic::div_mod::lemma_div_nonincreasing(n as int, d as int);
            vstd::arithmetic::div_mod::lemma_div_basics_4(n as int, d as int);
        }
        q as i64
    } else {
        let m = ((-n) as u64) / (d as u64);
        proof {
            vstd::arithmetic::div_mod::lemma_div_nonincreasing(-n as int, d as int);
            vstd::arithmetic::div_mod::lemma_div_basics_4(-n as int, d as int);
        }
        -(m as i64)
    }
}

/// Truncating division on 128-bit integers; returns exactly `tdiv_spec`.
pub fn tdiv128(n: i128, d: i128) -> (r: i128)
    requires
        d > 0,
        n > i128::MIN,
    ensures
        r == tdiv_spec(n as int, d as int),
        n >= 0 ==> 0 <= r <= n,
        n < 0 ==> n <= r <= 0,
{
    if n >= 0 {
        let q = (n as u128) / (d as u128);
        proof {
            vstd::arithmetic::div_mod::lemma_div_nonincreasing(n as int, d as int);
            vstd::arithmetic::div_mod::lemma_div_basics_4(n as int, d as int);
        }
        q as i128
    } else {
        let m = ((-n) as u128) / (d as u128);
        proof {
            vstd::arithmetic::div_mod::lemma_div_nonincreasing(-n as int, d as int);
            vstd::arithmetic::div_mod::lemma_div_basics_4(-n as int, d as int);
        }
        -(m as i128)
    }
}

/// The floor of the square root of a nonnegative integer: the unique
/// nonnegative `r` with `r * r <= n < (r + 1) * (r + 1)`.
pub open spec fn sqrt_floor(n: int) -> int
    recommends
        n >= 0,
{
    choose|r: int| 0 <= r && #[trigger] (r * r) <= n && (r + 1) * (r + 1) > n
}

/// Any nonnegative `r` with `r * r <= n < (r + 1) * (r + 1)` is `sqrt_floor(n)`.
pub proof fn lemma_sqrt_floor_unique(n: int, r: int)
    requires
        0 <= r,
        r * r <= n,
        (r + 1) * (r + 1) > n,
    ensures
        r == sqrt_floor(n),
{
    assert(exists|q: int| 0 <= q && #[trigger] (q * q) <= n && (q + 1) * (q + 1) > n) by {
        assert(0 <= r && r * r <= n && (r + 1) * (r + 1) > n);
    }
    let q = sqrt_floor(n);
    assert(0 <= q && q * q <= n && (q + 1) * (q + 1) > n);
    if q < r {
        assert((q + 1) * (q + 1) <= r * r) by (nonlinear_arith)
            requires
                0 <= q + 1,
                q + 1 <= r,
        ;
        assert(false);
    }
    if r < q {
        assert((r + 1) * (r + 1) <= q * q) by (nonlinear_arith)
            requires
                0 <= r + 1,
                r + 1 <= q,
        ;
        assert(false);
    }
}

/// Integer square root by binary search; returns exactly `sqrt_floor`.
pub fn isqrt(n: u128) -> (r: u128)
    ensures
        r * r <= n,
        (r + 1) * (r + 1) > n,
        r == sqrt_floor(n as int),
{
    let mut lo: u128 = 0;
    let mut hi: u128 = 0x1_0000_0000_0000_0000;
    while lo + 1 < hi
        invariant
            lo < hi,
            hi <= 0x1_0000_0000_0000_0000,
            lo * lo <= n,
            hi * hi > n,
        decreases hi - lo,
    {
        let gap = hi - lo;
        proof {
            assert(gap / 2 >= 1 && gap / 2 < gap) by (nonlinear_arith)
                requires
                    gap >= 2,
            ;
        }
        let mid = lo + gap / 2;
        proof {
            assert(mid * mid <= 0xffff_ffff_ffff_ffff * 0xffff_ffff_ffff_ffff)
                by (nonlinear_arith)
                requires
                    0 <= mid,
                    mid <= 0xffff_ffff_ffff_ffff,
            ;
        }
        let sq = mid * mid;
        if sq <= n {
            lo = mid;
        } else {
            hi = mid;
        }
    }
    proof {
        lemma_sqrt_floor_unique(n as int, lo as int);
    }
    lo
}

} // verus!
