//! Saturating fixed-point scalars.
//!
//! A coordinate is an `i64` counting increments of `1 / SCALE` of a world
//! unit. Every operation truncates toward zero where it divides, and
//! saturates at `MAX_ABS`, so all solver arithmetic is total and exactly
//! described by the spec functions below.

use vstd::math::abs;
use vstd::prelude::*;

verus! {

/// Number of raw increments in one world unit.
pub const SCALE: i64 = 4294967296;

/// One half, in raw increments.
pub const HALF: i64 = 2147483648;

/// Largest magnitude a stored coordinate may take; results are clamped here.
pub const MAX_ABS: i64 = 2305843009213693952;

/// Largest magnitude accepted as an operand: twice `MAX_ABS`, so that sums
/// and differences of stored coordinates are themselves valid operands.
pub const WIDE_ABS: i64 = 4611686018427387904;

/// A value the solver may store.
pub open spec fn in_range(v: int) -> bool {
    -MAX_ABS <= v <= MAX_ABS
}

/// A value an arithmetic operation accepts.
pub open spec fn wide_range(v: int) -> bool {
    -WIDE_ABS <= v <= WIDE_ABS
}

/// Saturation at the representable coordinate range.
pub open spec fn spec_clamp(v: int) -> int {
    if v > MAX_ABS {
        MAX_ABS as int
    } else if v < -MAX_ABS {
        -MAX_ABS as int
    } else {
        v
    }
}

/// Quotient truncated toward zero, as hardware division computes it.
pub open spec fn trunc_div(n: int, d: int) -> int
    recommends
        d != 0,
{
    let m = (abs(n) / abs(d)) as int;
    if (n >= 0) == (d >= 0) {
        m
    } else {
        -m
    }
}

/// Saturating sum of two coordinates.
pub open spec fn spec_add(a: int, b: int) -> int {
    spec_clamp(a + b)
}

/// Saturating difference of two coordinates.
pub open spec fn spec_sub(a: int, b: int) -> int {
    spec_clamp(a - b)
}

/// Saturating fixed-point product: `a * b` rescaled by `SCALE`,
/// truncated toward zero.
pub open spec fn spec_mul(a: int, b: int) -> int {
    spec_clamp(trunc_div(a * b, SCALE as int))
}

/// Saturating fixed-point quotient: `a / b` rescaled by `SCALE`,
/// truncated toward zero.
pub open spec fn spec_div(a: int, b: int) -> int
    recommends
        b != 0,
{
    spec_clamp(trunc_div(a * SCALE, b))
}

pub fn fx_add(a: i64, b: i64) -> (r: i64)
    requires
        in_range(a as int),
        in_range(b as int),
    ensures
        r == spec_add(a as int, b as int),
        in_range(r as int),
{
    let s: i64 = a + b;
    if s > MAX_ABS {
        MAX_ABS
    } else if s < -MAX_ABS {
        -MAX_ABS
    } else {
        s
    }
}

pub fn fx_sub(a: i64, b: i64) -> (r: i64)
    requires
        in_range(a as int),
        in_range(b as int),
    ensures
        r == spec_sub(a as int, b as int),
        in_range(r as int),
{
    let s: i64 = a - b;
    if s > MAX_ABS {
        MAX_ABS
    } else if s < -MAX_ABS {
        -MAX_ABS
    } else {
        s
    }
}

pub fn fx_mul(a: i64, b: i64) -> (r: i64)
    requires
        wide_range(a as int),
        wide_range(b as int),
    ensures
        r == spec_mul(a as int, b as int),
        in_range(r as int),
{
    let wa: i128 = a as i128;
    let wb: i128 = b as i128;
    assert(-21267647932558653966460912964485513216 <= wa * wb
        <= 21267647932558653966460912964485513216) by (nonlinear_arith)
        requires
            -4611686018427387904 <= wa <= 4611686018427387904,
            -4611686018427387904 <= wb <= 4611686018427387904,
    ;
    let p: i128 = wa * wb;
    let neg: bool = p < 0;
    let mag: u128 = if neg {
        (-p) as u128
    } else {
        p as u128
    };
    let q: u128 = mag / (SCALE as u128);
    assert(q == abs(a * b) / (SCALE as nat));
    let qc: i64 = if q > (MAX_ABS as u128) {
        MAX_ABS
    } else {
        q as i64
    };
    if neg {
        -qc
    } else {
        qc
    }
}

pub fn fx_div(a: i64, b: i64) -> (r: i64)
    requires
        wide_range(a as int),
        wide_range(b as int),
        b != 0,
    ensures
        r == spec_div(a as int, b as int),
        in_range(r as int),
{
    let wa: i128 = a as i128;
    assert(-19807040628566084398385987584 <= wa * 4294967296
        <= 19807040628566084398385987584) by (nonlinear_arith)
        requires
            -4611686018427387904 <= wa <= 4611686018427387904,
    ;
    let n: i128 = wa * (SCALE as i128);
    assert(n == wa * 4294967296);
    let neg: bool = (a < 0) != (b < 0);
    let magn: u128 = if n < 0 {
        (-n) as u128
    } else {
        n as u128
    };
    let magd: u128 = if b < 0 {
        (-(b as i128)) as u128
    } else {
        b as u128
    };
    let q: u128 = magn / magd;
    assert(q as nat == abs(a * SCALE) / abs(b as int));
    let qc: i64 = if q > (MAX_ABS as u128) {
        MAX_ABS
    } else {
        q as i64
    };
    if neg {
        -qc
    } else {
        qc
    }
}

/// Largest `r` with `r * r <= n`.
pub open spec fn sqrt_floor(n: nat) -> nat
    decreases n,
{
    if n == 0 {
        0
    } else {
        let p = sqrt_floor((n - 1) as nat);
        if (p + 1) * (p + 1) <= n {
            p + 1
        } else {
            p
        }
    }
}

/// `sqrt_floor` satisfies its defining inequalities.
pub proof fn lemma_sqrt_floor(n: nat)
    ensures
        sqrt_floor(n) * sqrt_floor(n) <= n,
        n < (sqrt_floor(n) + 1) * (sqrt_floor(n) + 1),
    decreases n,
{
    if n > 0 {
        lemma_sqrt_floor((n - 1) as nat);
        let p = sqrt_floor((n - 1) as nat);
        if (p + 1) * (p + 1) <= n {
            assert(sqrt_floor(n) == p + 1);
            assert(n < (sqrt_floor(n) + 1) * (sqrt_floor(n) + 1)) by (nonlinear_arith)
                requires
                    sqrt_floor(n) == p + 1,
                    n <= (p + 1) * (p + 1),
            ;
        } else {
            assert(sqrt_floor(n) == p);
            assert(n < (sqrt_floor(n) + 1) * (sqrt_floor(n) + 1)) by (nonlinear_arith)
                requires
                    sqrt_floor(n) == p,
                    n < (p + 1) * (p + 1),
            ;
        }
    } else {
        assert(sqrt_floor(n) == 0);
        assert(n < (sqrt_floor(n) + 1) * (sqrt_floor(n) + 1)) by (nonlinear_arith)
            requires
                sqrt_floor(n) == 0,
                n == 0,
        ;
    }
}

/// No two distinct values both satisfy the square-root inequalities.
pub proof fn lemma_sqrt_floor_unique(n: nat, r: nat)
    requires
        r * r <= n,
        n < (r + 1) * (r + 1),
    ensures
        r == sqrt_floor(n),
{
    lemma_sqrt_floor(n);
    let s = sqrt_floor(n);
    if r < s {
        assert((r + 1) * (r + 1) <= s * s) by (nonlinear_arith)
            requires
                r + 1 <= s,
        ;
    }
    if s < r {
        assert((s + 1) * (s + 1) <= r * r) by (nonlinear_arith)
            requires
                s + 1 <= r,
        ;
    }
}

/// Integer square root by bisection.
pub fn isqrt(x: u128) -> (r: u64)
    requires
        x < 85070591730234615865843651857942052864,
    ensures
        r == sqrt_floor(x as nat),
{
    let mut lo: u64 = 0;
    let mut hi: u64 = 9223372036854775808;
    assert((hi as int) * (hi as int) == 85070591730234615865843651857942052864);
    while lo + 1 < hi
        invariant
            lo < hi,
            hi <= 9223372036854775808,
            (lo as int) * (lo as int) <= x,
            x < (hi as int) * (hi as int),
        decreases hi - lo,
    {
        let mid: u64 = lo + (hi - lo) / 2;
        assert(lo < mid < hi);
        let midw: u128 = mid as u128;
        assert(midw * midw <= 85070591730234615865843651857942052864) by (nonlinear_arith)
            requires
                midw <= 9223372036854775808,
        ;
        let msq: u128 = midw * midw;
        if msq <= x {
            lo = mid;
        } else {
            hi = mid;
        }
    }
    proof {
        lemma_sqrt_floor_unique(x as nat, lo as nat);
    }
    lo
}

/// Multiplying by one is exact wherever no saturation occurs.
pub proof fn lemma_mul_one(a: int)
    requires
        in_range(a),
    ensures
        spec_mul(a, SCALE as int) == a,
{
    assert(abs(a * SCALE) == abs(a) * (SCALE as nat)) by (nonlinear_arith);
    assert((abs(a) as int) * (SCALE as int) / (SCALE as int) == abs(a) as int) by {
        vstd::arithmetic::div_mod::lemma_div_multiples_vanish(abs(a) as int, SCALE as int);
    }
}

/// Saturation keeps order and sign, and leaves in-range values alone.
pub proof fn lemma_clamp_monotone(v: int, w: int)
    requires
        v <= w,
    ensures
        spec_clamp(v) <= spec_clamp(w),
        in_range(v) ==> spec_clamp(v) == v,
{
}

/// Truncated division takes its sign from its operands.
pub proof fn lemma_trunc_div_sign(n: int, d: int)
    requires
        d > 0,
    ensures
        n >= 0 ==> trunc_div(n, d) >= 0,
        n <= 0 ==> trunc_div(n, d) <= 0,
{
}

/// The sign of a saturating fixed-point product follows the signs of its
/// operands.
pub proof fn lemma_spec_mul_sign(a: int, b: int)
    ensures
        a >= 0 && b >= 0 ==> spec_mul(a, b) >= 0,
        a >= 0 && b <= 0 ==> spec_mul(a, b) <= 0,
        a <= 0 && b >= 0 ==> spec_mul(a, b) <= 0,
        a <= 0 && b <= 0 ==> spec_mul(a, b) >= 0,
{
    if a >= 0 && b >= 0 {
        assert(a * b >= 0) by (nonlinear_arith)
            requires
                a >= 0,
                b >= 0,
        ;
        lemma_trunc_div_sign(a * b, SCALE as int);
    }
    if a >= 0 && b <= 0 {
        assert(a * b <= 0) by (nonlinear_arith)
            requires
                a >= 0,
                b <= 0,
        ;
        lemma_trunc_div_sign(a * b, SCALE as int);
    }
    if a <= 0 && b >= 0 {
        assert(a * b <= 0) by (nonlinear_arith)
            requires
                a <= 0,
                b >= 0,
        ;
        lemma_trunc_div_sign(a * b, SCALE as int);
    }
    if a <= 0 && b <= 0 {
        assert(a * b >= 0) by (nonlinear_arith)
            requires
                a <= 0,
                b <= 0,
        ;
        lemma_trunc_div_sign(a * b, SCALE as int);
    }
}

/// The sign of a saturating fixed-point quotient follows the signs of its
/// operands.
pub proof fn lemma_spec_div_sign(a: int, b: int)
    requires
        b != 0,
    ensures
        a >= 0 && b > 0 ==> spec_div(a, b) >= 0,
        a <= 0 && b > 0 ==> spec_div(a, b) <= 0,
{
    if b > 0 {
        if a >= 0 {
            assert(a * SCALE >= 0) by (nonlinear_arith)
                requires
                    a >= 0,
            ;
            lemma_trunc_div_sign(a * SCALE, b);
        } else {
            assert(a * SCALE <= 0) by (nonlinear_arith)
                requires
                    a <= 0,
            ;
            lemma_trunc_div_sign(a * SCALE, b);
        }
    }
}

/// Dividing by one is exact wherever no saturation occurs.
pub proof fn lemma_div_one(a: int)
    requires
        in_range(a),
    ensures
        spec_div(a, SCALE as int) == a,
{
    lemma_mul_one(a);
}

} // verus!
