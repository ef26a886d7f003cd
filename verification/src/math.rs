use vstd::prelude::*;
use vstd::arithmetic::div_mod::{
    lemma_div_is_ordered, lemma_div_multiples_vanish, lemma_div_pos_is_pos,
};
use vstd::arithmetic::mul::lemma_mul_is_commutative;

verus! {

/// Truncating signed division, the convention Rust's `/` uses on machine
/// integers: the quotient is rounded toward zero.
pub open spec fn sdiv(a: int, d: int) -> int {
    if a >= 0 {
        a / d
    } else {
        -((-a) / d)
    }
}

/// Integer square root: the largest `r` with `r * r <= s` (0 for negative input).
pub open spec fn spec_isqrt(s: int) -> int
    decreases s,
{
    if s <= 0 {
        0
    } else {
        let r = spec_isqrt(s - 1);
        if (r + 1) * (r + 1) <= s {
            r + 1
        } else {
            r
        }
    }
}

pub proof fn lemma_isqrt_bracket(s: int)
    requires
        s >= 0,
    ensures
        spec_isqrt(s) >= 0,
        spec_isqrt(s) * spec_isqrt(s) <= s,
        s < (spec_isqrt(s) + 1) * (spec_isqrt(s) + 1),
    decreases s,
{
    if s == 0 {
    } else {
        lemma_isqrt_bracket(s - 1);
        let r = spec_isqrt(s - 1);
        if (r + 1) * (r + 1) <= s {
            assert(s < (r + 2) * (r + 2)) by (nonlinear_arith)
                requires
                    s - 1 < (r + 1) * (r + 1),
                    r >= 0,
            {}
        }
    }
}

pub proof fn lemma_isqrt_unique(s: int, a: int, b: int)
    by (nonlinear_arith)
    requires
        a >= 0,
        b >= 0,
        a * a <= s < (a + 1) * (a + 1),
        b * b <= s < (b + 1) * (b + 1),
    ensures
        a == b,
{
}

/// Exact square roots are recovered exactly.
pub proof fn lemma_isqrt_exact(s: int, r: int)
    requires
        r >= 0,
        s == r * r,
    ensures
        spec_isqrt(s) == r,
{
    lemma_isqrt_bracket(s);
    assert(r * r < (r + 1) * (r + 1)) by (nonlinear_arith)
        requires
            r >= 0,
    {}
    lemma_isqrt_unique(s, spec_isqrt(s), r);
}

/// Binary-search integer square root.
pub fn isqrt(s: u128) -> (r: u128)
    requires
        s < 0x4000_0000_0000_0000_0000_0000_0000_0000u128,
    ensures
        r == spec_isqrt(s as int),
        r * r <= s,
{
    if s == 0 {
        proof {
            lemma_isqrt_bracket(s as int);
        }
        return 0;
    }
    let mut lo: u128 = 0;
    let mut hi: u128 = 0x8000_0000_0000_0000u128;
    proof {
        assert((0x8000_0000_0000_0000int) * (0x8000_0000_0000_0000int)
            == 0x4000_0000_0000_0000_0000_0000_0000_0000int);
    }
    while hi - lo > 1
        invariant
            lo < hi,
            hi <= 0x8000_0000_0000_0000u128,
            (lo as int) * (lo as int) <= s as int,
            (s as int) < (hi as int) * (hi as int),
        decreases hi - lo,
    {
        let mid: u128 = lo + (hi - lo) / 2;
        assert(mid * mid < 0x1_0000_0000_0000_0000_0000_0000_0000_0000int) by (nonlinear_arith)
            requires
                mid < 0x8000_0000_0000_0000u128,
        {}
        if mid <= s / mid {
            // mid <= s / mid  <==>  mid * mid <= s  for mid > 0
            proof {
                assert(mid * mid <= s) by (nonlinear_arith)
                    requires
                        mid > 0,
                        mid <= (s as int) / (mid as int),
                {}
            }
            lo = mid;
        } else {
            proof {
                assert((s as int) < mid * mid) by (nonlinear_arith)
                    requires
                        mid > 0,
                        (s as int) / (mid as int) < mid,
                {}
            }
            hi = mid;
        }
    }
    proof {
        lemma_isqrt_bracket(s as int);
        lemma_isqrt_unique(s as int, lo as int, spec_isqrt(s as int));
    }
    lo
}

/// Truncating division on `i128`, pinned to `sdiv`.
pub fn div_i128(a: i128, d: i128) -> (q: i128)
    requires
        d > 0,
        a > i128::MIN,
    ensures
        q == sdiv(a as int, d as int),
{
    a / d
}

/// A quotient is no larger in magnitude than the bound on the dividend.
pub proof fn lemma_sdiv_bound(a: int, d: int, b: int)
    requires
        d > 0,
        b >= 0,
        -(d * b) <= a <= d * b,
    ensures
        -b <= sdiv(a, d) <= b,
{
    if a >= 0 {
        lemma_div_is_ordered(a, d * b, d);
        lemma_mul_is_commutative(d, b);
        lemma_div_multiples_vanish(b, d);
        lemma_div_pos_is_pos(a, d);
    } else {
        lemma_div_is_ordered(-a, d * b, d);
        lemma_mul_is_commutative(d, b);
        lemma_div_multiples_vanish(b, d);
        lemma_div_pos_is_pos(-a, d);
    }
}

/// Dividing an exact multiple is exact, for either sign of the multiplier.
pub proof fn lemma_sdiv_exact(x: int, d: int)
    requires
        d > 0,
    ensures
        sdiv(d * x, d) == x,
{
    if d * x >= 0 {
        assert(x >= 0) by (nonlinear_arith)
            requires
                d > 0,
                d * x >= 0,
        {}
        lemma_div_multiples_vanish(x, d);
    } else {
        assert(x < 0) by (nonlinear_arith)
            requires
                d > 0,
                d * x < 0,
        {}
        lemma_div_multiples_vanish(-x, d);
        assert(-(d * x) == d * (-x)) by (nonlinear_arith) {}
    }
}

} // verus!
