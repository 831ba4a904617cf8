use vstd::arithmetic::div_mod::lemma_fundamental_div_mod;
use vstd::arithmetic::div_mod::lemma_fundamental_div_mod_converse;
use vstd::prelude::*;

verus! {

/// Whether `root` is the square root of `n`, rounded down.
pub open spec fn is_floor_sqrt(n: int, root: int) -> bool {
    0 <= root && root * root <= n < (root + 1) * (root + 1)
}

/// The square root of `n`, rounded down.
pub open spec fn floor_sqrt(n: int) -> int {
    choose|root: int| is_floor_sqrt(n, root)
}

/// No number has two rounded-down square roots.
pub proof fn lemma_floor_sqrt_unique(n: int, a: int, b: int)
    requires
        is_floor_sqrt(n, a),
        is_floor_sqrt(n, b),
    ensures
        a == b,
{
    if a < b {
        assert((a + 1) * (a + 1) <= b * b) by (nonlinear_arith)
            requires
                0 <= a + 1 <= b,
        ;
    }
    if b < a {
        assert((b + 1) * (b + 1) <= a * a) by (nonlinear_arith)
            requires
                0 <= b + 1 <= a,
        ;
    }
}

/// Every number that is not negative has a rounded-down square root, which
/// is positive where the number is.
pub proof fn lemma_floor_sqrt(n: int)
    requires
        0 <= n,
    ensures
        is_floor_sqrt(n, floor_sqrt(n)),
        n > 0 ==> floor_sqrt(n) > 0,
    decreases n,
{
    if n == 0 {
        assert(is_floor_sqrt(0, 0));
    } else {
        lemma_floor_sqrt(n - 1);
        let below = floor_sqrt(n - 1);
        if n < (below + 1) * (below + 1) {
            assert(is_floor_sqrt(n, below));
        } else {
            assert((below + 1) * (below + 1) < (below + 2) * (below + 2)) by (nonlinear_arith)
                requires
                    0 <= below,
            ;
            assert(is_floor_sqrt(n, below + 1));
        }
        let root = floor_sqrt(n);
        assert(root != 0) by {
            if root == 0 {
                assert((root + 1) * (root + 1) == 1);
            }
        }
    }
}

/// The square root of `n`, rounded down.
pub fn isqrt(n: u128) -> (root: u64)
    ensures
        is_floor_sqrt(n as int, root as int),
        root == floor_sqrt(n as int),
{
    let mut lo: u128 = 0;
    let mut hi: u128 = 0x1_0000_0000_0000_0000;
    assert(n < 0x1_0000_0000_0000_0000 * 0x1_0000_0000_0000_0000) by (nonlinear_arith)
        requires
            n <= u128::MAX,
    ;
    while hi - lo > 1
        invariant
            lo < hi <= 0x1_0000_0000_0000_0000,
            lo * lo <= n < hi * hi,
        decreases hi - lo,
    {
        let mid: u128 = lo + (hi - lo) / 2;
        assert(mid * mid < 0x1_0000_0000_0000_0000 * 0x1_0000_0000_0000_0000) by (nonlinear_arith)
            requires
                0 <= mid < 0x1_0000_0000_0000_0000,
        ;
        if mid * mid <= n {
            lo = mid;
        } else {
            hi = mid;
        }
    }
    proof {
        lemma_floor_sqrt_unique(n as int, lo as int, floor_sqrt(n as int));
    }
    lo as u64
}

/// The quotient of `n` by `d`, rounded down.
pub fn floor_div(n: i128, d: u128) -> (q: i128)
    requires
        d > 0,
        n > i128::MIN,
    ensures
        q == (n as int) / (d as int),
{
    if n >= 0 {
        let q: u128 = (n as u128) / d;
        q as i128
    } else {
        let a: u128 = (-n) as u128;
        let q: u128 = a / d;
        let r: u128 = a % d;
        proof {
            lemma_fundamental_div_mod(a as int, d as int);
            assert(q <= a && (r > 0 ==> q < a)) by (nonlinear_arith)
                requires
                    a as int == (d as int) * (q as int) + (r as int),
                    0 <= r,
                    0 <= q,
                    1 <= d,
            ;
        }
        if r == 0 {
            proof {
                assert(n as int == (-(q as int)) * (d as int) + 0) by (nonlinear_arith)
                    requires
                        a as int == (d as int) * (q as int),
                        n as int == -(a as int),
                ;
                lemma_fundamental_div_mod_converse(n as int, d as int, -(q as int), 0);
            }
            -(q as i128)
        } else {
            proof {
                assert(n as int == (-(q as int) - 1) * (d as int) + (d as int - r as int))
                    by (nonlinear_arith)
                    requires
                        a as int == (d as int) * (q as int) + (r as int),
                        n as int == -(a as int),
                ;
                lemma_fundamental_div_mod_converse(
                    n as int,
                    d as int,
                    -(q as int) - 1,
                    d as int - r as int,
                );
            }
            -(q as i128) - 1
        }
    }
}

/// The share `part / whole` of `amount`, rounded down, for a part that is
/// no larger than the whole.
pub fn share(amount: u128, part: u64, whole: u64) -> (portion: u128)
    requires
        0 < whole,
        part <= whole,
    ensures
        portion == (amount * part) / (whole as int),
        portion <= amount,
{
    let quotient: u128 = amount / (whole as u128);
    let rest: u128 = amount % (whole as u128);
    proof {
        lemma_fundamental_div_mod(amount as int, whole as int);
        assert(quotient * part <= amount && rest * part < 0x1_0000_0000_0000_0000
            * 0x1_0000_0000_0000_0000) by (nonlinear_arith)
            requires
                amount as int == (whole as int) * (quotient as int) + (rest as int),
                0 <= rest < whole,
                0 <= part <= whole,
                whole < 0x1_0000_0000_0000_0000,
                0 <= quotient,
        ;
    }
    let high: u128 = quotient * (part as u128);
    let low: u128 = (rest * (part as u128)) / (whole as u128);
    proof {
        let carried = (rest * part) as int;
        lemma_fundamental_div_mod(carried, whole as int);
        let k = carried / (whole as int);
        let r = carried % (whole as int);
        assert(amount * part == (high + k) * whole + r && high + k <= amount) by (nonlinear_arith)
            requires
                amount as int == (whole as int) * (quotient as int) + (rest as int),
                high as int == quotient * part,
                carried == rest * part,
                carried == (whole as int) * k + r,
                0 <= r < whole,
                0 <= rest < whole,
                0 <= part <= whole,
                0 <= quotient,
        ;
        lemma_fundamental_div_mod_converse(amount * part, whole as int, high + k, r);
    }
    high + low
}

/// The square of `b`, in units of `2^64`, rounded down.
pub fn square_shifted(b: u128) -> (q: u128)
    requires
        b < 0x1_0000_0000_0000_0000_0000,
    ensures
        q == (b * b) / 0x1_0000_0000_0000_0000,
{
    let high: u128 = b >> 32;
    let low: u128 = b & 0xffff_ffff;
    assert(high == b / 0x1_0000_0000 && low == b % 0x1_0000_0000) by (bit_vector)
        requires
            high == b >> 32,
            low == b & 0xffff_ffff,
    ;
    proof {
        lemma_fundamental_div_mod(b as int, 0x1_0000_0000);
    }
    assert(high * high < 0x1_0000_0000_0000 * 0x1_0000_0000_0000 && high * low
        < 0x1_0000_0000_0000 * 0x1_0000_0000 && low * low < 0x1_0000_0000 * 0x1_0000_0000)
        by (nonlinear_arith)
        requires
            0 <= high < 0x1_0000_0000_0000,
            0 <= low < 0x1_0000_0000,
    ;
    let cross: u128 = high * low;
    let rest: u128 = cross * 0x2_0000_0000 + low * low;
    proof {
        let carried = rest as int;
        lemma_fundamental_div_mod(carried, 0x1_0000_0000_0000_0000);
        let k = carried / 0x1_0000_0000_0000_0000;
        let r = carried % 0x1_0000_0000_0000_0000;
        assert(b * b == (high * high + k) * 0x1_0000_0000_0000_0000 + r) by (nonlinear_arith)
            requires
                b as int == 0x1_0000_0000 * (high as int) + (low as int),
                carried == (high * low) * 0x2_0000_0000 + low * low,
                carried == 0x1_0000_0000_0000_0000 * k + r,
        ;
        lemma_fundamental_div_mod_converse(b * b, 0x1_0000_0000_0000_0000, high * high + k, r);
    }
    high * high + rest / 0x1_0000_0000_0000_0000
}

/// For whole numbers, `a * m > x` says as much as that `a` is above `x / m`,
/// rounded down.
pub proof fn lemma_above_quotient(a: int, x: int, m: int)
    requires
        0 < m,
    ensures
        (a * m > x) == (a > x / m),
{
    lemma_fundamental_div_mod(x, m);
    let q = x / m;
    let r = x % m;
    vstd::arithmetic::div_mod::lemma_mod_bound(x, m);
    assert((a * m > x) == (a > q)) by (nonlinear_arith)
        requires
            x == m * q + r,
            0 <= r < m,
    ;
}

} // verus!
