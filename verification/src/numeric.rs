//! Integer arithmetic of cell values.
//!
//! Cell values are 32-bit two's-complement integers: sums, differences and
//! products wrap, quotients round toward zero, and square roots round down.

use vstd::prelude::*;

verus! {

/// The 32-bit two's-complement integer congruent to `x`.
pub open spec fn wrap(x: int) -> int {
    let m = x % 0x1_0000_0000;
    if m > i32::MAX {
        m - 0x1_0000_0000
    } else {
        m
    }
}

/// `a / b` rounded toward zero.
pub open spec fn quotient(a: int, b: int) -> int {
    if a >= 0 {
        if b > 0 {
            a / b
        } else {
            -(a / (-b))
        }
    } else {
        if b > 0 {
            -((-a) / b)
        } else {
            (-a) / (-b)
        }
    }
}

/// `r` is the square root of `n`, rounded down.
pub open spec fn is_integer_sqrt(n: int, r: int) -> bool {
    0 <= r && r * r <= n < (r + 1) * (r + 1)
}

/// The square root of `n`, rounded down.
pub open spec fn integer_sqrt(n: int) -> int {
    choose|r: int| is_integer_sqrt(n, r)
}

/// A number has at most one rounded-down square root.
pub proof fn lemma_integer_sqrt_unique(n: int, r1: int, r2: int)
    requires
        is_integer_sqrt(n, r1),
        is_integer_sqrt(n, r2),
    ensures
        r1 == r2,
{
    if r1 < r2 {
        assert((r1 + 1) * (r1 + 1) <= r2 * r2) by (nonlinear_arith)
            requires
                0 <= r1 + 1 <= r2,
        ;
    } else if r2 < r1 {
        assert((r2 + 1) * (r2 + 1) <= r1 * r1) by (nonlinear_arith)
            requires
                0 <= r2 + 1 <= r1,
        ;
    }
}

/// A wrapped number is a 32-bit number.
pub proof fn lemma_wrap_fits(x: int)
    ensures
        i32::MIN <= wrap(x) <= i32::MAX,
{
    vstd::arithmetic::div_mod::lemma_mod_bound(x, 0x1_0000_0000);
}

/// Every number that is not negative has a rounded-down square root, and
/// `integer_sqrt` is it.
pub proof fn lemma_integer_sqrt_exists(n: int)
    requires
        n >= 0,
    ensures
        is_integer_sqrt(n, integer_sqrt(n)),
    decreases n,
{
    if n == 0 {
        assert(is_integer_sqrt(0, 0));
    } else {
        lemma_integer_sqrt_exists(n - 1);
        let r = integer_sqrt(n - 1);
        if (r + 1) * (r + 1) <= n {
            assert((r + 2) * (r + 2) > (r + 1) * (r + 1)) by (nonlinear_arith)
                requires
                    r >= 0,
            ;
            assert(is_integer_sqrt(n, r + 1));
        } else {
            assert(is_integer_sqrt(n, r));
        }
    }
}

/// A 32-bit number is its own wrapped form.
pub proof fn lemma_wrap_same(x: int)
    requires
        i32::MIN <= x <= i32::MAX,
    ensures
        wrap(x) == x,
{
    if x >= 0 {
        vstd::arithmetic::div_mod::lemma_small_mod(x as nat, 0x1_0000_0000);
    } else {
        vstd::arithmetic::div_mod::lemma_fundamental_div_mod_converse(
            x,
            0x1_0000_0000,
            -1,
            x + 0x1_0000_0000,
        );
    }
}

/// Wraps a wide integer to 32 bits.
pub fn wrapped(x: i128) -> (r: i32)
    ensures
        r == wrap(x as int),
{
    let modulus: i128 = 0x1_0000_0000;
    let low: i128 = if x >= 0 {
        x % modulus
    } else if x == i128::MIN {
        0
    } else {
        let back: i128 = (-x) % modulus;
        if back == 0 {
            0
        } else {
            modulus - back
        }
    };
    proof {
        let xi = x as int;
        if x < 0 {
            let q = (-xi) / 0x1_0000_0000;
            let back = (-xi) % 0x1_0000_0000;
            vstd::arithmetic::div_mod::lemma_fundamental_div_mod(-xi, 0x1_0000_0000);
            if x == i128::MIN {
                vstd::arithmetic::div_mod::lemma_fundamental_div_mod_converse(
                    -xi,
                    0x1_0000_0000,
                    0x8000_0000_0000_0000_0000_0000,
                    0,
                );
            }
            if back == 0 {
                vstd::arithmetic::div_mod::lemma_fundamental_div_mod_converse(
                    xi,
                    0x1_0000_0000,
                    -q,
                    0,
                );
            } else {
                vstd::arithmetic::div_mod::lemma_fundamental_div_mod_converse(
                    xi,
                    0x1_0000_0000,
                    -q - 1,
                    0x1_0000_0000 - back,
                );
            }
        }
        assert(low == xi % 0x1_0000_0000);
    }
    if low > 0x7fff_ffff {
        (low - modulus) as i32
    } else {
        low as i32
    }
}

/// `a + b`, wrapped.
pub fn wrapping_sum(a: i32, b: i32) -> (r: i32)
    ensures
        r == wrap(a + b),
{
    wrapped(a as i128 + b as i128)
}

/// `a - b`, wrapped.
pub fn wrapping_difference(a: i32, b: i32) -> (r: i32)
    ensures
        r == wrap(a - b),
{
    wrapped(a as i128 - b as i128)
}

/// `a * b`, wrapped.
pub fn wrapping_product(a: i32, b: i32) -> (r: i32)
    ensures
        r == wrap(a * b),
{
    assert(-0x4000_0000_0000_0000 <= a * b <= 0x4000_0000_0000_0000) by (nonlinear_arith)
        requires
            -0x8000_0000 <= a <= 0x7fff_ffff,
            -0x8000_0000 <= b <= 0x7fff_ffff,
    ;
    wrapped((a as i128) * (b as i128))
}

/// `a / b` rounded toward zero, for wide integers.
pub fn wide_quotient(a: i128, b: i128) -> (r: i128)
    requires
        b != 0,
        a > i128::MIN,
        b > i128::MIN,
    ensures
        r == quotient(a as int, b as int),
{
    let x: i128 = if a < 0 {
        -a
    } else {
        a
    };
    let y: i128 = if b < 0 {
        -b
    } else {
        b
    };
    let q: i128 = x / y;
    assert(0 <= q <= x) by (nonlinear_arith)
        requires
            q == x as int / y as int,
            x >= 0,
            y >= 1,
    ;
    if (a < 0) != (b < 0) {
        -q
    } else {
        q
    }
}

/// `a / b` rounded toward zero, wrapped.
pub fn wrapping_quotient(a: i32, b: i32) -> (r: i32)
    requires
        b != 0,
    ensures
        r == wrap(quotient(a as int, b as int)),
{
    wrapped(wide_quotient(a as i128, b as i128))
}

/// The square root of `n`, rounded down.
pub fn isqrt(n: u128) -> (r: u64)
    ensures
        is_integer_sqrt(n as int, r as int),
        r == integer_sqrt(n as int),
{
    let mut lo: u128 = 0;
    let mut hi: u128 = 0x1_0000_0000_0000_0000;
    assert(n < hi * hi) by (nonlinear_arith)
        requires
            hi == 0x1_0000_0000_0000_0000,
            n <= u128::MAX,
    ;
    while hi - lo > 1
        invariant
            lo < hi <= 0x1_0000_0000_0000_0000,
            lo * lo <= n < hi * hi,
        decreases hi - lo,
    {
        let mid: u128 = lo + (hi - lo) / 2;
        assert(mid * mid <= u128::MAX) by (nonlinear_arith)
            requires
                mid < 0x1_0000_0000_0000_0000,
        ;
        if mid * mid <= n {
            lo = mid;
        } else {
            hi = mid;
        }
    }
    proof {
        assert(hi == lo + 1);
        assert(is_integer_sqrt(n as int, lo as int));
        lemma_integer_sqrt_unique(n as int, lo as int, integer_sqrt(n as int));
    }
    lo as u64
}

} // verus!
