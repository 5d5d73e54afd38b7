//! Exact `a * b / c` on 128-bit amounts whose product may need 256 bits.

use vstd::arithmetic::div_mod::{
    lemma_div_is_ordered, lemma_fundamental_div_mod, lemma_fundamental_div_mod_converse,
};
use vstd::prelude::*;

verus! {

/// Floor of `a * b / c`.
pub open spec fn mul_div_floor(a: nat, b: nat, c: nat) -> nat {
    a * b / c
}

/// With `a <= c` the scaled value stays within `b`: `a * b / c <= b`.
pub proof fn lemma_mul_div_le(a: nat, b: nat, c: nat)
    requires
        c > 0,
        a <= c,
    ensures
        mul_div_floor(a, b, c) <= b,
{
    let (x, y, z): (int, int, int) = (a as int, b as int, c as int);
    assert(0 <= x * y <= z * y) by (nonlinear_arith)
        requires
            0 <= x <= z,
            0 <= y,
    ;
    lemma_fundamental_div_mod_converse(z * y, z, y, 0);
    lemma_div_is_ordered(x * y, z * y, z);
}

/// Quotient and remainder of `a * b` by `c`, by halving `a`: the product is
/// never formed, only sums below `2 * c` and quotients below the result.
fn mul_div_rem(a: u128, b: u128, c: u128) -> (res: (u128, u128))
    requires
        c > 0,
        a * b / (c as int) <= u128::MAX,
    ensures
        res.0 == a * b / (c as int),
        res.1 == a * b % (c as int),
    decreases a,
{
    if a == 0 {
        assert(a * b == 0) by (nonlinear_arith)
            requires
                a == 0,
        ;
        return (0, 0);
    }
    let half: u128 = a / 2;
    let odd: bool = a % 2 == 1;
    let ghost n: int = a * b;
    let ghost nh: int = half * b;
    proof {
        assert(n == 2 * nh + (if odd {
            b as int
        } else {
            0
        })) by (nonlinear_arith)
            requires
                a == 2 * half + (if odd {
                    1int
                } else {
                    0
                }),
                n == a * b,
                nh == half * b,
        ;
        assert(0 <= nh <= n) by (nonlinear_arith)
            requires
                nh == half * b,
                n == 2 * nh + (if odd {
                    b as int
                } else {
                    0
                }),
        ;
        lemma_div_is_ordered(nh, n, c as int);
    }
    let (q, r) = mul_div_rem(half, b, c);
    proof {
        lemma_fundamental_div_mod(nh, c as int);
        assert(nh == q * c + r) by (nonlinear_arith)
            requires
                nh == c * q + r,
        ;
    }
    // Twice the half: quotient 2q plus a carry, remainder below c again.
    let carry: u128 = if r >= c - r {
        1
    } else {
        0
    };
    let r2: u128 = if r >= c - r {
        r - (c - r)
    } else {
        r + r
    };
    proof {
        assert(2 * nh == (2 * q + carry) * c + r2) by (nonlinear_arith)
            requires
                nh == q * c + r,
                r2 == 2 * r - carry * c,
        ;
        lemma_fundamental_div_mod_converse(2 * nh, c as int, 2 * q + carry, r2 as int);
        lemma_div_is_ordered(2 * nh, n, c as int);
    }
    let q2: u128 = q + q + carry;
    if !odd {
        return (q2, r2);
    }
    // One more `b`, itself split into quotient and remainder by c.
    let qb: u128 = b / c;
    let rb: u128 = b % c;
    let carry_b: u128 = if r2 >= c - rb {
        1
    } else {
        0
    };
    let r3: u128 = if r2 >= c - rb {
        r2 - (c - rb)
    } else {
        r2 + rb
    };
    proof {
        lemma_fundamental_div_mod(b as int, c as int);
        assert(n == (q2 + qb + carry_b) * c + r3) by (nonlinear_arith)
            requires
                n == 2 * nh + b,
                2 * nh == q2 * c + r2,
                b == c * qb + rb,
                r3 == r2 + rb - carry_b * c,
        ;
        lemma_fundamental_div_mod_converse(n, c as int, q2 + qb + carry_b, r3 as int);
    }
    (q2 + qb + carry_b, r3)
}

/// `a * b / c`, rounded down, for any operands whose quotient fits 128 bits.
pub fn mul_div(a: u128, b: u128, c: u128) -> (q: u128)
    requires
        c > 0,
        mul_div_floor(a as nat, b as nat, c as nat) <= u128::MAX,
    ensures
        q == mul_div_floor(a as nat, b as nat, c as nat),
{
    mul_div_rem(a, b, c).0
}

} // verus!
