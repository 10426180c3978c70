//! Integer model of the conversion of an `i64` to a double.
//!
//! The numeric verbs compare integers and take their floor or ceiling after
//! converting them to binary64 doubles, which hold 53 significant bits. A
//! conversion rounds to the nearest representable value, ties to an even
//! significand. This module computes that value exactly, as an integer.

use vstd::prelude::*;
use vstd::arithmetic::power2::*;
use vstd::arithmetic::div_mod::*;

verus! {

/// The number of low bits that a double drops from the magnitude `a`.
pub open spec fn dropped_bits(a: nat) -> nat
    decreases a,
{
    if a < pow2(53) {
        0
    } else {
        proof {
            lemma_pow2_pos(53);
        }
        1 + dropped_bits(a / 2)
    }
}

/// `a` rounded to a multiple of `2^s`, to nearest, ties to an even quotient.
pub open spec fn round_to_multiple(a: nat, s: nat) -> int {
    if s == 0 {
        a as int
    } else {
        let p = pow2(s) as int;
        let q = a as int / p;
        let r = a as int % p;
        let h = p / 2;
        if r > h || (r == h && q % 2 == 1) {
            (q + 1) * p
        } else {
            q * p
        }
    }
}

/// The value of the double nearest to the integer `x`.
pub open spec fn nearest_double(x: int) -> int {
    if x < 0 {
        -round_to_multiple((-x) as nat, dropped_bits((-x) as nat))
    } else {
        round_to_multiple(x as nat, dropped_bits(x as nat))
    }
}

/// What an `i64` becomes when it is converted to a double and back with a
/// saturating cast: the nearest double, clamped to the `i64` range.
pub open spec fn double_to_i64(x: int) -> int {
    let d = nearest_double(x);
    if d > i64::MAX {
        i64::MAX as int
    } else if d < i64::MIN {
        i64::MIN as int
    } else {
        d
    }
}

proof fn lemma_halve(a: int, p: int)
    requires
        a >= 0,
        p > 0,
    ensures
        (a / p) / 2 == a / (p * 2),
{
    lemma_div_denominator(a, p, 2);
}

/// The value of the double nearest to `x`, as an integer.
pub fn nearest_double_of(x: i64) -> (r: i128)
    ensures
        r == nearest_double(x as int),
        -0x8000_0000_0000_0000 <= r <= 0x8000_0000_0000_0000,
        r != i64::MAX,
{
    let neg = x < 0;
    let a: u64 = if neg {
        ((-(x + 1)) as u64) + 1
    } else {
        x as u64
    };
    assert(a as int == if x < 0 { -(x as int) } else { x as int });
    proof {
        lemma2_to64();
        lemma2_to64_rest();
    }
    let mut cur: u64 = a;
    let mut s: u32 = 0;
    let mut p: u64 = 1;
    while cur >= 0x20_0000_0000_0000
        invariant
            a <= 0x8000_0000_0000_0000,
            pow2(53) == 0x20_0000_0000_0000,
            pow2(0) == 1,
            p == pow2(s as nat),
            cur == a as int / p as int,
            dropped_bits(a as nat) == s + dropped_bits(cur as nat),
            p * cur <= a,
            p <= 0x800,
            s <= 11,
        decreases cur,
    {
        proof {
            lemma_pow2_pos(s as nat);
            lemma_halve(a as int, p as int);
            lemma_pow2_unfold((s + 1) as nat);
            assert(p * 0x20_0000_0000_0000 <= a) by (nonlinear_arith)
                requires
                    p * cur <= a,
                    cur >= 0x20_0000_0000_0000,
                    p > 0,
            ;
            assert(p <= 0x400);
            if s > 10 {
                lemma_pow2_strictly_increases(10, s as nat);
                lemma2_to64();
            }
            lemma_fundamental_div_mod(cur as int, 2);
            assert(p * 2 * (cur / 2) <= a) by (nonlinear_arith)
                requires
                    p * cur <= a,
                    cur == 2 * (cur / 2) + cur % 2,
                    cur % 2 >= 0,
                    p > 0,
            ;
        }
        cur = cur / 2;
        s = s + 1;
        p = p * 2;
    }
    assert(dropped_bits(cur as nat) == 0);
    let mag: u128 = if s == 0 {
        a as u128
    } else {
        let q = cur;
        proof {
            lemma_pow2_pos(s as nat);
            lemma_fundamental_div_mod(a as int, p as int);
            lemma_mod_bound(a as int, p as int);
            lemma_pow2_adds(s as nat, (63 - s) as nat);
            let m = pow2((63 - s) as nat) as int;
            assert(p * m == 0x8000_0000_0000_0000);
            if a % p > 0 {
                assert(q * p < p * m) by (nonlinear_arith)
                    requires
                        a == p * q + a % p,
                        a % p > 0,
                        a <= p * m,
                ;
                assert(q < m) by (nonlinear_arith)
                    requires
                        q * p < p * m,
                        p > 0,
                ;
                assert((q + 1) * p <= p * m) by (nonlinear_arith)
                    requires
                        q + 1 <= m,
                        p > 0,
                ;
            }
        }
        let r = a % p;
        let h = p / 2;
        proof {
            lemma_pow2_unfold(s as nat);
            assert(p == 2 * h);
            assert((q + 1) * p == 2 * ((q + 1) * h)) by (nonlinear_arith)
                requires
                    p == 2 * h,
            ;
            assert(q * p == 2 * (q * h)) by (nonlinear_arith)
                requires
                    p == 2 * h,
            ;
        }
        if r > h || (r == h && q % 2 == 1) {
            (q as u128 + 1) * (p as u128)
        } else {
            (q as u128) * (p as u128)
        }
    };
    assert(mag != i64::MAX);
    assert(mag == round_to_multiple(a as nat, s as nat));
    if neg {
        -(mag as i128)
    } else {
        mag as i128
    }
}

/// What an `i64` becomes after a round trip through a double: the nearest
/// double, clamped to the `i64` range.
pub fn double_round_trip(x: i64) -> (r: i64)
    ensures
        r == double_to_i64(x as int),
{
    let d = nearest_double_of(x);
    if d > i64::MAX as i128 {
        i64::MAX
    } else {
        d as i64
    }
}

} // verus!
