//! Integer helpers whose rounding is spelled out.
use vstd::prelude::*;

verus! {

/// The larger of two numbers.
pub open spec fn max_of(a: int, b: int) -> int {
    if a < b {
        b
    } else {
        a
    }
}

/// The smaller of two numbers.
pub open spec fn min_of(a: int, b: int) -> int {
    if b < a {
        b
    } else {
        a
    }
}

/// The quotient rounded towards zero.
pub open spec fn trunc_quotient(a: int, d: int) -> int {
    if a >= 0 {
        a / d
    } else {
        -((-a) / d)
    }
}

/// A slice of machine integers as a sequence of numbers.
pub open spec fn ints(s: Seq<i32>) -> Seq<int> {
    Seq::new(s.len(), |i: int| s[i] as int)
}

pub fn max_i32(a: i32, b: i32) -> (r: i32)
    ensures
        r == max_of(a as int, b as int),
{
    if a < b {
        b
    } else {
        a
    }
}

pub fn min_i32(a: i32, b: i32) -> (r: i32)
    ensures
        r == min_of(a as int, b as int),
{
    if b < a {
        b
    } else {
        a
    }
}

/// `a / d` rounded down.
pub fn div_floor(a: i32, d: i32) -> (r: i32)
    requires
        d > 0,
        a > i32::MIN,
    ensures
        r == a as int / d as int,
{
    if a >= 0 {
        ((a as u32) / (d as u32)) as i32
    } else {
        let m: u32 = (-a) as u32;
        let q: u32 = m / (d as u32);
        let whole: bool = m % (d as u32) == 0;
        proof {
            let (x, y) = (m as int, d as int);
            vstd::arithmetic::div_mod::lemma_fundamental_div_mod(x, y);
            vstd::arithmetic::div_mod::lemma_div_pos_is_pos(x, y);
            vstd::arithmetic::div_mod::lemma_div_is_ordered_by_denominator(x, 1, y);
            let k = x / y;
            if whole {
                assert(-x == y * (-k) + 0) by (nonlinear_arith)
                    requires
                        x == y * k,
                ;
                vstd::arithmetic::div_mod::lemma_fundamental_div_mod_converse(-x, y, -k, 0);
            } else {
                let r = x % y;
                vstd::arithmetic::div_mod::lemma_mod_bound(x, y);
                assert(-x == y * (-k - 1) + (y - r)) by (nonlinear_arith)
                    requires
                        x == y * k + r,
                ;
                vstd::arithmetic::div_mod::lemma_fundamental_div_mod_converse(
                    -x,
                    y,
                    -k - 1,
                    y - r,
                );
                if d == 1 {
                    assert(false);
                }
                assert(k < 0x8000_0000) by (nonlinear_arith)
                    requires
                        x == y * k + r,
                        0 <= r,
                        x <= 0x7fff_ffff,
                        y >= 1,
                        k >= 0,
                ;
            }
        }
        if whole {
            -(q as i32)
        } else {
            -(q as i32) - 1
        }
    }
}

/// `a / d` rounded towards zero.
pub fn div_trunc(a: i32, d: i32) -> (r: i32)
    requires
        d > 0,
    ensures
        r == trunc_quotient(a as int, d as int),
{
    if a >= 0 {
        ((a as u32) / (d as u32)) as i32
    } else {
        let m: u32 = (-(a as i64)) as u32;
        proof {
            vstd::arithmetic::div_mod::lemma_div_pos_is_pos(m as int, d as int);
            vstd::arithmetic::div_mod::lemma_div_is_ordered_by_denominator(
                m as int,
                1,
                d as int,
            );
        }
        (-((m / (d as u32)) as i64)) as i32
    }
}

} // verus!
