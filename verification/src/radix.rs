//! Byte strings as numbers: big-endian digits in base 256, binary lengths and
//! rounding.
use vstd::arithmetic::div_mod::*;
use vstd::arithmetic::mul::*;
use vstd::arithmetic::power2::*;
use vstd::prelude::*;

verus! {

/// `256^n`.
pub open spec fn pow256(n: nat) -> nat
    decreases n,
{
    if n == 0 {
        1
    } else {
        256 * pow256((n - 1) as nat)
    }
}

/// The number that the bytes `s` spell, most significant byte first.
pub open spec fn be_value(s: Seq<u8>) -> nat
    decreases s.len(),
{
    if s.len() == 0 {
        0
    } else {
        be_value(s.drop_last()) * 256 + s.last() as nat
    }
}

/// The `n` low bytes of `v`, most significant byte first.
pub open spec fn be_digits(v: nat, n: nat) -> Seq<u8>
    decreases n,
{
    if n == 0 {
        Seq::empty()
    } else {
        be_digits(v / 256, (n - 1) as nat).push((v % 256) as u8)
    }
}

/// `s` followed by `n` copies of `b`.
pub open spec fn pad(s: Seq<u8>, b: u8, n: nat) -> Seq<u8>
    decreases n,
{
    if n == 0 {
        s
    } else {
        pad(s, b, (n - 1) as nat).push(b)
    }
}

/// How many bits `v` takes: 0 for 0, else the position of its top bit plus one.
pub open spec fn bit_len(v: nat) -> nat
    decreases v,
{
    if v == 0 {
        0
    } else {
        1 + bit_len(v / 2)
    }
}

/// The least multiple of `m` that is not below `v`.
pub open spec fn round_up(v: nat, m: nat) -> nat {
    ((v + m - 1) / m as int * m) as nat
}

/// `256^n` is `2^(8 n)`.
pub proof fn lemma_pow256_is_pow2(n: nat)
    ensures
        pow256(n) == pow2(8 * n),
    decreases n,
{
    lemma2_to64();
    if n > 0 {
        lemma_pow256_is_pow2((n - 1) as nat);
        lemma_pow2_adds(8, (8 * (n - 1)) as nat);
        assert(8 + 8 * (n - 1) == 8 * n);
    }
}

pub proof fn lemma_pow256_adds(a: nat, b: nat)
    ensures
        pow256(a + b) == pow256(a) * pow256(b),
{
    lemma_pow256_is_pow2(a);
    lemma_pow256_is_pow2(b);
    lemma_pow256_is_pow2(a + b);
    lemma_pow2_adds(8 * a, 8 * b);
    assert(8 * a + 8 * b == 8 * (a + b));
}

/// A string of `n` bytes spells a number below `256^n`.
pub proof fn lemma_be_value_bound(s: Seq<u8>)
    ensures
        be_value(s) < pow256(s.len()),
    decreases s.len(),
{
    if s.len() > 0 {
        lemma_be_value_bound(s.drop_last());
    }
}

pub proof fn lemma_be_value_push(s: Seq<u8>, b: u8)
    ensures
        be_value(s.push(b)) == be_value(s) * 256 + b as nat,
{
    assert(s.push(b).drop_last() =~= s);
}

/// Spelling out the number of a byte string gives the string back.
pub proof fn lemma_be_digits_of_value(s: Seq<u8>)
    ensures
        be_digits(be_value(s), s.len()) == s,
    decreases s.len(),
{
    if s.len() > 0 {
        lemma_be_digits_of_value(s.drop_last());
        assert(s.drop_last().push(s.last()) =~= s);
    } else {
        assert(s =~= Seq::empty());
    }
}

/// The digits of a number that fits spell that number.
pub proof fn lemma_be_value_of_digits(v: nat, n: nat)
    requires
        v < pow256(n),
    ensures
        be_value(be_digits(v, n)) == v,
        be_digits(v, n).len() == n,
    decreases n,
{
    if n > 0 {
        lemma_be_value_of_digits(v / 256, (n - 1) as nat);
        lemma_be_value_push(be_digits(v / 256, (n - 1) as nat), (v % 256) as u8);
    }
}

pub proof fn lemma_be_digits_len(v: nat, n: nat)
    ensures
        be_digits(v, n).len() == n,
    decreases n,
{
    if n > 0 {
        lemma_be_digits_len(v / 256, (n - 1) as nat);
    }
}

/// A string splits into the number of its head, shifted, plus that of its tail.
pub proof fn lemma_be_value_concat(a: Seq<u8>, b: Seq<u8>)
    ensures
        be_value(a + b) == be_value(a) * pow256(b.len()) + be_value(b),
    decreases b.len(),
{
    if b.len() == 0 {
        assert(a + b =~= a);
        lemma_mul_basics(be_value(a) as int);
    } else {
        lemma_be_value_concat(a, b.drop_last());
        assert((a + b).drop_last() =~= a + b.drop_last());
        let p = pow256((b.len() - 1) as nat);
        assert((be_value(a) * p + be_value(b.drop_last())) * 256 == be_value(a) * (256 * p)
            + be_value(b.drop_last()) * 256) by (nonlinear_arith);
    }
}

/// A carry into a run of `0xFF` bytes clears the run and moves up.
pub proof fn lemma_carry_through_run(s: Seq<u8>, t: Seq<u8>, n: nat)
    requires
        be_value(s) + 1 == be_value(t),
    ensures
        be_value(pad(s, 255, n)) + 1 == be_value(pad(t, 0, n)),
    decreases n,
{
    if n > 0 {
        let m = (n - 1) as nat;
        lemma_carry_through_run(s, t, m);
        lemma_be_value_push(pad(s, 255, m), 255);
        lemma_be_value_push(pad(t, 0, m), 0);
    }
}

pub proof fn lemma_pad_len(s: Seq<u8>, b: u8, n: nat)
    ensures
        pad(s, b, n).len() == s.len() + n,
    decreases n,
{
    if n > 0 {
        lemma_pad_len(s, b, (n - 1) as nat);
    }
}

/// A positive number lies between the powers of two that its length names.
pub proof fn lemma_bit_len_bounds(v: nat)
    requires
        v > 0,
    ensures
        bit_len(v) > 0,
        pow2((bit_len(v) - 1) as nat) <= v < pow2(bit_len(v)),
    decreases v,
{
    lemma2_to64();
    if v == 1 {
        assert(bit_len(0) == 0);
        assert(bit_len(1) == 1 + bit_len(0));
    } else {
        lemma_bit_len_bounds(v / 2);
        lemma_pow2_unfold(bit_len(v / 2));
        lemma_pow2_unfold(bit_len(v));
    }
}

/// The powers of two around a number fix its length.
pub proof fn lemma_bit_len_unique(v: nat, n: nat)
    requires
        n > 0,
        pow2((n - 1) as nat) <= v < pow2(n),
    ensures
        bit_len(v) == n,
{
    lemma_pow2_pos((n - 1) as nat);
    lemma_bit_len_bounds(v);
    let b = bit_len(v);
    if b < n {
        if b < n - 1 {
            lemma_pow2_strictly_increases(b, (n - 1) as nat);
        }
    } else if b > n {
        if n < b - 1 {
            lemma_pow2_strictly_increases(n, (b - 1) as nat);
        }
    }
}

/// A number below `2^n` is at most `n` bits long.
pub proof fn lemma_bit_len_at_most(v: nat, n: nat)
    requires
        v < pow2(n),
    ensures
        bit_len(v) <= n,
{
    if v > 0 {
        lemma_bit_len_bounds(v);
        if bit_len(v) > n {
            if n < bit_len(v) - 1 {
                lemma_pow2_strictly_increases(n, (bit_len(v) - 1) as nat);
            }
        }
    }
}

/// Rounding up to a multiple of `m` adds less than `m`.
pub proof fn lemma_round_up(v: nat, m: nat)
    requires
        m > 0,
    ensures
        v <= round_up(v, m) < v + m,
        round_up(v, m) % m == 0,
        round_up(v, m) == (v + m - 1) - (v + m - 1) % (m as int),
{
    let x = v + m - 1;
    lemma_fundamental_div_mod(x, m as int);
    lemma_mod_bound(x, m as int);
    lemma_div_pos_is_pos(x, m as int);
    lemma_mul_is_commutative(x / m as int, m as int);
    lemma_mul_nonnegative(x / m as int, m as int);
    lemma_mod_multiples_basic(x / m as int, m as int);
}

/// Rounding up commutes with adding a multiple of the step.
pub proof fn lemma_round_up_shift(v: nat, k: nat, m: nat)
    requires
        m > 0,
    ensures
        round_up(k * m + v, m) == k * m + round_up(v, m),
{
    let x = v + m - 1;
    lemma_hoist_over_denominator(x, k as int, m);
    assert((k * m + v + m - 1) == x + k * m);
    lemma_round_up(v, m);
    lemma_round_up(k * m + v, m);
    assert((x / m as int + k) * m == x / m as int * m + k * m) by (nonlinear_arith);
}

} // verus!
