//! How many pulses a band gets for its bits.
use crate::radix;
use vstd::arithmetic::div_mod::*;
use vstd::arithmetic::power::*;
use vstd::arithmetic::power2::*;
use vstd::prelude::*;

verus! {

/// `k` is the whole part of `bits / log2(band_size + 1)`.
pub open spec fn is_pulse_count(band_size: nat, bits: nat, k: nat) -> bool {
    pow(band_size + 1int, k) <= pow2(bits) < pow(band_size + 1int, k + 1)
}

/// `2^k` is at most `m^k`.
proof fn lemma_pow_at_least_pow2(m: int, k: nat)
    requires
        m >= 2,
    ensures
        pow2(k) <= pow(m, k),
    decreases k,
{
    lemma2_to64();
    reveal(pow);
    if k > 0 {
        let j = (k - 1) as nat;
        lemma_pow_at_least_pow2(m, j);
        lemma_pow2_unfold(k);
        lemma_pow2_pos(j);
        assert(2 * pow2(j) <= m * pow(m, j)) by (nonlinear_arith)
            requires
                m >= 2,
                0 < pow2(j) <= pow(m, j),
        ;
    }
}

/// Dividing once more divides by the next power.
proof fn lemma_next_power(x: nat, m: int, k: nat)
    requires
        m >= 2,
    ensures
        pow(m, k) > 0,
        pow(m, k + 1) > 0,
        (x as int / pow(m, k)) / m == x as int / pow(m, k + 1),
{
    lemma_pow_positive(m, k);
    lemma_pow_positive(m, k + 1);
    reveal(pow);
    lemma_div_denominator(x as int, pow(m, k), m);
    assert(pow(m, k) * m == m * pow(m, k)) by (nonlinear_arith);
}

/// A quotient is zero just where the divisor is greater.
proof fn lemma_quotient_zero(x: nat, d: int)
    requires
        d > 0,
    ensures
        x as int / d == 0 <==> x < d,
        0 <= x as int / d,
{
    if x < d {
        lemma_basic_div(x as int, d);
    } else {
        lemma_div_non_zero(x as int, d);
    }
    lemma_div_pos_is_pos(x as int, d);
}

/// Divide a number in big-endian bytes, and say whether anything is left.
fn quotient(x: &Vec<u8>, m: u128) -> (r: (Vec<u8>, bool))
    requires
        2 <= m <= 0x1_0000_0000_0000_0000,
    ensures
        radix::be_value(r.0@) == radix::be_value(x@) / m as nat,
        r.1 == (radix::be_value(r.0@) > 0),
{
    let mut out: Vec<u8> = Vec::new();
    let mut rem: u128 = 0;
    let mut left: bool = false;
    let mut i: usize = 0;
    proof {
        assert(x@.take(0) =~= Seq::<u8>::empty());
        vstd::arithmetic::mul::lemma_mul_basics(m as int);
    }
    while i < x.len()
        invariant
            i <= x@.len(),
            2 <= m <= 0x1_0000_0000_0000_0000,
            rem < m,
            radix::be_value(x@.take(i as int)) == radix::be_value(out@) * m + rem,
            left == (radix::be_value(out@) > 0),
        decreases x@.len() - i,
    {
        let cur: u128 = rem * 256 + x[i] as u128;
        let digit: u128 = cur / m;
        proof {
            let q = radix::be_value(out@);
            let d = digit as int;
            lemma_fundamental_div_mod(cur as int, m as int);
            assert(digit < 256) by (nonlinear_arith)
                requires
                    cur < 256 * m,
                    cur == m * digit + cur % m,
                    0 <= cur % m,
            ;
            radix::lemma_be_value_push(out@, digit as u8);
            radix::lemma_be_value_push(x@.take(i as int), x@[i as int]);
            assert(x@.take(i + 1) =~= x@.take(i as int).push(x@[i as int]));
            assert((q * m + rem) * 256 + x@[i as int] == (q * 256 + d) * m + cur % m) by (nonlinear_arith)
                requires
                    cur == m * d + cur % m,
                    cur == rem * 256 + x@[i as int],
            ;
        }
        out.push(digit as u8);
        rem = cur % m;
        left = left || digit > 0;
        i = i + 1;
    }
    proof {
        assert(x@.take(i as int) =~= x@);
        lemma_fundamental_div_mod_converse(
            radix::be_value(x@) as int,
            m as int,
            radix::be_value(out@) as int,
            rem as int,
        );
    }
    (out, left)
}

/// `2^bits` in big-endian bytes.
fn power_of_two(bits: u32) -> (r: Vec<u8>)
    ensures
        radix::be_value(r@) == pow2(bits as nat),
{
    let mut out: Vec<u8> = Vec::new();
    let top: u32 = bits % 8;
    let first: u8 = 1u8 << top;
    out.push(first);
    proof {
        lemma2_to64();
        if top > 0 {
            lemma_pow2_strictly_increases(top as nat, 8);
        }
        vstd::bits::lemma_u8_pow2_no_overflow(top as nat);
        vstd::bits::lemma_u8_shl_is_mul(1, top as u8);
        radix::lemma_be_value_push(Seq::empty(), first);
        assert(out@ =~= Seq::<u8>::empty().push(first));
    }
    let bytes: u32 = bits / 8;
    let mut i: u32 = 0;
    while i < bytes
        invariant
            i <= bytes,
            bytes == bits / 8,
            top == bits % 8,
            radix::be_value(out@) == pow2((top + 8 * i) as nat),
        decreases bytes - i,
    {
        proof {
            radix::lemma_be_value_push(out@, 0);
            lemma2_to64();
            lemma_pow2_adds((top + 8 * i) as nat, 8);
            assert(top + 8 * i + 8 == top + 8 * (i + 1));
        }
        out.push(0);
        i = i + 1;
    }
    out
}

/// Count the pulses by dividing `2^bits` as often as it goes.
fn count_by_division(m: u128, bits: u32) -> (r: u32)
    requires
        2 <= m <= 0x1_0000_0000_0000_0000,
    ensures
        is_pulse_count((m - 1) as nat, bits as nat, r as nat),
{
    let mut x: Vec<u8> = power_of_two(bits);
    let mut k: u32 = 0;
    let ghost whole = pow2(bits as nat);
    proof {
        lemma_pow2_pos(bits as nat);
        reveal(pow);
        assert(whole as int / 1 == whole);
    }
    loop
        invariant
            2 <= m <= 0x1_0000_0000_0000_0000,
            whole == pow2(bits as nat),
            radix::be_value(x@) as int == whole as int / pow(m as int, k as nat),
            radix::be_value(x@) > 0,
        ensures
            is_pulse_count((m - 1) as nat, bits as nat, k as nat),
        decreases radix::be_value(x@),
    {
        proof {
            lemma_next_power(whole, m as int, k as nat);
            lemma_quotient_zero(whole, pow(m as int, k as nat));
            lemma_quotient_zero(whole, pow(m as int, (k + 1) as nat));
            lemma_div_decreases(radix::be_value(x@) as int, m as int);
        }
        let (y, left) = quotient(&x, m);
        if !left {
            break;
        }
        proof {
            lemma_pow_at_least_pow2(m as int, (k + 1) as nat);
            if k + 1 > bits {
                lemma_pow2_strictly_increases(bits as nat, (k + 1) as nat);
            }
        }
        x = y;
        k = k + 1;
    }
    k
}

/// The limit of a mantissa, `2^62`.
const MANTISSA_LIMIT: u128 = 0x4000_0000_0000_0000;

/// A number known to within a few units in the last place: it lies between
/// `lo * 2^exp` and `hi * 2^exp`.
#[derive(Clone, Copy)]
struct Near {
    lo: u128,
    hi: u128,
    exp: u64,
}

impl Near {
    /// The bounds are in order and short enough to be multiplied.
    spec fn wf(self) -> bool {
        self.lo <= self.hi <= MANTISSA_LIMIT
    }

    /// `x` is within the bounds.
    spec fn holds(self, x: int) -> bool {
        self.lo * pow2(self.exp as nat) <= x <= self.hi * pow2(self.exp as nat)
    }

    /// The number is surely at most `2^bits`.
    fn at_most(&self, bits: u32) -> (r: bool)
        requires
            self.wf(),
        ensures
            r ==> self.exp <= bits,
            r ==> forall|x: int| #[trigger] self.holds(x) ==> x <= pow2(bits as nat),
    {
        if self.exp > bits as u64 {
            return false;
        }
        let room: u64 = bits as u64 - self.exp;
        let r: bool = if room >= 62 {
            true
        } else {
            self.hi <= (1u64 << room) as u128
        };
        proof {
            lemma2_to64();
            lemma2_to64_rest();
            lemma_pow2_adds(room as nat, self.exp as nat);
            lemma_pow2_pos(self.exp as nat);
            if room > 62 {
                lemma_pow2_strictly_increases(62, room as nat);
            }
            if room < 62 {
                lemma_shifted_one(room);
            }
            let (h, p, q) = (self.hi as int, pow2(self.exp as nat) as int, pow2(room as nat) as int);
            if r {
                assert(h * p <= q * p) by (nonlinear_arith)
                    requires
                        h <= q,
                        0 < p,
                ;
            }
        }
        r
    }

    /// The number is surely greater than `2^bits`.
    fn above(&self, bits: u32) -> (r: bool)
        requires
            self.wf(),
        ensures
            r ==> forall|x: int| #[trigger] self.holds(x) ==> x > pow2(bits as nat),
    {
        proof {
            lemma2_to64();
            lemma_pow2_pos(self.exp as nat);
        }
        if self.exp > bits as u64 {
            proof {
                lemma_pow2_strictly_increases(bits as nat, self.exp as nat);
                let (l, p) = (self.lo as int, pow2(self.exp as nat) as int);
                if l > 0 {
                    assert(p <= l * p) by (nonlinear_arith)
                        requires
                            0 < l,
                            0 < p,
                    ;
                }
            }
            return self.lo > 0;
        }
        let room: u64 = bits as u64 - self.exp;
        if room >= 62 {
            return false;
        }
        proof {
            lemma_pow2_adds(room as nat, self.exp as nat);
            lemma_shifted_one(room);
            let (l, p, q) = (self.lo as int, pow2(self.exp as nat) as int, pow2(room as nat) as int);
            if l > q {
                assert(l * p > q * p) by (nonlinear_arith)
                    requires
                        l > q,
                        0 < p,
                ;
            }
        }
        self.lo > (1u64 << room) as u128
    }

    /// The product of two numbers.
    fn times(&self, other: &Near) -> (r: Near)
        requires
            self.wf(),
            other.wf(),
            self.exp + other.exp + 62 <= u64::MAX,
        ensures
            r.wf(),
            r.exp <= self.exp + other.exp + 62,
            forall|x: int, y: int|
                #![trigger self.holds(x), other.holds(y)]
                self.holds(x) && other.holds(y) && 0 <= x && 0 <= y ==> r.holds(x * y),
    {
        proof {
            lemma2_to64_rest();
            lemma_pow2_adds(62, 62);
            assert(self.lo * other.lo <= self.hi * other.hi <= MANTISSA_LIMIT * MANTISSA_LIMIT)
                by (nonlinear_arith)
                requires
                    self.lo <= self.hi <= MANTISSA_LIMIT,
                    other.lo <= other.hi <= MANTISSA_LIMIT,
            ;
            assert forall|x: int, y: int|
                #![trigger self.holds(x), other.holds(y)]
                self.holds(x) && other.holds(y) && 0 <= x && 0 <= y implies self.lo * other.lo
                * pow2((self.exp + other.exp) as nat) <= x * y <= self.hi * other.hi * pow2(
                (self.exp + other.exp) as nat,
            ) by {
                lemma_product_holds(*self, *other, x, y);
            }
        }
        let mut lo: u128 = self.lo * other.lo;
        let mut hi: u128 = self.hi * other.hi;
        let mut exp: u64 = self.exp + other.exp;
        let ghost mut shifts: nat = 0;
        while hi > MANTISSA_LIMIT
            invariant
                lo <= hi <= pow2((124 - shifts) as nat),
                0 <= shifts <= 62,
                MANTISSA_LIMIT == pow2(62),
                exp == self.exp + other.exp + shifts,
                self.exp + other.exp + 62 <= u64::MAX,
                forall|x: int, y: int|
                    #![trigger self.holds(x), other.holds(y)]
                    self.holds(x) && other.holds(y) && 0 <= x && 0 <= y ==> lo * pow2(exp as nat)
                        <= x * y <= hi * pow2(exp as nat),
            decreases hi,
        {
            let ghost (lo0, hi0, exp0) = (lo, hi, exp);
            proof {
                if shifts == 62 {
                    assert(hi <= pow2(62));
                }
                lemma_pow2_unfold((124 - shifts) as nat);
                lemma_pow2_unfold((exp + 1) as nat);
            }
            lo = lo / 2;
            hi = hi / 2 + hi % 2;
            exp = exp + 1;
            proof {
                shifts = shifts + 1;
                let p = pow2(exp0 as nat) as int;
                lemma_pow2_pos(exp0 as nat);
                assert(lo * (2 * p) <= lo0 * p && hi0 * p <= hi * (2 * p)) by (nonlinear_arith)
                    requires
                        2 * lo <= lo0,
                        hi0 <= 2 * hi,
                        0 < p,
                ;
            }
        }
        Near { lo, hi, exp }
    }
}

/// A shifted one is a power of two.
proof fn lemma_shifted_one(room: u64)
    requires
        room < 62,
    ensures
        1u64 << room == pow2(room as nat),
{
    lemma2_to64_rest();
    lemma_pow2_strictly_increases(room as nat, 62);
    vstd::bits::lemma_u64_shl_is_mul(1, room);
}

/// The bounds of a product.
proof fn lemma_product_holds(a: Near, b: Near, x: int, y: int)
    requires
        a.holds(x),
        b.holds(y),
        0 <= x,
        0 <= y,
    ensures
        a.lo * b.lo * pow2((a.exp + b.exp) as nat) <= x * y <= a.hi * b.hi * pow2(
            (a.exp + b.exp) as nat,
        ),
{
    lemma_pow2_adds(a.exp as nat, b.exp as nat);
    let (p, q) = (pow2(a.exp as nat) as int, pow2(b.exp as nat) as int);
    let (al, ah, bl, bh) = (a.lo as int, a.hi as int, b.lo as int, b.hi as int);
    assert((al * p) * (bl * q) <= x * y <= (ah * p) * (bh * q)) by (nonlinear_arith)
        requires
            0 <= al * p <= x <= ah * p,
            0 <= bl * q <= y <= bh * q,
    ;
    assert((al * p) * (bl * q) == al * bl * (p * q)) by (nonlinear_arith);
    assert((ah * p) * (bh * q) == ah * bh * (p * q)) by (nonlinear_arith);
}

/// `m` within its bounds.
fn near(m: u128) -> (r: Near)
    requires
        m <= 0x1_0000_0000_0000_0000,
    ensures
        r.wf(),
        r.exp <= 3,
        r.holds(m as int),
{
    proof {
        lemma2_to64();
        let (q, r) = (m as int / 8, m as int % 8);
        let p = pow2(3) as int;
        assert(m * pow2(0) == m && q * p == 8 * q && (q + 1) * p == 8 * q + 8) by (nonlinear_arith)
            requires
                pow2(0) == 1,
                p == 8,
        ;
    }
    if m <= MANTISSA_LIMIT {
        Near { lo: m, hi: m, exp: 0 }
    } else {
        let more: u128 = if m % 8 > 0 {
            1
        } else {
            0
        };
        Near { lo: m / 8, hi: m / 8 + more, exp: 3 }
    }
}

/// The powers of `m` whose exponents are the powers of two below `2^32`.
fn powers_of(m: u128) -> (r: Vec<Near>)
    requires
        2 <= m <= 0x1_0000_0000_0000_0000,
    ensures
        r@.len() == 32,
        forall|i: int|
            0 <= i < 32 ==> (#[trigger] r@[i]).wf() && r@[i].exp <= 0x21_0000_0000
                && r@[i].holds(pow(m as int, pow2(i as nat))),
{
    let mut out: Vec<Near> = Vec::new();
    let mut last: Near = near(m);
    let mut i: u32 = 0;
    proof {
        lemma2_to64();
        lemma_pow1(m as int);
    }
    while i < 32
        invariant
            2 <= m,
            i <= 32,
            out@.len() == i,
            last.wf(),
            last.exp + 62 <= 66 * pow2(i as nat),
            last.holds(pow(m as int, pow2(i as nat))),
            forall|j: int|
                0 <= j < i ==> (#[trigger] out@[j]).wf() && out@[j].exp <= 0x21_0000_0000
                    && out@[j].holds(pow(m as int, pow2(j as nat))),
        decreases 32 - i,
    {
        proof {
            lemma2_to64();
            if i < 31 {
                lemma_pow2_strictly_increases(i as nat, 31);
            }
            lemma_pow2_unfold((i + 1) as nat);
            let (e, p) = (pow2(i as nat), pow(m as int, pow2(i as nat)));
            lemma_pow_adds(m as int, e, e);
            lemma_pow_positive(m as int, e);
            assert(e + e == pow2((i + 1) as nat));
        }
        out.push(last);
        last = last.times(&last);
        i = i + 1;
    }
    out
}

/// The pulses of a band of `band_size` coefficients with `bits_available` bits:
/// the whole part of `bits_available / log2(band_size + 1)`, and none without
/// coefficients or bits.
///
/// The powers of `band_size + 1` are compared with `2^bits_available` by 62 bits
/// of mantissa. Only where these cannot tell them apart does it count by
/// division, whose time grows with the square of the bits.
pub fn compute_k_pulses(band_size: usize, bits_available: u32) -> (r: u32)
    ensures
        band_size == 0 || bits_available == 0 ==> r == 0,
        band_size > 0 ==> is_pulse_count(band_size as nat, bits_available as nat, r as nat),
{
    proof {
        lemma2_to64();
        reveal(pow);
        assert(pow(band_size + 1, 1) == (band_size + 1) * pow(band_size + 1, 0));
    }
    if band_size == 0 || bits_available == 0 {
        return 0;
    }
    let m: u128 = band_size as u128 + 1;
    let powers: Vec<Near> = powers_of(m);
    let mut step: Near = Near { lo: 1, hi: 1, exp: 0 };
    let mut k: u32 = 0;
    let mut i: usize = 32;
    proof {
        lemma2_to64();
        lemma_pow_at_least_pow2(m as int, pow2(32));
        lemma_pow2_strictly_increases(bits_available as nat, pow2(32));
        lemma_pow2_pos(bits_available as nat);
        lemma_pow0(m as int);
        assert(1 * pow2(0) == 1);
    }
    while i > 0
        invariant
            2 <= m <= 0x1_0000_0000_0000_0000,
            m == band_size + 1,
            band_size > 0,
            bits_available > 0,
            i <= 32,
            powers@.len() == 32,
            forall|j: int|
                0 <= j < 32 ==> (#[trigger] powers@[j]).wf() && powers@[j].exp <= 0x21_0000_0000
                    && powers@[j].holds(pow(m as int, pow2(j as nat))),
            step.wf(),
            step.exp <= bits_available,
            step.holds(pow(m as int, k as nat)),
            pow(m as int, k as nat) <= pow2(bits_available as nat) < pow(
                m as int,
                k as nat + pow2(i as nat),
            ),
        decreases i,
    {
        i = i - 1;
        let next: Near = step.times(&powers[i]);
        let ghost e = pow2(i as nat);
        proof {
            assert(powers@[i as int].holds(pow(m as int, e)));
            lemma_pow2_unfold((i + 1) as nat);
            lemma_pow_adds(m as int, k as nat, e);
            lemma_pow_positive(m as int, k as nat);
            lemma_pow_positive(m as int, e);
            assert(next.holds(pow(m as int, k as nat + e)));
            assert(k as nat + pow2((i + 1) as nat) == (k as nat + e) + e);
        }
        if next.at_most(bits_available) {
            proof {
                lemma_pow_at_least_pow2(m as int, k as nat + e);
                if k as nat + e > bits_available {
                    lemma_pow2_strictly_increases(bits_available as nat, k as nat + e);
                }
                lemma_shifted_one(i as u64);
                lemma2_to64();
            }
            k = k + (1u64 << i as u64) as u32;
            step = next;
        } else if !next.above(bits_available) {
            return count_by_division(m, bits_available);
        }
    }
    k
}

} // verus!
