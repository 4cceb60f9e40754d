//! How many pulses a band's bits buy, and when a band is split in two.
//!
//! What the pulses of a band cost is tabulated: row `cost_row(band, lm)` of
//! the cost table holds the number of its entries and then, for each pseudo
//! pulse count, the cost in eighths of a bit less one. Below the smallest frame
//! size there is one more level, -1, for halves of bands; the narrowest bands
//! have no row there, and no pulses.
use crate::int_math::{div_trunc, min_i32};
use crate::opus_celt_tables::{CACHE_BITS_50, CACHE_INDEX_50, NUM_BANDS_CELT};
use vstd::arithmetic::power2::*;
use vstd::prelude::*;

verus! {

/// `2^(x/8)` in units of `2^-14`.
pub const EXP2_TABLE8: [i32; 8] = [16384, 17866, 19483, 21247, 23170, 25267, 27554, 30048];

/// Where the costs of `band` in a frame of size `lm` start, -1 if it has none.
#[verifier::opaque]
pub open spec fn cost_row(band: int, lm: int) -> int {
    CACHE_INDEX_50[21 * crate::int_math::min_of(lm + 1, 4) + band] as int
}

/// The largest pseudo pulse count of `band`.
#[verifier::opaque]
pub open spec fn max_pseudo(band: int, lm: int) -> int {
    CACHE_BITS_50[cost_row(band, lm)] as int
}

/// The tabulated cost of pseudo pulse count `p`, -1 for none.
#[verifier::opaque]
pub open spec fn tabled(band: int, lm: int, p: int) -> int {
    if p == 0 {
        -1
    } else {
        CACHE_BITS_50[cost_row(band, lm) + p] as int
    }
}

/// The largest pseudo pulse count up to `p` that costs less than `target`.
pub open spec fn last_below(band: int, lm: int, target: int, p: int) -> int
    decreases p,
{
    if p <= 0 {
        0
    } else if tabled(band, lm, p) < target {
        p
    } else {
        last_below(band, lm, target, p - 1)
    }
}

/// The pseudo pulse count whose cost comes closest to `bits`: of the two around
/// it the dearer one only if it is strictly closer.
pub open spec fn nearest_pulses(band: int, lm: int, bits: int) -> int {
    let n = max_pseudo(band, lm);
    let lo = last_below(band, lm, bits - 1, n);
    let hi = crate::int_math::min_of(lo + 1, n);
    if cost_row(band, lm) < 0 {
        0
    } else if (bits - 1) - tabled(band, lm, lo) <= tabled(band, lm, hi) - (bits - 1) {
        lo
    } else {
        hi
    }
}

/// What pseudo pulse count `p` costs; 0 past the end of the table.
pub open spec fn pulse_cost(band: int, lm: int, p: int) -> int {
    if p <= 0 || cost_row(band, lm) < 0 || cost_row(band, lm) + p >= 392 {
        0
    } else {
        tabled(band, lm, p) + 1
    }
}

/// The pulse count that a pseudo pulse count stands for: exact below 8, then
/// eight steps for every doubling.
pub open spec fn real_pulses(p: int) -> int {
    if p < 8 {
        p
    } else {
        (8 + p % 8) * pow2((p / 8 - 1) as nat)
    }
}

/// A band of `n` coefficients with `b` eighths of a bit is split: it has more
/// than its costliest vector would use, and some to spare.
pub open spec fn splits(band: int, lm: int, n: int, b: int) -> bool {
    lm >= 0 && n > 2 && b > tabled(band, lm, max_pseudo(band, lm)) + 12
}

/// The number of steps of the angle between the halves of a split band.
pub open spec fn angle_steps(n: int, b: int, offset: int, pulse_cap: int) -> int {
    let n2 = 2 * n - 1;
    let qb = crate::int_math::min_of(
        crate::int_math::min_of(
            crate::int_math::trunc_quotient(b + n2 * offset, n2),
            b - pulse_cap - 32,
        ),
        64,
    );
    if qb < 4 {
        1
    } else {
        let q = EXP2_TABLE8[qb % 8] as int / pow2((14 - qb / 8) as nat) as int;
        crate::int_math::min_of((q + 1) / 2 * 2, 256)
    }
}

/// The shape of the cost table.
#[verifier::spinoff_prover]
pub proof fn lemma_cost_table(i: int, p: int)
    requires
        0 <= i < 105,
    ensures
        -1 <= CACHE_INDEX_50[i] < 392,
        21 <= i ==> 0 <= CACHE_INDEX_50[i],
        0 <= CACHE_INDEX_50[i] ==> {
            &&& 1 <= CACHE_BITS_50[CACHE_INDEX_50[i] as int] <= 40
            &&& CACHE_INDEX_50[i] + CACHE_BITS_50[CACHE_INDEX_50[i] as int] < 392
            &&& 1 <= p < CACHE_BITS_50[CACHE_INDEX_50[i] as int] ==> CACHE_BITS_50[CACHE_INDEX_50[i]
                + p] <= CACHE_BITS_50[CACHE_INDEX_50[i] + p + 1]
        },
{
}

/// The costs of a band, and that more pulses never cost less.
pub proof fn lemma_costs(band: int, lm: int, p: int, q: int)
    requires
        0 <= band < 21,
        -1 <= lm,
        0 <= lm || 0 <= cost_row(band, lm),
    ensures
        0 <= cost_row(band, lm) < 392,
        1 <= max_pseudo(band, lm) <= 40,
        cost_row(band, lm) + max_pseudo(band, lm) < 392,
        0 <= p <= q <= max_pseudo(band, lm) ==> -1 <= tabled(band, lm, p) <= tabled(band, lm, q)
            <= 255,
    decreases q - p,
{
    reveal(cost_row);
    reveal(max_pseudo);
    reveal(tabled);
    let i = 21 * crate::int_math::min_of(lm + 1, 4) + band;
    lemma_cost_table(i, q - 1);
    if 0 <= p < q <= max_pseudo(band, lm) {
        lemma_costs(band, lm, p, q - 1);
    }
}

/// A count that costs less, below one that does not, is the last that does.
proof fn lemma_last_below(band: int, lm: int, target: int, lo: int, p: int)
    requires
        0 <= band < 21,
        -1 <= lm,
        0 <= cost_row(band, lm),
        0 <= lo <= p <= max_pseudo(band, lm),
        lo == 0 || tabled(band, lm, lo) < target,
        lo == p || tabled(band, lm, lo + 1) >= target,
    ensures
        last_below(band, lm, target, p) == lo,
    decreases p,
{
    if p > lo {
        lemma_costs(band, lm, lo + 1, p);
        lemma_last_below(band, lm, target, lo, p - 1);
    }
}

/// The last count that costs less than the target costs less, and none above it
/// does.
proof fn lemma_last_below_is_last(band: int, lm: int, target: int, p: int)
    requires
        0 <= p,
    ensures
        0 <= last_below(band, lm, target, p) <= p,
        last_below(band, lm, target, p) > 0 ==> tabled(
            band,
            lm,
            last_below(band, lm, target, p),
        ) < target,
        forall|q: int|
            last_below(band, lm, target, p) < q <= p ==> #[trigger] tabled(band, lm, q) >= target,
    decreases p,
{
    if p > 0 && tabled(band, lm, p) >= target {
        lemma_last_below_is_last(band, lm, target, p - 1);
    }
}

/// How far two costs are apart.
pub open spec fn distance(a: int, b: int) -> int {
    if a <= b {
        b - a
    } else {
        a - b
    }
}

/// No count of a band's table has a cost closer to the bits than the one that
/// they buy, and none that is as close costs less; nothing buys nothing.
pub proof fn law_bought_pulses_come_closest(band: int, lm: int, bits: int, q: int)
    requires
        0 <= band < 21,
        -1 <= lm,
        0 <= cost_row(band, lm),
        0 <= bits,
        0 <= q <= max_pseudo(band, lm),
    ensures
        0 <= nearest_pulses(band, lm, bits) <= max_pseudo(band, lm),
        distance(pulse_cost(band, lm, nearest_pulses(band, lm, bits)), bits) <= distance(
            pulse_cost(band, lm, q),
            bits,
        ),
        distance(pulse_cost(band, lm, nearest_pulses(band, lm, bits)), bits) == distance(
            pulse_cost(band, lm, q),
            bits,
        ) ==> pulse_cost(band, lm, nearest_pulses(band, lm, bits)) <= pulse_cost(band, lm, q),
        bits == 0 ==> nearest_pulses(band, lm, bits) == 0,
{
    let n = max_pseudo(band, lm);
    let lo = last_below(band, lm, bits - 1, n);
    let hi = crate::int_math::min_of(lo + 1, n);
    lemma_costs(band, lm, 0, 0);
    lemma_last_below_is_last(band, lm, bits - 1, n);
    lemma_costs(band, lm, 0, lo);
    lemma_costs(band, lm, 0, hi);
    lemma_costs(band, lm, 0, q);
    assert(tabled(band, lm, 0) == -1) by {
        reveal(tabled);
    }
    if q <= lo {
        lemma_costs(band, lm, q, lo);
    } else {
        lemma_costs(band, lm, hi, q);
        assert(tabled(band, lm, hi) >= bits - 1);
    }
    if bits == 0 && lo < n {
        assert(tabled(band, lm, hi) >= bits - 1);
    }
}

/// The pseudo pulse count that `bits` eighths of a bit buy.
pub fn celt_bits2pulses(band: usize, lm: i32, bits: i32) -> (r: i32)
    requires
        band < 21,
        -1 <= lm,
        bits > i32::MIN,
    ensures
        r == nearest_pulses(band as int, lm as int, bits as int),
        0 <= r <= 40,
{
    proof {
        reveal(max_pseudo);
        reveal(tabled);
    }
    let row: usize = match cost_row_of(band, lm) {
        Some(row) => row,
        None => {
            return 0;
        },
    };
    proof {
        lemma_costs(band as int, lm as int, 0, 0);
    }
    let n: usize = CACHE_BITS_50[row] as usize;
    let target: i32 = bits - 1;
    let mut lo: usize = 0;
    let mut hi: usize = n;
    let mut step: u32 = 0;
    while step < 6
        invariant
            band < 21,
            row == cost_row(band as int, lm as int),
            n == max_pseudo(band as int, lm as int),
            1 <= n <= 40,
            row + n < 392,
            step <= 6,
            lo <= hi <= n,
            lo == 0 || tabled(band as int, lm as int, lo as int) < target,
            hi == n || tabled(band as int, lm as int, hi as int) >= target,
            step == 0 ==> hi - lo <= 40,
            step == 1 ==> hi - lo <= 20,
            step == 2 ==> hi - lo <= 10,
            step == 3 ==> hi - lo <= 5,
            step == 4 ==> hi - lo <= 3,
            step == 5 ==> hi - lo <= 2,
            step == 6 ==> hi - lo <= 1,
        decreases 6 - step,
    {
        proof {
            reveal(tabled);
        }
        let mid: usize = (lo + hi + 1) / 2;
        if CACHE_BITS_50[row + mid] as i32 >= target {
            hi = mid;
        } else {
            lo = mid;
        }
        step = step + 1;
    }
    let hi_bits: i32 = CACHE_BITS_50[row + hi] as i32;
    let lo_bits: i32 = if lo == 0 {
        -1
    } else {
        CACHE_BITS_50[row + lo] as i32
    };
    proof {
        let (g, l, t) = (band as int, lm as int, target as int);
        if lo < n && hi == n && tabled(g, l, n as int) < t {
            // Everything costs less than the target.
            lemma_last_below(g, l, t, n as int, n as int);
        } else if lo == hi {
            lemma_last_below(g, l, t, lo as int, n as int);
        } else {
            lemma_last_below(g, l, t, lo as int, n as int);
        }
    }
    if target as i64 - lo_bits as i64 <= hi_bits as i64 - target as i64 {
        lo as i32
    } else {
        hi as i32
    }
}

/// Where the costs of `band` start, if it has any.
fn cost_row_of(band: usize, lm: i32) -> (r: Option<usize>)
    requires
        band < 21,
        -1 <= lm,
    ensures
        match r {
            Some(row) => row == cost_row(band as int, lm as int),
            None => cost_row(band as int, lm as int) < 0,
        },
        lm >= 0 ==> r is Some,
{
    proof {
        reveal(cost_row);
    }
    let level: usize = if lm < 3 {
        (lm + 1) as usize
    } else {
        4
    };
    proof {
        lemma_cost_table(21 * level + band, 0);
    }
    let row: i16 = CACHE_INDEX_50[NUM_BANDS_CELT * level + band];
    if row < 0 {
        None
    } else {
        Some(row as usize)
    }
}

/// What pseudo pulse count `pulses` costs, in eighths of a bit.
pub fn celt_pulses2bits(band: usize, lm: i32, pulses: i32) -> (r: i32)
    requires
        band < 21,
        -1 <= lm,
    ensures
        r == pulse_cost(band as int, lm as int, pulses as int),
        0 <= r <= 256,
{
    proof {
        reveal(tabled);
    }
    let row: usize = match cost_row_of(band, lm) {
        Some(row) => row,
        None => {
            return 0;
        },
    };
    proof {
        lemma_costs(band as int, lm as int, 0, 0);
    }
    if pulses <= 0 || pulses as usize >= 392 - row {
        0
    } else {
        CACHE_BITS_50[row + pulses as usize] as i32 + 1
    }
}

/// The pulse count that pseudo pulse count `i` stands for.
pub fn celt_get_pulses(i: i32) -> (r: i32)
    requires
        i <= 231,
    ensures
        r == real_pulses(i as int),
        i >= 0 ==> r >= i,
        0 <= i <= 40 ==> r <= 128,
{
    if i < 8 {
        i
    } else {
        let shift: u32 = (i / 8 - 1) as u32;
        let head: u32 = (8 + i % 8) as u32;
        proof {
            lemma2_to64();
            lemma_pow2_pos(shift as nat);
            if shift < 27 {
                lemma_pow2_strictly_increases(shift as nat, 27);
            }
            let p = pow2(shift as nat);
            assert(head * p <= 15 * 0x800_0000) by (nonlinear_arith)
                requires
                    0 <= head <= 15,
                    0 <= p <= 0x800_0000,
            ;
            vstd::bits::lemma_u32_shl_is_mul(head, shift);
            lemma_doubling(shift as nat);
            assert(head * p >= (8 + i % 8) * (1 + shift)) by (nonlinear_arith)
                requires
                    p >= 1 + shift,
                    head == 8 + i % 8,
                    head >= 0,
            ;
            assert((8 + i % 8) * (1 + shift) >= 8 * (1 + shift) + i % 8) by (nonlinear_arith)
                requires
                    shift >= 0,
                    i % 8 >= 0,
            ;
            if i <= 40 {
                if shift < 4 {
                    lemma_pow2_strictly_increases(shift as nat, 4);
                }
                assert(i < 40 ==> p <= 8) by {
                    if shift < 3 {
                        lemma_pow2_strictly_increases(shift as nat, 3);
                    }
                }
                assert(head * p <= 128) by (nonlinear_arith)
                    requires
                        (p <= 8 && head <= 15) || (p <= 16 && head == 8),
                        head >= 0,
                ;
            }
        }
        (head << shift) as i32
    }
}

/// `2^n` is at least `n + 1`.
proof fn lemma_doubling(n: nat)
    ensures
        pow2(n) >= n + 1,
    decreases n,
{
    lemma2_to64();
    if n > 0 {
        lemma_doubling((n - 1) as nat);
        lemma_pow2_unfold(n);
    }
}

/// Whether a band of `n0` coefficients with `b` eighths of a bit is split.
pub fn check_do_split_enc(band: usize, lm: i32, n0: usize, b: i32) -> (r: bool)
    requires
        band < 21,
    ensures
        r == splits(band as int, lm as int, n0 as int, b as int),
{
    proof {
        reveal(max_pseudo);
        reveal(tabled);
    }
    if lm < 0 || n0 <= 2 {
        return false;
    }
    let row: usize = match cost_row_of(band, lm) {
        Some(row) => row,
        None => {
            return false;
        },
    };
    proof {
        lemma_costs(band as int, lm as int, 0, 0);
    }
    let top: usize = CACHE_BITS_50[row] as usize;
    b > CACHE_BITS_50[row + top] as i32 + 12
}

/// A band that is split has at least 12 eighths.
pub proof fn lemma_split_share(band: int, lm: int, n: int, b: int)
    requires
        0 <= band < 21,
        splits(band, lm, n, b),
    ensures
        b >= 12,
{
    lemma_costs(band, lm, max_pseudo(band, lm), max_pseudo(band, lm));
    lemma_costs(band, lm, 0, 0);
}

/// The number of steps of the angle between the halves of a split band, each
/// of `n` coefficients.
pub fn celt_compute_qn(n: usize, b: i32, offset: i32, pulse_cap: i32) -> (r: i32)
    requires
        1 <= n,
        2 * n <= i32::MAX,
        i32::MIN <= (2 * n - 1) * offset <= i32::MAX,
        i32::MIN <= b + (2 * n - 1) * offset <= i32::MAX,
        i32::MIN + 32 <= b - pulse_cap <= i32::MAX,
    ensures
        r == angle_steps(n as int, b as int, offset as int, pulse_cap as int),
        1 <= r <= 256,
{
    let n2: i32 = 2 * n as i32 - 1;
    let qb: i32 = min_i32(
        min_i32(div_trunc(b + n2 * offset, n2), b - pulse_cap - 32),
        64,
    );
    if qb < 4 {
        1
    } else {
        let e: u32 = EXP2_TABLE8[(qb % 8) as usize] as u32;
        let shift: u32 = (14 - qb / 8) as u32;
        proof {
            vstd::bits::lemma_u32_shr_is_div(e, shift);
            lemma_pow2_pos(shift as nat);
            lemma2_to64();
            if shift > 6 {
                lemma_pow2_strictly_increases(6, shift as nat);
            }
            vstd::arithmetic::div_mod::lemma_div_is_ordered_by_denominator(
                e as int,
                64,
                pow2(shift as nat) as int,
            );
            vstd::arithmetic::div_mod::lemma_div_pos_is_pos(e as int, pow2(shift as nat) as int);
            if shift < 14 {
                lemma_pow2_strictly_increases(shift as nat, 14);
            }
            vstd::arithmetic::div_mod::lemma_div_is_ordered_by_denominator(
                e as int,
                pow2(shift as nat) as int,
                16384,
            );
        }
        let q: i32 = (e >> shift) as i32;
        min_i32((q + 1) / 2 * 2, 256)
    }
}

/// Pulse counts are exact up to 16; from 8 on, eight steps more double them, and every
/// step has more pulses than the one before.
pub proof fn law_pulse_counts_double_every_eight_steps(i: int)
    requires
        0 <= i,
    ensures
        i <= 16 ==> real_pulses(i) == i,
        i >= 8 ==> real_pulses(i + 8) == 2 * real_pulses(i),
        real_pulses(i) < real_pulses(i + 1),
{
    lemma2_to64();
    if i == 16 {
        assert(i / 8 - 1 == 1 && i % 8 == 0);
        assert(real_pulses(16) == 8 * pow2(1));
    } else if 8 <= i < 16 {
        assert(i / 8 - 1 == 0 && i % 8 == i - 8);
        let h = 8 + i % 8;
        assert(real_pulses(i) == h * pow2(0));
        assert(h * 1 == h);
    }
    if i == 7 {
        assert((i + 1) / 8 - 1 == 0 && (i + 1) % 8 == 0);
    } else if i >= 8 {
        let n = (i / 8 - 1) as nat;
        lemma_pow2_pos(n);
        lemma_pow2_unfold(n + 1);
        assert((i + 8) / 8 - 1 == n + 1 && (i + 8) % 8 == i % 8);
        let p = pow2(n) as int;
        let h = 8 + i % 8;
        assert(h * (2 * p) == 2 * (h * p)) by (nonlinear_arith);
        if i % 8 < 7 {
            assert((i + 1) / 8 == i / 8 && (i + 1) % 8 == i % 8 + 1);
            assert((h + 1) * p > h * p) by (nonlinear_arith)
                requires
                    p > 0,
            ;
        } else {
            assert((i + 1) / 8 == i / 8 + 1 && (i + 1) % 8 == 0);
            assert(8 * (2 * p) > 15 * p) by (nonlinear_arith)
                requires
                    p > 0,
            ;
        }
    }
}

/// An angle has one step or an even number of up to 256, and no fewer with more bits.
pub proof fn law_angles_get_finer_with_bits(n: int, b: int, more: int, offset: int, pulse_cap: int)
    requires
        1 <= n,
        b <= more,
    ensures
        ({
            let (a, c) = (
                angle_steps(n, b, offset, pulse_cap),
                angle_steps(n, more, offset, pulse_cap),
            );
            &&& a == 1 || a % 2 == 0
            &&& 1 <= a <= 256
            &&& a <= c
        }),
{
    let n2 = 2 * n - 1;
    let (x, y) = (b + n2 * offset, more + n2 * offset);
    lemma_trunc_grows(x, y, n2);
    let p = crate::int_math::min_of(
        crate::int_math::min_of(crate::int_math::trunc_quotient(x, n2), b - pulse_cap - 32),
        64,
    );
    let q = crate::int_math::min_of(
        crate::int_math::min_of(crate::int_math::trunc_quotient(y, n2), more - pulse_cap - 32),
        64,
    );
    assert(p <= q);
    lemma_angle_table(p, q);
}

proof fn lemma_trunc_grows(x: int, y: int, d: int)
    requires
        x <= y,
        d > 0,
    ensures
        crate::int_math::trunc_quotient(x, d) <= crate::int_math::trunc_quotient(y, d),
{
    if x >= 0 {
        vstd::arithmetic::div_mod::lemma_div_is_ordered(x, y, d);
    } else if y < 0 {
        vstd::arithmetic::div_mod::lemma_div_is_ordered(-y, -x, d);
    } else {
        vstd::arithmetic::div_mod::lemma_div_pos_is_pos(y, d);
        vstd::arithmetic::div_mod::lemma_div_pos_is_pos(-x, d);
    }
}

/// The steps that a share stands for.
spec fn steps_of(qb: int) -> int {
    if qb < 4 {
        1
    } else {
        let q = EXP2_TABLE8[qb % 8] as int / pow2((14 - qb / 8) as nat) as int;
        crate::int_math::min_of((q + 1) / 2 * 2, 256)
    }
}

#[verifier::spinoff_prover]
proof fn lemma_angle_table(p: int, q: int)
    requires
        p <= q <= 64,
    ensures
        steps_of(p) <= steps_of(q),
        steps_of(p) == 1 || steps_of(p) % 2 == 0,
        1 <= steps_of(p) <= 256,
    decreases q - p,
{
    lemma2_to64();
    lemma_angle_step(p);
    if p < q {
        lemma_angle_table(p + 1, q);
    }
}

/// One step of the table.
#[verifier::spinoff_prover]
proof fn lemma_angle_step(p: int)
    requires
        p <= 64,
    ensures
        p < 64 ==> steps_of(p) <= steps_of(p + 1),
        steps_of(p) == 1 || steps_of(p) % 2 == 0,
        1 <= steps_of(p) <= 256,
{
    lemma2_to64();
    if p >= 4 {
        lemma_angle_value(p);
    }
    if 3 <= p < 64 {
        lemma_angle_value(p + 1);
        lemma_angle_grows(p);
    }
}

/// The steps before they are rounded.
spec fn angle_value(qb: int) -> int {
    EXP2_TABLE8[qb % 8] as int / pow2((14 - qb / 8) as nat) as int
}

proof fn lemma_angle_value(p: int)
    requires
        4 <= p <= 64,
    ensures
        1 <= angle_value(p) <= 256,
{
    lemma2_to64();
    let shift = (14 - p / 8) as nat;
    let e = EXP2_TABLE8[p % 8] as int;
    lemma_pow2_pos(shift);
    if shift > 6 {
        lemma_pow2_strictly_increases(6, shift);
    }
    if shift < 14 {
        lemma_pow2_strictly_increases(shift, 14);
    }
    assert(p / 8 == 8 ==> p % 8 == 0);
    assert(16384 <= e <= 32767);
    vstd::arithmetic::div_mod::lemma_div_is_ordered_by_denominator(e, pow2(shift) as int, 16384);
    if shift > 6 {
        assert(shift >= 7);
        if shift > 7 {
            lemma_pow2_strictly_increases(7, shift);
        }
        vstd::arithmetic::div_mod::lemma_div_is_ordered_by_denominator(e, 128, pow2(shift) as int);
    }
}

/// The steps grow with the share.
proof fn lemma_angle_grows(p: int)
    requires
        3 <= p < 64,
    ensures
        angle_value(p) <= angle_value(p + 1),
{
    lemma2_to64();
    let shift = (14 - p / 8) as nat;
    lemma_pow2_pos(shift);
    let e = EXP2_TABLE8[p % 8] as int;
    let f = EXP2_TABLE8[(p + 1) % 8] as int;
    if p % 8 < 7 {
        assert((p + 1) / 8 == p / 8);
        assert(e <= f);
        vstd::arithmetic::div_mod::lemma_div_is_ordered(e, f, pow2(shift) as int);
    } else {
        assert((p + 1) / 8 == p / 8 + 1 && (p + 1) % 8 == 0);
        lemma_pow2_unfold(shift);
        let h = pow2((shift - 1) as nat) as int;
        lemma_pow2_pos((shift - 1) as nat);
        assert(e <= 2 * f);
        vstd::arithmetic::div_mod::lemma_div_is_ordered(e, 2 * f, 2 * h);
        assert((2 * f) / (2 * h) == f / h) by {
            vstd::arithmetic::div_mod::lemma_truncate_middle(f, h, 2);
            vstd::arithmetic::div_mod::lemma_div_denominator(2 * f, 2, h);
        }
    }
}

} // verus!
