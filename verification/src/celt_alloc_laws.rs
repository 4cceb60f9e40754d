//! What holds of every allocation: nothing of the budget is lost, and the
//! table row it builds on is the best that the budget allows.
use crate::celt_alloc;
use crate::celt_alloc::{Demand, Interp, Kept};
use crate::int_math;
use crate::opus_celt_tables::BAND_ALLOCATION;
use vstd::prelude::*;

verus! {

/// The bits of bands `a` to `b - 1`, shape and fine energy together, in
/// eighths.
pub open spec fn spent(bits: Seq<int>, fine: Seq<int>, a: int, b: int) -> int
    decreases b - a,
{
    if a >= b {
        0
    } else {
        spent(bits, fine, a, b - 1) + bits[b - 1] + 8 * fine[b - 1]
    }
}

/// The sum of entries `a` to `b - 1`.
pub open spec fn sum_between(v: Seq<int>, a: int, b: int) -> int
    decreases b - a,
{
    if a >= b {
        0
    } else {
        sum_between(v, a, b - 1) + v[b - 1]
    }
}

/// Sums of entries that are not negative grow.
pub proof fn lemma_sum_between_grows(v: Seq<int>, a: int, b: int, c: int)
    requires
        0 <= a <= b <= c <= 21,
        forall|i: int| a <= i < 21 ==> 0 <= #[trigger] v[i],
    ensures
        0 <= sum_between(v, a, b) <= sum_between(v, a, c),
    decreases c - a,
{
    if b < c {
        lemma_sum_between_grows(v, a, b, c - 1);
        assert(0 <= v[c - 1]);
    } else if a < b {
        lemma_sum_between_grows(v, a, b - 1, b - 1);
        assert(0 <= v[b - 1]);
    }
}

/// Sums of entries that fall below nothing by at most `dip` grow but for that.
pub proof fn lemma_sum_between_dips(v: Seq<int>, a: int, b: int, c: int, dip: int)
    requires
        0 <= a <= b <= c <= v.len(),
        0 <= dip,
        forall|i: int| a <= i < v.len() ==> -dip <= #[trigger] v[i],
    ensures
        sum_between(v, a, b) + dip * (b - a) <= sum_between(v, a, c) + dip * (c - a),
    decreases c - b,
{
    if b < c {
        lemma_sum_between_dips(v, a, b, c - 1, dip);
        assert(-dip <= v[c - 1]);
        assert(dip * (c - a) == dip * (c - 1 - a) + dip) by (nonlinear_arith);
    }
}

pub proof fn lemma_sum_from_between(v: Seq<int>, a: int, b: int)
    requires
        0 <= a <= b <= v.len(),
    ensures
        celt_alloc::sum_from(v, a) == sum_between(v, a, b) + celt_alloc::sum_from(v, b),
    decreases b - a,
{
    if a < b {
        lemma_sum_from_between(v, a, b - 1);
    }
}

/// Dropping bands keeps the sum right and leaves whole bits in the dropped
/// bands.
proof fn lemma_kept(x: Interp, coded: int, sum: int, bits: Seq<int>)
    requires
        x.valid(),
        x.channels == 1 && x.intensity == 0,
        x.start < coded <= x.end,
        bits.len() == x.end,
        forall|j: int| 0 <= j < x.end ==> 0 <= #[trigger] bits[j],
        sum == celt_alloc::sum_from(bits, x.start),
        forall|j: int| coded <= j < x.end ==> #[trigger] bits[j] == 0 || bits[j] == 8,
        sum <= x.total,
    ensures
        ({
            let k = x.kept(coded, sum, bits, 0);
            &&& x.start < k.coded <= x.end
            &&& k.bits.len() == x.end
            &&& k.sum == celt_alloc::sum_from(k.bits, x.start)
            &&& k.sum <= x.total
            &&& forall|j: int| 0 <= j < x.end ==> 0 <= #[trigger] k.bits[j]
            &&& forall|j: int|
                k.coded <= j < x.end ==> #[trigger] k.bits[j] == 0 || k.bits[j] == 8
            &&& k.flagged ==> x.start + 1 < k.coded && 16 <= x.total
        }),
    decreases coded,
{
    let j = coded - 1;
    if j > x.fixed {
        let band = x.band_bits(coded, sum, bits);
        celt_alloc::lemma_band_bits_bound(x, coded, sum, bits);
        celt_alloc::lemma_sum_update(bits, j, 0, x.start);
        celt_alloc::lemma_sum_nonnegative(bits.update(j, 0), x.start);
        if band < int_math::max_of(x.thresh[j], 16) {
            let less = if band >= 8 {
                8int
            } else {
                0
            };
            celt_alloc::lemma_sum_update(bits, j, less, x.start);
            lemma_kept(x, coded - 1, sum - bits[j] + less, bits.update(j, less));
        }
    }
}

/// What is spare after the bands below `j` have taken theirs.
proof fn lemma_spare_closed(x: Interp, rem: int, j: int)
    requires
        0 <= x.start <= j <= 21,
    ensures
        rem >= 0 ==> x.spare_at(rem, j) == int_math::max_of(
            rem - (celt_alloc::edge(j) - celt_alloc::edge(x.start)),
            0,
        ),
        rem < 0 && j > x.start ==> x.spare_at(rem, j) == 0,
        j == x.start ==> x.spare_at(rem, j) == rem,
    decreases j - x.start,
{
    if j > x.start {
        lemma_spare_closed(x, rem, j - 1);
    }
}

/// Spreading hands out `per` for each unit of width and what is spare.
proof fn lemma_spread_sum(x: Interp, k: Kept, left: int, span: int, per: int, rem: int, j: int)
    requires
        0 <= x.start <= j <= k.coded <= x.end <= 21,
        left == x.total + (if k.flagged {
            0
        } else {
            x.reserved
        }) - k.sum,
        span == celt_alloc::edge(k.coded) - celt_alloc::edge(x.start),
        per == int_math::trunc_quotient(left, span),
        rem == left - span * per,
    ensures
        sum_between(x.spread(k), x.start, j) == sum_between(k.bits, x.start, j) + per * (
        celt_alloc::edge(j) - celt_alloc::edge(x.start)) + rem - x.spare_at(rem, j),
    decreases j - x.start,
{
    let e = celt_alloc::edge(j) - celt_alloc::edge(x.start);
    if j > x.start {
        lemma_spread_sum(x, k, left, span, per, rem, j - 1);
        let w = celt_alloc::width(j - 1);
        let e0 = celt_alloc::edge(j - 1) - celt_alloc::edge(x.start);
        assert(per * e == per * e0 + per * w) by (nonlinear_arith)
            requires
                e == e0 + w,
        ;
    } else {
        assert(per * e == 0) by (nonlinear_arith)
            requires
                e == 0,
        ;
    }
}

/// The spread shares of the kept bands are within the shares and what was left.
pub proof fn lemma_spread_within(x: Interp, k: Kept)
    requires
        0 <= x.start < k.coded <= x.end <= 21,
        k.bits.len() == x.end,
        forall|j: int| 0 <= j < x.end ==> 0 <= #[trigger] k.bits[j],
    ensures
        sum_between(x.spread(k), x.start, k.coded) <= celt_alloc::sum_from(k.bits, x.start)
            + x.total + (if k.flagged {
            0
        } else {
            x.reserved
        }) - k.sum,
{
    let left = x.total + (if k.flagged {
        0
    } else {
        x.reserved
    }) - k.sum;
    let span = celt_alloc::edge(k.coded) - celt_alloc::edge(x.start);
    let per = int_math::trunc_quotient(left, span);
    let rem = left - span * per;
    assert(span * per == per * span) by (nonlinear_arith);
    lemma_spread_sum(x, k, left, span, per, rem, k.coded);
    celt_alloc::lemma_spare_bound(x, rem, k.coded);
    lemma_sum_from_between(k.bits, x.start, k.coded);
    celt_alloc::lemma_sum_nonnegative(k.bits, k.coded);
}

/// Splitting a share loses nothing: the shape bits, the fine bits of every channel and
/// what is carried on add up to it; nothing is carried on where the band can use all.
pub proof fn law_splitting_a_share_loses_nothing(
    j: int,
    bit: int,
    carried: int,
    cap: int,
    lm: int,
    channels: int,
)
    ensures
        ({
            let s = celt_alloc::share(j, bit, carried, cap, lm, channels);
            let n = celt_alloc::width(j) * celt_alloc::frame_scale(lm);
            &&& s.bits + 8 * (channels * s.fine) + s.carry == bit
            &&& n > 1 && bit <= cap ==> s.carry == 0
            &&& n <= 1 && bit <= 8 * channels ==> s.carry == 0 && s.fine == 0
        }),
{
    let n = celt_alloc::width(j) * celt_alloc::frame_scale(lm);
    let limit = if n > 1 {
        cap
    } else {
        8 * channels
    };
    let excess = int_math::max_of(bit - limit, 0);
    let kept = bit - excess;
    let den = channels * n;
    let log_n = den * (crate::opus_celt_tables::LOG_N_400[j] + 8 * lm);
    let fine = if n > 1 {
        celt_alloc::fine_bits(den, kept, celt_alloc::fine_offset(n, den, log_n, kept))
    } else {
        0
    };
    let extra = int_math::min_of(excess / 8, celt_alloc::MAX_FINE_BITS - fine);
    assert(channels * (fine + extra) == channels * fine + channels * extra) by (nonlinear_arith);
    assert(n <= 1 ==> channels * fine == 0) by (nonlinear_arith)
        requires
            n <= 1 ==> fine == 0,
    ;
}

proof fn lemma_split_sum(x: Interp, k: Kept, j: int)
    requires
        0 <= x.start <= j <= k.coded <= x.end <= 21,
        x.channels == 1,
    ensures
        ({
            let a = x.finished(k);
            let v = x.spread(k);
            spent(a.bits, a.fine, x.start, j) + x.carried(v, j) == sum_between(v, x.start, j)
        }),
    decreases j - x.start,
{
    if j > x.start {
        lemma_split_sum(x, k, j - 1);
        let v = x.spread(k);
        let before = x.carried(v, j - 1);
        law_splitting_a_share_loses_nothing(
            j - 1,
            v[j - 1] + before,
            before,
            x.cap[j - 1],
            x.lm,
            1,
        );
    }
}

/// Dropped bands spend what they had on fine energy.
proof fn lemma_dropped_sum(x: Interp, k: Kept, j: int)
    requires
        0 <= x.start < k.coded <= j <= x.end,
        k.bits.len() == x.end,
        forall|i: int| k.coded <= i < x.end ==> #[trigger] k.bits[i] == 0 || k.bits[i] == 8,
    ensures
        ({
            let a = x.finished(k);
            spent(a.bits, a.fine, x.start, j) == spent(a.bits, a.fine, x.start, k.coded)
                + celt_alloc::sum_from(k.bits, k.coded) - celt_alloc::sum_from(k.bits, j)
        }),
    decreases j - k.coded,
{
    if j > k.coded {
        lemma_dropped_sum(x, k, j - 1);
        assert(k.bits[j - 1] == 0 || k.bits[j - 1] == 8);
    }
}

/// Between two allocations of one channel the budget is used up: shape bits, fine
/// energy bits and what the last band could not use add up to it, with what was set
/// aside for the bit that says that no more bands are dropped if it is not written.
pub proof fn law_interpolation_uses_up_the_budget(x: Interp)
    requires
        x.valid(),
        x.channels == 1,
        x.intensity == 0,
    ensures
        ({
            let a = x.allocation();
            spent(a.bits, a.fine, x.start, x.end) + a.balance == x.total + (if a.flagged {
                0
            } else {
                x.reserved
            })
        }),
{
    let shares = x.settled(x.fraction(0, 64, 6));
    let sum = celt_alloc::sum_from(shares, x.start);
    lemma_settled(x);
    lemma_kept(x, x.end, sum, shares);
    let k = x.kept(x.end, sum, shares, 0);
    let left = x.total + (if k.flagged {
        0
    } else {
        x.reserved
    }) - k.sum;
    let span = celt_alloc::edge(k.coded) - celt_alloc::edge(x.start);
    let per = int_math::trunc_quotient(left, span);
    let rem = left - span * per;
    celt_alloc::lemma_per_bound(left, span, span);
    lemma_spread_sum(x, k, left, span, per, rem, k.coded);
    lemma_spare_closed(x, rem, k.coded);
    lemma_split_sum(x, k, k.coded);
    lemma_dropped_sum(x, k, x.end);
    lemma_sum_from_between(k.bits, x.start, k.coded);
    assert(x.allocation() == x.finished(k));
    assert(celt_alloc::sum_from(k.bits, x.end) == 0);
}

/// The budget is used up: shape bits, fine energy bits and what the last band
/// could not use add up to it, less the bit that says that no more bands are
/// dropped if there is one.
pub proof fn law_budget_is_used_up(d: Demand)
    requires
        d.valid(),
    ensures
        ({
            let a = d.allocation();
            spent(a.bits, a.fine, d.start, 21) + a.balance == int_math::max_of(d.total, 0) - (
            if a.flagged {
                d.reserved()
            } else {
                0
            })
        }),
{
    reveal(Demand::allocation);
    celt_alloc::lemma_interp_valid(d);
    law_interpolation_uses_up_the_budget(d.interp());
}

/// The split of a share that is not negative has no negative part, and neither
/// part is larger than it can be.
proof fn lemma_share_not_negative(j: int, bit: int, carried: int, cap: int, lm: int)
    requires
        0 <= bit,
        0 <= cap,
        0 <= j < 21,
        0 <= lm <= 3,
    ensures
        ({
            let s = celt_alloc::share(j, bit, carried, cap, lm, 1);
            &&& 0 <= s.bits <= int_math::max_of(cap, 8)
            &&& 0 <= s.fine <= celt_alloc::MAX_FINE_BITS
            &&& 0 <= s.carry
        }),
{
    let n = celt_alloc::width(j) * celt_alloc::frame_scale(lm);
    assert(1 <= n) by (nonlinear_arith)
        requires
            n == celt_alloc::width(j) * celt_alloc::frame_scale(lm),
            1 <= celt_alloc::width(j),
            1 <= celt_alloc::frame_scale(lm),
    ;
    let s = celt_alloc::share(j, bit, carried, cap, lm, 1);
}

/// What is carried over is not negative.
proof fn lemma_carried_not_negative(x: Interp, v: Seq<int>, j: int)
    requires
        x.valid(),
        x.channels == 1,
        x.start <= j <= x.end,
        forall|i: int| x.start <= i < x.end ==> 0 <= #[trigger] v[i],
    ensures
        0 <= x.carried(v, j),
    decreases j - x.start,
{
    if j > x.start {
        lemma_carried_not_negative(x, v, j - 1);
        let before = x.carried(v, j - 1);
        assert(0 <= v[j - 1] && 0 <= x.cap[j - 1]);
        lemma_share_not_negative(j - 1, v[j - 1] + before, before, x.cap[j - 1], x.lm);
    }
}

/// Spreading what is left takes nothing away.
proof fn lemma_spread_not_negative(x: Interp, k: Kept, j: int)
    requires
        0 <= x.start < k.coded <= x.end <= 21,
        0 <= x.reserved,
        k.sum <= x.total,
        forall|i: int| 0 <= i < x.end ==> 0 <= #[trigger] k.bits[i],
        0 <= j < x.end,
    ensures
        0 <= x.spread(k)[j],
{
    let left = x.total + (if k.flagged {
        0
    } else {
        x.reserved
    }) - k.sum;
    let span = celt_alloc::edge(k.coded) - celt_alloc::edge(x.start);
    let per = int_math::trunc_quotient(left, span);
    assert(0 <= k.bits[j]);
    if x.start <= j < k.coded {
        celt_alloc::lemma_per_bound(left, span, celt_alloc::width(j));
        celt_alloc::lemma_spare_bound(x, left - span * per, j);
    }
}

/// The shares of the kept bands have no negative part.
proof fn lemma_finished_not_negative(x: Interp, k: Kept, j: int)
    requires
        x.valid(),
        x.channels == 1,
        x.start < k.coded <= x.end,
        forall|i: int| 0 <= i < x.end ==> 0 <= #[trigger] x.spread(k)[i],
        0 <= j < x.end,
    ensures
        0 <= x.finished(k).bits[j] <= int_math::max_of(x.cap[j], 8),
        0 <= x.finished(k).fine[j],
        j < k.coded || x.spread(k)[j] <= 8 ==> x.finished(k).fine[j] <= celt_alloc::MAX_FINE_BITS,
{
    let v = x.spread(k);
    assert(0 <= v[j]);
    if x.start <= j < k.coded {
        lemma_carried_not_negative(x, v, j);
        assert(0 <= x.cap[j]);
        let before = x.carried(v, j);
        lemma_share_not_negative(j, v[j] + before, before, x.cap[j], x.lm);
    }
}

/// What [`Interp::kept`] starts from: shares that fit the budget.
proof fn lemma_settled(x: Interp)
    requires
        x.valid(),
    ensures
        ({
            let shares = x.settled(x.fraction(0, 64, 6));
            &&& shares.len() == x.end
            &&& forall|j: int| 0 <= j < x.end ==> 0 <= #[trigger] shares[j]
            &&& celt_alloc::sum_from(shares, x.start) <= x.total
        }),
{
    let f = x.fraction(0, 64, 6);
    celt_alloc::lemma_fraction_fits(x, 0, 64, 6);
    let shares = x.settled(f);
    celt_alloc::lemma_settled_sum(x, f, x.start);
    assert forall|j: int| 0 <= j < x.end implies 0 <= #[trigger] shares[j] by {
        if j >= x.start {
            celt_alloc::lemma_level_bound(x, f, j);
        }
    }
}

/// No band's share of an interpolated allocation of one channel is negative or
/// larger than it can be, nor is what is left over negative; and the bit that says
/// that no more bands are dropped is only written where the budget is two bits or
/// more.
pub proof fn law_interpolated_shares_are_not_negative(x: Interp)
    requires
        x.valid(),
        x.channels == 1,
        x.intensity == 0,
    ensures
        forall|j: int|
            0 <= j < x.end ==> 0 <= #[trigger] x.allocation().bits[j] <= int_math::max_of(
                x.cap[j],
                8,
            ) && 0 <= x.allocation().fine[j] <= celt_alloc::MAX_FINE_BITS,
        0 <= x.allocation().balance,
        x.allocation().flagged ==> 16 <= x.total,
{
    let shares = x.settled(x.fraction(0, 64, 6));
    let sum = celt_alloc::sum_from(shares, x.start);
    lemma_settled(x);
    lemma_kept(x, x.end, sum, shares);
    let k = x.kept(x.end, sum, shares, 0);
    assert forall|j: int| 0 <= j < x.end implies 0 <= #[trigger] x.spread(k)[j] by {
        lemma_spread_not_negative(x, k, j);
    }
    assert(x.allocation() == x.finished(k));
    assert forall|j: int| 0 <= j < x.end implies 0 <= #[trigger] x.allocation().bits[j]
        <= int_math::max_of(x.cap[j], 8) && 0 <= x.allocation().fine[j]
        <= celt_alloc::MAX_FINE_BITS by {
        if j >= k.coded {
            assert(x.spread(k)[j] == k.bits[j]);
        }
        lemma_finished_not_negative(x, k, j);
    }
    lemma_carried_not_negative(x, x.spread(k), k.coded);
}

/// No band's share is negative or larger than it can be, nor is what is left over
/// negative; and the bit that says that no more bands are dropped is only written
/// where it was set aside.
pub proof fn law_shares_are_not_negative(d: Demand)
    requires
        d.valid(),
    ensures
        forall|j: int|
            0 <= j < 21 ==> 0 <= #[trigger] d.allocation().bits[j] <= celt_alloc::CAP_LIMIT && 0
                <= d.allocation().fine[j] <= celt_alloc::MAX_FINE_BITS,
        forall|j: int|
            0 <= j < 21 ==> #[trigger] d.allocation().bits[j] <= int_math::max_of(d.cap[j], 8),
        0 <= d.allocation().balance,
        d.allocation().flagged ==> d.reserved() == 8,
{
    reveal(Demand::allocation);
    celt_alloc::lemma_interp_valid(d);
    law_interpolated_shares_are_not_negative(d.interp());
    assert forall|j: int| 0 <= j < 21 implies 0 <= #[trigger] d.allocation().bits[j]
        <= int_math::max_of(d.cap[j], 8) && d.allocation().bits[j] <= celt_alloc::CAP_LIMIT && 0
        <= d.allocation().fine[j] <= celt_alloc::MAX_FINE_BITS by {
        assert(0 <= d.interp().allocation().bits[j]);
        assert(d.cap[j] <= celt_alloc::CAP_LIMIT);
    }
}

/// What is left over is at most the budget.
pub proof fn lemma_balance_bound(d: Demand)
    requires
        d.valid(),
    ensures
        d.allocation().balance <= int_math::max_of(d.total, 0),
{
    law_shares_are_not_negative(d);
    law_budget_is_used_up(d);
    lemma_spent_not_negative(d, 21);
}

proof fn lemma_spent_not_negative(d: Demand, j: int)
    requires
        d.valid(),
        j <= 21,
    ensures
        0 <= spent(d.allocation().bits, d.allocation().fine, d.start, j),
    decreases j - d.start,
{
    if j > d.start {
        law_shares_are_not_negative(d);
        lemma_spent_not_negative(d, j - 1);
        assert(0 <= d.allocation().bits[j - 1]);
    }
}

/// Every row of the table gives each band at least what the row below gives.
#[verifier::spinoff_prover]
proof fn lemma_table_grows(row: int, j: int)
    requires
        0 <= row < 10,
        0 <= j < 21,
    ensures
        BAND_ALLOCATION[21 * row + j] <= BAND_ALLOCATION[21 * (row + 1) + j],
{
}

/// What a band asks for grows from row to row.
proof fn lemma_rows_grow(d: Demand, row: int, up: int, j: int)
    requires
        d.valid(),
        0 <= row <= up <= 10,
        0 <= j < 21,
    ensures
        0 <= d.row(row)[j] <= d.row(up)[j],
    decreases up - row,
{
    celt_alloc::lemma_row_bounds(row, j, d.trim, d.lm);
    assert(0 <= d.offsets[j]);
    if row < up {
        lemma_rows_grow(d, row + 1, up, j);
        lemma_table_grows(row, j);
        let a = BAND_ALLOCATION[21 * row + j] as int;
        let b = BAND_ALLOCATION[21 * (row + 1) + j] as int;
        let w = celt_alloc::width(j);
        let s = celt_alloc::frame_scale(d.lm);
        assert(w * (a * s) <= w * (b * s)) by (nonlinear_arith)
            requires
                0 <= a <= b,
                0 <= w,
                0 <= s,
        ;
    }
}

/// Asking for more never costs less, as long as no cap is below the floor.
proof fn lemma_cost_grows(
    v: Seq<int>,
    w: Seq<int>,
    thresh: Seq<int>,
    cap: Seq<int>,
    floor: int,
    j: int,
)
    requires
        v.len() == w.len(),
        0 <= j <= v.len(),
        0 <= floor,
        forall|i: int| j <= i < v.len() ==> 0 <= #[trigger] v[i] <= w[i],
        forall|i: int| j <= i < v.len() ==> floor <= #[trigger] cap[i],
    ensures
        celt_alloc::cost_from(v, thresh, cap, floor, j) <= celt_alloc::cost_from(
            w,
            thresh,
            cap,
            floor,
            j,
        ),
        celt_alloc::active(v, thresh, j) ==> celt_alloc::active(w, thresh, j),
    decreases v.len() - j,
{
    if j < v.len() {
        lemma_cost_grows(v, w, thresh, cap, floor, j + 1);
        assert(0 <= v[j] <= w[j]);
        assert(floor <= cap[j]);
    }
}

/// A row above one that does not fit does not fit either.
proof fn lemma_rows_above(d: Demand, row: int, up: int)
    requires
        d.valid(),
        forall|j: int| 0 <= j < 21 ==> 8 <= #[trigger] d.cap[j],
        0 <= row <= up <= 10,
        !d.row_fits(row),
    ensures
        !d.row_fits(up),
{
    assert forall|j: int| d.start <= j < 21 implies 0 <= #[trigger] d.row(row)[j] <= d.row(
        up,
    )[j] by {
        lemma_rows_grow(d, row, up, j);
    }
    lemma_cost_grows(d.row(row), d.row(up), d.thresholds(), d.cap, 8, d.start);
}

proof fn lemma_row_search_best(d: Demand, lo: int, hi: int)
    requires
        d.valid(),
        forall|j: int| 0 <= j < 21 ==> 8 <= #[trigger] d.cap[j],
        1 <= lo <= hi + 1,
        hi <= 10,
        forall|s: int| hi < s <= 10 ==> !#[trigger] d.row_fits(s),
    ensures
        lo - 1 <= d.row_search(lo, hi) <= hi,
        forall|s: int| d.row_search(lo, hi) < s <= 10 ==> !#[trigger] d.row_fits(s),
    decreases hi - lo + 1,
{
    if lo <= hi {
        let mid = (lo + hi) / 2;
        if d.row_fits(mid) {
            lemma_row_search_best(d, mid + 1, hi);
        } else {
            assert forall|s: int| mid - 1 < s <= 10 implies !#[trigger] d.row_fits(s) by {
                lemma_rows_above(d, mid, s);
            }
            lemma_row_search_best(d, lo, mid - 1);
        }
    }
}

/// The lower of the two rows is the best that the budget allows: it fits, and
/// no row above it does. Holds as long as no cap is below one bit.
pub proof fn law_row_is_the_best_that_fits(d: Demand)
    requires
        d.valid(),
        forall|j: int| 0 <= j < 21 ==> 8 <= #[trigger] d.cap[j],
    ensures
        ({
            let row = d.row_search(1, 10);
            &&& 0 <= row <= 10
            &&& row > 0 ==> d.row_fits(row)
            &&& forall|s: int| row < s <= 10 ==> !#[trigger] d.row_fits(s)
        }),
{
    celt_alloc::lemma_row_search_fits(d, 1, 10);
    lemma_row_search_best(d, 1, 10);
}

/// What a band asks for grows with the fraction.
proof fn lemma_levels_grow(x: Interp, f: int, g: int, j: int)
    requires
        x.valid(),
        0 <= f <= g <= 64,
        x.start <= j < x.end,
    ensures
        0 <= x.levels(f)[j] <= x.levels(g)[j],
{
    celt_alloc::lemma_level_bound(x, f, j);
    let b = x.bits2[j];
    assert(f * b <= g * b) by (nonlinear_arith)
        requires
            0 <= b,
            f <= g,
    ;
}

proof fn lemma_fraction_best(x: Interp, lo: int, hi: int, steps: nat, width: int)
    requires
        x.valid(),
        forall|j: int| x.start <= j < x.end ==> x.floor() <= #[trigger] x.cap[j],
        0 <= lo < hi <= 64,
        hi - lo == width,
        steps == 0 ==> width == 1,
        steps == 1 ==> width == 2,
        steps == 2 ==> width == 4,
        steps == 3 ==> width == 8,
        steps == 4 ==> width == 16,
        steps == 5 ==> width == 32,
        steps == 6 ==> width == 64,
        steps <= 6,
        hi < 64 ==> !x.fits(hi),
    ensures
        ({
            let f = x.fraction(lo, hi, steps);
            &&& lo <= f < hi
            &&& f + 1 < 64 ==> !x.fits(f + 1)
        }),
    decreases steps,
{
    if steps > 0 {
        let mid = (lo + hi) / 2;
        if x.fits(mid) {
            lemma_fraction_best(x, mid, hi, (steps - 1) as nat, width / 2);
        } else {
            lemma_fraction_best(x, lo, mid, (steps - 1) as nat, width / 2);
        }
    }
}

/// The fraction between the two rows is the best of 64 that the budget allows:
/// it fits, and no larger one does. Holds as long as no cap is below one bit for
/// each channel.
pub proof fn law_fraction_is_the_best_that_fits(x: Interp)
    requires
        x.valid(),
        forall|j: int| x.start <= j < x.end ==> x.floor() <= #[trigger] x.cap[j],
    ensures
        ({
            let f = x.fraction(0, 64, 6);
            &&& 0 <= f < 64
            &&& x.fits(f)
            &&& forall|g: int| f < g < 64 ==> !#[trigger] x.fits(g)
        }),
{
    celt_alloc::lemma_fraction_fits(x, 0, 64, 6);
    lemma_fraction_best(x, 0, 64, 6, 64);
    let f = x.fraction(0, 64, 6);
    assert forall|g: int| f < g < 64 implies !#[trigger] x.fits(g) by {
        assert forall|j: int| x.start <= j < x.end implies 0 <= #[trigger] x.levels(f + 1)[j]
            <= x.levels(g)[j] by {
            lemma_levels_grow(x, f + 1, g, j);
        }
        lemma_cost_grows(x.levels(f + 1), x.levels(g), x.thresh, x.cap, x.floor(), x.start);
    }
}

/// The caps of all frame sizes are well above one bit.
pub proof fn law_caps_are_above_one_bit(j: int, lm: int)
    requires
        0 <= j < 21,
        0 <= lm <= 3,
    ensures
        celt_alloc::band_cap(j, lm) >= 16,
{
    let w = celt_alloc::width(j);
    let s = celt_alloc::frame_scale(lm);
    let c = crate::opus_celt_tables::CACHE_CAPS_50[42 * lm + j] + 64;
    assert(1 <= w * s) by (nonlinear_arith)
        requires
            1 <= w,
            1 <= s,
    ;
    let n = w * s;
    assert(c * n >= 64) by (nonlinear_arith)
        requires
            c >= 64,
            n >= 1,
    ;
}

/// Eight steps more of trim give every band as many eighths for each of its
/// coefficients as there are bands above it: low bands gain, the top band does not.
pub proof fn law_trim_tilts_towards_low_bands(j: int, trim: int, lm: int)
    requires
        0 <= j < 21,
        0 <= lm <= 3,
    ensures
        celt_alloc::trim_offset(j, trim + 8, lm) - celt_alloc::trim_offset(j, trim, lm)
            == celt_alloc::width(j) * celt_alloc::frame_scale(lm) * (20 - j),
        celt_alloc::trim_offset(j, 5 + lm, lm) == (if celt_alloc::width(j)
            * celt_alloc::frame_scale(lm) == 1 {
            -8int
        } else {
            0
        }),
        celt_alloc::trim_offset(j, trim, lm) <= celt_alloc::trim_offset(j, trim + 1, lm),
{
    let (w, s, h) = (celt_alloc::width(j), celt_alloc::frame_scale(lm), 20 - j);
    let t = trim - 5 - lm;
    let a = w * t * h * (8 * s);
    let b = w * (t + 8) * h * (8 * s);
    let c = w * (t + 1) * h * (8 * s);
    let g = w * s * h;
    assert(b == a + 64 * g && a <= c) by (nonlinear_arith)
        requires
            a == w * t * h * (8 * s),
            b == w * (t + 8) * h * (8 * s),
            c == w * (t + 1) * h * (8 * s),
            g == w * s * h,
            0 <= w,
            0 <= s,
            0 <= h,
    ;
    assert(b / 64 == a / 64 + g);
    assert(w * (5 + lm - 5 - lm) * h * (8 * s) == 0) by (nonlinear_arith)
        requires
            5 + lm - 5 - lm == 0,
    ;
}

/// A boost goes to its band alone, eighth by eighth.
pub proof fn law_boosts_go_to_their_band(d: Demand, row: int, j: int, more: int)
    requires
        0 <= j < 21,
        d.offsets.len() >= 21,
    ensures
        ({
            let e = Demand { offsets: d.offsets.update(j, d.offsets[j] + more), ..d };
            &&& e.row(row)[j] == d.row(row)[j] + more
            &&& forall|i: int| 0 <= i < 21 && i != j ==> #[trigger] e.row(row)[i] == d.row(row)[i]
        }),
{
}

/// The bits of bands `a` to `b - 1` of `channels` channels, shape and fine energy
/// together, in eighths.
pub open spec fn spent_on_channels(
    bits: Seq<int>,
    fine: Seq<int>,
    channels: int,
    a: int,
    b: int,
) -> int
    decreases b - a,
{
    if a >= b {
        0
    } else {
        spent_on_channels(bits, fine, channels, a, b - 1) + bits[b - 1] + 8 * (channels * fine[b
            - 1])
    }
}

/// What the intensity parameter costs with `coded` bands: what was set aside for it, or
/// what the table says once bands have been dropped.
pub open spec fn intensity_cost(x: Interp, coded: int) -> int {
    if x.intensity > 0 && coded < x.end {
        celt_alloc::LOG2_FRAC_TABLE[int_math::min_of(coded - x.start, 23)] as int
    } else {
        x.intensity
    }
}

/// Dropping bands accounts for their shares and for the intensity parameter.
proof fn lemma_kept_accounts(x: Interp, coded: int, sum: int, bits: Seq<int>)
    requires
        x.valid(),
        x.start < coded <= x.end,
        bits.len() == x.end,
        forall|j: int| coded <= j < x.end ==> #[trigger] bits[j] == 0 || bits[j] == x.floor(),
        sum == celt_alloc::sum_from(bits, x.start) - x.intensity + intensity_cost(x, coded),
    ensures
        ({
            let k = x.kept(coded, sum, bits, intensity_cost(x, coded));
            &&& x.start < k.coded <= coded
            &&& k.bits.len() == x.end
            &&& forall|j: int|
                k.coded <= j < x.end ==> #[trigger] k.bits[j] == 0 || k.bits[j] == x.floor()
            &&& k.sum == celt_alloc::sum_from(k.bits, x.start) - x.intensity + intensity_cost(
                x,
                k.coded,
            )
        }),
    decreases coded,
{
    let j = coded - 1;
    if j > x.fixed {
        let band = x.band_bits(coded, sum, bits);
        if band < int_math::max_of(x.thresh[j], x.floor() + 8) {
            let less = if band >= x.floor() {
                x.floor()
            } else {
                0
            };
            let now = intensity_cost(x, coded);
            celt_alloc::lemma_sum_update(bits, j, less, x.start);
            assert(x.intensity_below(now, j) == intensity_cost(x, j)) by {
                if x.intensity > 0 && coded < x.end {
                    lemma_table_positive(int_math::min_of(coded - x.start, 23));
                }
            }
            lemma_kept_accounts(
                x,
                coded - 1,
                sum - (bits[j] + now) + intensity_cost(x, j) + less,
                bits.update(j, less),
            );
        }
    }
}

proof fn lemma_table_positive(i: int)
    requires
        1 <= i <= 23,
    ensures
        celt_alloc::LOG2_FRAC_TABLE[i] > 0,
{
}

proof fn lemma_split_on_channels(x: Interp, k: Kept, j: int)
    requires
        0 <= x.start <= j <= k.coded <= x.end <= 21,
    ensures
        ({
            let a = x.finished(k);
            let v = x.spread(k);
            spent_on_channels(a.bits, a.fine, x.channels, x.start, j) + x.carried(v, j)
                == sum_between(v, x.start, j)
        }),
    decreases j - x.start,
{
    if j > x.start {
        lemma_split_on_channels(x, k, j - 1);
        let v = x.spread(k);
        let before = x.carried(v, j - 1);
        law_splitting_a_share_loses_nothing(
            j - 1,
            v[j - 1] + before,
            before,
            x.cap[j - 1],
            x.lm,
            x.channels,
        );
    }
}

proof fn lemma_dropped_fine(x: Interp, k: Kept, j: int)
    requires
        0 <= x.start < k.coded <= j <= x.end,
        k.bits.len() == x.end,
        forall|i: int| k.coded <= i < x.end ==> #[trigger] k.bits[i] == 0 || k.bits[i] == x.floor(),
    ensures
        8 * sum_between(x.finished(k).fine, k.coded, j) == celt_alloc::sum_from(k.bits, k.coded)
            - celt_alloc::sum_from(k.bits, j),
    decreases j - k.coded,
{
    if j > k.coded {
        lemma_dropped_fine(x, k, j - 1);
        assert(k.bits[j - 1] == 0 || k.bits[j - 1] == x.floor());
    }
}

/// Between two allocations of one or two channels nothing is lost: the shape bits and the
/// fine bits of every channel in the kept bands, the bits that the dropped bands keep,
/// what is left over, and what the intensity parameter costs add up to the budget, with
/// what was set aside for that parameter and for the bit that ends the dropping if it is
/// not written.
pub proof fn law_interpolation_loses_nothing(x: Interp)
    requires
        x.valid(),
    ensures
        ({
            let a = x.allocation();
            spent_on_channels(a.bits, a.fine, x.channels, x.start, a.coded) + 8 * sum_between(
                a.fine,
                a.coded,
                x.end,
            ) + a.balance + intensity_cost(x, a.coded) == x.total + x.intensity + (if a.flagged {
                0
            } else {
                x.reserved
            })
        }),
{
    let shares = x.settled(x.fraction(0, 64, 6));
    let sum = celt_alloc::sum_from(shares, x.start);
    lemma_settled(x);
    lemma_kept_accounts(x, x.end, sum, shares);
    let k = x.kept(x.end, sum, shares, x.intensity);
    let left = x.total + (if k.flagged {
        0
    } else {
        x.reserved
    }) - k.sum;
    let span = celt_alloc::edge(k.coded) - celt_alloc::edge(x.start);
    let per = int_math::trunc_quotient(left, span);
    let rem = left - span * per;
    celt_alloc::lemma_per_bound(left, span, span);
    lemma_spread_sum(x, k, left, span, per, rem, k.coded);
    lemma_spare_closed(x, rem, k.coded);
    lemma_split_on_channels(x, k, k.coded);
    lemma_dropped_fine(x, k, x.end);
    lemma_sum_from_between(k.bits, x.start, k.coded);
    assert(x.allocation() == x.finished(k));
    assert(celt_alloc::sum_from(k.bits, x.end) == 0);
    assert(span * per == per * span) by (nonlinear_arith);
}

} // verus!
