//! A CELT frame keeps to its size as long as its pulse vectors do: everything
//! else is written only as far as the bits that are left allow.
use crate::celt_alloc_laws;
use crate::celt_laws;
use crate::celt_pulses;
use crate::opus_celt;
use crate::opus_celt::Body;
use crate::opus_celt_tables::{
    CACHE_CAPS_50, E_PROB_INTRA, SMALL_ENERGY_ICDF, SPREAD_ICDF, TRIM_ICDF,
};
use crate::radix;
use crate::range_laws;
use crate::range_model;
use crate::range_model::Coder;
use vstd::arithmetic::power2::*;
use vstd::prelude::*;

verus! {

/// A part of at least `2^-p` of the interval costs at most `p` bits.
proof fn lemma_part_tell(c: Coder, skip: nat, width: nat, p: nat)
    requires
        c.valid(),
        p <= 15,
        c.rng / pow2(p) <= width,
        skip + width <= c.rng,
    ensures
        c.narrowed(skip, width).renormalized().tell() <= c.tell() + p,
{
    let n = radix::bit_len(c.rng);
    radix::lemma_bit_len_bounds(c.rng);
    crate::opus_range::lemma_wide_bit_len(c.rng);
    let rest = (n - 1 - p) as nat;
    lemma_pow2_pos(p);
    lemma_pow2_pos(rest);
    lemma_pow2_adds(rest, p);
    vstd::arithmetic::div_mod::lemma_div_is_ordered(
        pow2((n - 1) as nat) as int,
        c.rng as int,
        pow2(p) as int,
    );
    vstd::arithmetic::div_mod::lemma_div_by_multiple(pow2(rest) as int, pow2(p) as int);
    assert(width >= pow2(rest));
    let part = c.narrowed(skip, width);
    range_laws::lemma_scaled_tell(part);
    let m = radix::bit_len(width);
    radix::lemma_bit_len_bounds(width);
    if m < rest {
        lemma_pow2_strictly_increases(m, rest);
    }
}

/// Eighths of a bit are counted no coarser than whole bits.
proof fn lemma_tell_frac(c: Coder)
    requires
        c.valid(),
    ensures
        8 * c.tell() - 7 <= c.tell_frac() <= 8 * c.tell(),
{
    let n = radix::bit_len(c.rng);
    radix::lemma_bit_len_bounds(c.rng);
    crate::opus_range::lemma_wide_bit_len(c.rng);
    crate::opus_range::lemma_top_sixteen(c.rng, n);
    let r = c.rng / pow2((n - 16) as nat);
    assert(0 <= r / 4096 - 8 <= 7);
    assert(range_model::LOG2_CORRECTION[7] == 65535);
}

/// The angle 0 costs at most 127 eighths of a bit, and gives back at most what
/// rounding hides.
pub proof fn lemma_angle_cost(c: Coder, total: nat)
    requires
        c.valid(),
        1 <= total <= 32768,
    ensures
        -7 <= c.symbol(0, 1, total).tell_frac() - c.tell_frac() <= 127,
{
    let c1 = c.symbol(0, 1, total);
    lemma_symbol_tell(c, 0, 1, total);
    celt_laws::lemma_frequencies(c, 0, 1, total);
    celt_laws::lemma_more_bits(c, c1);
    lemma_tell_frac(c);
    lemma_tell_frac(c1);
}

/// A flag costs at most the bits of its probability, and one that is `false` at
/// most one.
proof fn lemma_flag_tell(c: Coder, cond: bool, value: bool, logp: nat)
    requires
        c.valid(),
        1 <= logp <= 15,
    ensures
        opus_celt::flag_if(c, cond, value, logp).tell() <= c.tell() + (if !cond {
            0
        } else if value {
            logp as int
        } else {
            1
        }),
{
    if cond {
        lemma2_to64();
        range_model::lemma_bit_codes(c, value, logp);
        lemma_pow2_pos(logp);
        lemma_pow2_unfold(logp);
        vstd::arithmetic::div_mod::lemma_div_is_ordered_by_denominator(
            c.rng as int,
            2,
            pow2(logp) as int,
        );
        let p: nat = if value {
            logp
        } else {
            1
        };
        lemma_part_tell(c, c.bit_skip(value, logp), c.bit_width(value, logp), p);
    }
}

/// A symbol out of at most `2^15` costs at most 15 bits.
proof fn lemma_symbol_tell(c: Coder, fl: nat, fh: nat, ft: nat)
    requires
        c.valid(),
        fl < fh <= ft <= 32768,
    ensures
        c.symbol(fl, fh, ft).tell() <= c.tell() + 15,
{
    lemma2_to64();
    range_model::lemma_symbol_fits(c, fl, fh, ft);
    range_model::lemma_small_total_codes(c, fl, fh, ft);
    vstd::arithmetic::div_mod::lemma_div_is_ordered_by_denominator(
        c.rng as int,
        ft as int,
        32768,
    );
    vstd::arithmetic::div_mod::lemma_fundamental_div_mod(c.rng as int, ft as int);
    let (rng, r, l, h, t) = (c.rng as int, (c.rng / ft) as int, fl as int, fh as int, ft as int);
    assert(r <= r * (h - l) && r * (t - h) + r * h == t * r && r <= r * h) by (nonlinear_arith)
        requires
            0 <= r,
            0 <= l < h,
    ;
    lemma_part_tell(c, c.symbol_skip(fl, ft), c.symbol_width(fl, fh, ft), 15);
}

/// A coarse energy takes no more bits than are left.
proof fn lemma_energy_fits(c: Coder, q: int, i: int, lm: int, target: int)
    requires
        c.valid(),
        0 <= i < 21,
        0 <= lm <= 3,
        c.tell() <= target,
    ensures
        opus_celt::with_energy(c, q, i, lm, target).tell() <= target,
{
    let left = target - c.tell();
    if left >= 15 {
        let p = 42 * lm + 2 * i;
        let (fs, decay) = (E_PROB_INTRA[p] * 128, E_PROB_INTRA[p + 1] * 64);
        crate::opus_laplace_laws::lemma_model_range(lm, i);
        crate::opus_laplace::law_slots_are_not_empty(q, fs, decay);
        let s = crate::opus_laplace::slot(q, fs, decay);
        lemma_symbol_tell(c, s.fl as nat, (s.fl + s.width) as nat, 32768);
    } else if left >= 2 {
        lemma2_to64();
        let symbol = opus_celt::small_symbol(q);
        let r = c.rng / 4;
        assert(pow2(2) == 4);
        let t = SMALL_ENERGY_ICDF@;
        assert(t[0] == 2 && t[1] == 1 && t[2] == 0);
        assert(symbol == 0 ==> c.icdf_width(0, t, 2) == c.rng - r * 2);
        assert(symbol == 1 ==> c.icdf_width(1, t, 2) == r * 1);
        assert(symbol == 2 ==> c.icdf_width(2, t, 2) == r * 1);
        lemma_part_tell(
            c,
            c.icdf_skip(symbol, SMALL_ENERGY_ICDF@, 2),
            c.icdf_width(symbol, SMALL_ENERGY_ICDF@, 2),
            2,
        );
    } else if left >= 1 {
        lemma_flag_tell(c, true, q < 0, 1);
    }
}

proof fn lemma_energies_fit(c: Coder, q: Seq<int>, i: int, lm: int, target: int)
    requires
        c.valid(),
        0 <= i,
        0 <= lm <= 3,
        c.tell() <= target,
    ensures
        opus_celt::with_energies(c, q, i, lm, target).tell() <= target,
    decreases 21 - i,
{
    if i < 21 {
        lemma_energy_fits(c, q[i], i, lm, target);
        celt_laws::lemma_energy(c, q[i], i, lm, target);
        let c1 = opus_celt::with_energy(c, q[i], i, lm, target);
        lemma_energies_fit(c1, q, i + 1, lm, target);
    }
}

proof fn lemma_tf_flags_fit(c: Coder, n: int, logp: int, next: int, budget: int)
    requires
        c.valid(),
        1 <= logp <= 15,
        1 <= next <= 15,
        c.tell() <= budget,
    ensures
        opus_celt::with_tf_flags(c, n, logp, next, budget).tell() <= budget,
    decreases n,
{
    if n > 0 {
        let cond = c.tell() + logp <= budget;
        lemma_flag_tell(c, cond, false, logp as nat);
        celt_laws::lemma_flag(c, cond, false, logp as nat);
        let c1 = opus_celt::flag_if(c, cond, false, logp as nat);
        lemma_tf_flags_fit(c1, n - 1, next, next, budget);
    }
}

proof fn lemma_boosts_fit(c: Coder, i: int, lm: int, target: int)
    requires
        c.valid(),
        c.tell() <= target,
    ensures
        opus_celt::without_boosts(c, i, lm, target).tell() <= target,
    decreases 21 - i,
{
    if i < 21 {
        let cond = c.tell_frac() + 48 < 8 * target && crate::celt_alloc::band_cap(i, lm) > 0;
        lemma_tell_frac(c);
        lemma_flag_tell(c, cond, false, 6);
        celt_laws::lemma_flag(c, cond, false, 6);
        lemma_boosts_fit(opus_celt::flag_if(c, cond, false, 6), i + 1, lm, target);
    }
}

/// The flags take no more bits than are left, if the silence flag has one.
proof fn lemma_flags_fit(c: Coder, start: int, silence: bool, target: int, lm: int)
    requires
        c.valid(),
        c.tell() <= target,
        silence ==> c.tell() < target,
    ensures
        opus_celt::with_flags(c, start, silence, target, lm).tell() <= target,
{
    let c1 = opus_celt::flag_if(c, silence, false, 15);
    lemma_flag_tell(c, silence, false, 15);
    celt_laws::lemma_flag(c, silence, false, 15);
    let b2 = start == 0 && c1.tell() + 16 <= target;
    let c2 = opus_celt::flag_if(c1, b2, false, 1);
    lemma_flag_tell(c1, b2, false, 1);
    celt_laws::lemma_flag(c1, b2, false, 1);
    let b3 = lm > 0 && c2.tell() + 3 <= target;
    let c3 = opus_celt::flag_if(c2, b3, false, 3);
    lemma_flag_tell(c2, b3, false, 3);
    celt_laws::lemma_flag(c2, b3, false, 3);
    lemma_flag_tell(c3, c3.tell() + 3 <= target, true, 3);
}

/// The time-frequency flags take no more bits than are left.
proof fn lemma_tf_fits(c: Coder, start: int, lm: int, target: int)
    requires
        c.valid(),
        c.tell() <= target,
    ensures
        opus_celt::with_tf(c, start, lm, false, target).tell() <= target,
        opus_celt::with_tf(c, start, lm, false, target).valid(),
{
    let reserved = lm > 0 && c.tell() + 4 < target;
    let budget = target - (if reserved {
        1int
    } else {
        0
    });
    let flags = opus_celt::with_tf_flags(c, 21 - start, 4, 5, budget);
    lemma_tf_flags_fit(c, 21 - start, 4, 5, budget);
    celt_laws::lemma_tf_flags(c, 21 - start, 4, 5, budget);
    lemma_flag_tell(flags, true, false, 1);
    celt_laws::lemma_flag(flags, true, false, 1);
}

/// Neutral spreading costs at most four bits, a neutral trim at most six.
proof fn lemma_neutral_tell(c: Coder)
    requires
        c.valid(),
    ensures
        c.icdf(2, SPREAD_ICDF@, 5).tell() <= c.tell() + 4,
        c.icdf(5, TRIM_ICDF@, 7).tell() <= c.tell() + 6,
{
    lemma2_to64();
    let (r, t) = (c.rng / 32, c.rng / 128);
    assert(SPREAD_ICDF@[1] == 23 && SPREAD_ICDF@[2] == 2);
    assert(TRIM_ICDF@[4] == 87 && TRIM_ICDF@[5] == 41);
    assert(c.icdf_width(2, SPREAD_ICDF@, 5) == r * 21);
    assert(c.icdf_width(5, TRIM_ICDF@, 7) == t * 46);
    lemma_part_tell(c, c.icdf_skip(2, SPREAD_ICDF@, 5), c.icdf_width(2, SPREAD_ICDF@, 5), 4);
    lemma_part_tell(c, c.icdf_skip(5, TRIM_ICDF@, 7), c.icdf_width(5, TRIM_ICDF@, 7), 6);
}

/// Everything in front of the allocation fits the frame.
proof fn lemma_side_info_fits(
    c: Coder,
    q: Seq<int>,
    start: int,
    silence: bool,
    target: int,
    lm: int,
)
    requires
        c.valid(),
        0 <= start,
        0 <= lm <= 3,
        c.tell() <= target,
        silence ==> c.tell() < target,
    ensures
        opus_celt::with_side_info(c, q, start, silence, target, lm).tell() <= target,
{
    let c0 = opus_celt::with_flags(c, start, silence, target, lm);
    lemma_flags_fit(c, start, silence, target, lm);
    celt_laws::lemma_flags(c, start, silence, target, lm);
    let c1 = opus_celt::with_energies(c0, q, start, lm, target);
    lemma_energies_fit(c0, q, start, lm, target);
    celt_laws::lemma_energies(c0, q, start, lm, target);
    let c2 = opus_celt::with_tf(c1, start, lm, false, target);
    lemma_tf_fits(c1, start, lm, target);
    lemma_neutral_tell(c2);
    lemma2_to64();
    celt_laws::lemma_icdf(c2, 2, SPREAD_ICDF@, 5);
    let c3 = if c2.tell() + 4 <= target {
        c2.icdf(2, SPREAD_ICDF@, 5)
    } else {
        c2
    };
    let c4 = opus_celt::without_boosts(c3, start, lm, target);
    lemma_boosts_fit(c3, start, lm, target);
    celt_laws::lemma_boosts(c3, start, lm, target);
    lemma_tell_frac(c4);
    lemma_neutral_tell(c4);
}

/// The fine energies take their bits, one for one.
proof fn lemma_fine_tell(c: Coder, bits: Seq<int>, fine: Seq<int>, i: int)
    requires
        c.valid(),
        0 <= i <= 21,
        forall|j: int| 0 <= j < 21 ==> 0 <= #[trigger] bits[j],
        forall|j: int| 0 <= j < 21 ==> 0 <= #[trigger] fine[j],
    ensures
        8 * opus_celt::with_fine(c, fine, i).tell() <= 8 * c.tell() + celt_alloc_laws::spent(
            bits,
            fine,
            i,
            21,
        ),
    decreases 21 - i,
{
    if i < 21 {
        assert(0 <= bits[i] && 0 <= fine[i]);
        let c1 = if fine[i] > 0 {
            c.raw_bits(0, fine[i] as nat)
        } else {
            c
        };
        assert(c1.tell() == c.tell() + fine[i]);
        lemma_fine_tell(c1, bits, fine, i + 1);
        lemma_spent_first(bits, fine, i, 21);
    }
}

/// The bits of some bands are those of the first and those of the others.
proof fn lemma_spent_first(bits: Seq<int>, fine: Seq<int>, a: int, b: int)
    requires
        a < b,
    ensures
        celt_alloc_laws::spent(bits, fine, a, b) == bits[a] + 8 * fine[a] + celt_alloc_laws::spent(
            bits,
            fine,
            a + 1,
            b,
        ),
    decreases b - a,
{
    if a + 1 < b {
        lemma_spent_first(bits, fine, a, b - 1);
    } else {
        assert(celt_alloc_laws::spent(bits, fine, a, a) == 0);
        assert(celt_alloc_laws::spent(bits, fine, a + 1, b) == 0);
    }
}

/// What a frame asks for in its allocation is within the terms of the
/// allocation.
proof fn lemma_demand_valid(c: Coder, start: int, target: int, lm: int)
    requires
        0 <= start < 21,
        0 <= lm <= 3,
        target <= opus_celt::TARGET_LIMIT,
        0 <= c.tell_frac(),
    ensures
        opus_celt::demand(c, start, target, lm).valid(),
{
    let d = opus_celt::demand(c, start, target, lm);
    assert forall|j: int| 0 <= j < 21 implies 0 <= #[trigger] d.cap[j]
        <= crate::celt_alloc::CAP_LIMIT by {
        let n = crate::celt_alloc::width(j) * crate::celt_alloc::frame_scale(lm);
        let k = CACHE_CAPS_50[42 * lm + j] + 64;
        assert(0 <= n <= 176) by (nonlinear_arith)
            requires
                n == crate::celt_alloc::width(j) * crate::celt_alloc::frame_scale(lm),
                1 <= crate::celt_alloc::width(j) <= 22,
                1 <= crate::celt_alloc::frame_scale(lm) <= 8,
        ;
        assert(0 <= k * n <= 319 * 176) by (nonlinear_arith)
            requires
                0 <= n <= 176,
                0 <= k <= 319,
        ;
    }
}

/// Everything in front of the band shapes fits the frame, whatever the
/// energies, if what is there before does and leaves a bit for the silence flag.
pub proof fn law_front_of_a_frame_fits(
    c: Coder,
    q: Seq<int>,
    start: int,
    silence: bool,
    target: int,
    lm: int,
)
    requires
        c.valid(),
        0 <= start < 21,
        0 <= lm <= 3,
        target <= opus_celt::TARGET_LIMIT,
        c.tell() <= target,
        silence ==> c.tell() < target,
    ensures
        opus_celt::begun(c, q, start, silence, target, lm).tell() <= target,
{
    let c1 = opus_celt::with_side_info(c, q, start, silence, target, lm);
    lemma_side_info_fits(c, q, start, silence, target, lm);
    celt_laws::lemma_side_info(c, q, start, silence, target, lm);
    lemma_tell_frac(c1);
    crate::opus_range::lemma_wide_bit_len(c1.rng);
    let d = opus_celt::demand(c1, start, target, lm);
    lemma_demand_valid(c1, start, target, lm);
    let a = d.allocation();
    celt_alloc_laws::law_budget_is_used_up(d);
    celt_alloc_laws::law_shares_are_not_negative(d);
    assert forall|j: int| 0 <= j < 21 implies 0 <= #[trigger] a.fine[j] by {
        assert(0 <= a.bits[j]);
    }
    let c2 = opus_celt::flag_if(c1, a.flagged, true, 1);
    lemma_flag_tell(c1, a.flagged, true, 1);
    celt_laws::lemma_flag(c1, a.flagged, true, 1);
    lemma_fine_tell(c2, a.bits, a.fine, start);
}

/// What is spent on finer energies never takes the frame beyond its size.
pub proof fn law_end_of_a_frame_fits(body: Body, c: Coder, late: int, i: int)
    requires
        c.tell() <= body.target,
    ensures
        body.refined(c, late, i).tell() <= body.target,
    decreases 2 - late, 21 - i,
{
    if late < 2 {
        if i >= 21 {
            law_end_of_a_frame_fits(body, c, late + 1, body.start);
        } else if body.alloc.fine[i] >= crate::celt_alloc::MAX_FINE_BITS || body.alloc.late[i]
            != late {
            law_end_of_a_frame_fits(body, c, late, i + 1);
        } else if body.target - c.tell() > 0 {
            law_end_of_a_frame_fits(body, c.raw_bits(0, 1), late, i + 1);
        }
    }
}

/// The costliest vector of a band that can be split takes more than 22 bits.
#[verifier::spinoff_prover]
proof fn lemma_wide_bands_are_dear(band: int, lm: int)
    requires
        0 <= band < 21,
        0 <= lm <= 3,
        crate::celt_alloc::width(band) * crate::celt_alloc::frame_scale(lm) > 2,
    ensures
        celt_pulses::tabled(band, lm, celt_pulses::max_pseudo(band, lm)) >= 179,
{
    reveal(celt_pulses::cost_row);
    reveal(celt_pulses::max_pseudo);
    reveal(celt_pulses::tabled);
    let i = 21 * (lm + 1) + band;
    celt_pulses::lemma_cost_table(i, 1);
}

/// The splits of a band fit what the band has.
proof fn lemma_band_fits(c: Coder, band: int, lm: int, b: int, rem: int, n: int, target: int)
    requires
        c.valid(),
        0 <= band < 21,
        -1 <= lm <= 3,
        lm >= 0 ==> n == crate::celt_alloc::width(band) * crate::celt_alloc::frame_scale(lm),
        c.tell() <= target,
        rem == 8 * target - c.tell_frac() - 1,
        b <= rem + 1,
    ensures
        opus_celt::with_band(c, band, lm, b, rem, n).0.tell() <= target,
    decreases lm + 1,
{
    lemma_tell_frac(c);
    if n != 1 && celt_pulses::splits(band, lm, n, b) {
        lemma_wide_bands_are_dear(band, lm);
        let w = crate::celt_alloc::width(band);
        if lm > 0 {
            let s = crate::celt_alloc::frame_scale(lm - 1);
            assert(crate::celt_alloc::frame_scale(lm) == 2 * s);
            assert(w * (2 * s) == 2 * (w * s)) by (nonlinear_arith);
        }
        let steps = opus_celt::split_steps(band, lm, n / 2, b);
        if steps != 1 {
            let cap = crate::opus_celt_tables::LOG_N_400[band] + 8 * (lm - 1);
            celt_laws::lemma_angle_steps(n / 2, b, cap / 2 - 4, cap);
            let h = steps / 2 + 1;
            assert(1 <= h * h <= 16641) by (nonlinear_arith)
                requires
                    1 <= h <= 129,
            ;
            let total = opus_celt::angle_total(steps) as nat;
            let c1 = c.symbol(0, 1, total);
            lemma_symbol_tell(c, 0, 1, total);
            celt_laws::lemma_frequencies(c, 0, 1, total);
            lemma_tell_frac(c1);
            let cost = c1.tell_frac() - c.tell_frac();
            lemma_band_fits(c1, band, lm - 1, b - cost, rem - cost, n / 2, target);
        } else {
            lemma_band_fits(c, band, lm - 1, b, rem, n / 2, target);
        }
    }
}

/// What is written on the way to the next pulse vector fits the frame.
pub proof fn law_steps_between_shapes_fit(body: Body, c: Coder)
    requires
        c.valid(),
        0 <= body.lm <= 3,
        0 <= body.band,
        c.tell() <= body.target,
    ensures
        body.advanced(c).0.tell() <= body.target,
    decreases 21 - body.band,
{
    if body.band < 21 {
        let tell = c.tell_frac();
        lemma_tell_frac(c);
        let (b, rem, n) = (
            body.band_budget(body.band_balance(tell), tell),
            8 * body.target - tell - 1,
            crate::celt_alloc::width(body.band) * crate::celt_alloc::frame_scale(body.lm),
        );
        lemma_band_fits(c, body.band, body.lm, b, rem, n, body.target);
        celt_laws::lemma_band(c, body.band, body.lm, b, rem, n);
        let (c1, want) = body.band_written(c);
        if want is None {
            law_steps_between_shapes_fit(body.band_done(c), c1);
        }
    }
}

/// No pulse vector takes the frame beyond its size.
pub open spec fn shapes_fit(body: Body, c: Coder, shapes: Seq<Seq<int>>) -> bool
    decreases shapes.len(),
{
    let (c1, next, want) = body.advanced(c);
    if want is None || shapes.len() == 0 {
        true
    } else {
        let c2 = opus_celt::with_pulses(c1, shapes[0]);
        c2.tell() <= body.target && shapes_fit(next, c2, shapes.skip(1))
    }
}

/// The bands with their pulse vectors fit the frame if the vectors do.
proof fn lemma_bands_fit(body: Body, c: Coder, shapes: Seq<Seq<int>>)
    requires
        c.valid(),
        0 <= body.lm <= 3,
        0 <= body.band,
        c.tell() <= body.target,
        shapes_fit(body, c, shapes),
    ensures
        celt_laws::with_shapes(body, c, shapes).0.tell() <= body.target,
        celt_laws::with_shapes(body, c, shapes).1.target == body.target,
    decreases shapes.len(),
{
    let (c1, next, want) = body.advanced(c);
    law_steps_between_shapes_fit(body, c);
    celt_laws::lemma_same_terms(body, c);
    if want is Some && shapes.len() > 0 {
        celt_laws::law_steps_between_shapes_are_messages(body, c);
        celt_laws::law_pulse_vectors_are_messages(c1, shapes[0]);
        lemma_bands_fit(next, opus_celt::with_pulses(c1, shapes[0]), shapes.skip(1));
    }
}

/// A frame whose pulse vectors fit fits as a whole, and its packet has exactly
/// the frame's bytes.
pub proof fn law_frames_fit(
    c: Coder,
    q: Seq<int>,
    start: int,
    silence: bool,
    size: nat,
    lm: int,
    shapes: Seq<Seq<int>>,
)
    requires
        c.valid(),
        0 <= start < 21,
        0 <= lm <= 3,
        8 * size <= opus_celt::TARGET_LIMIT,
        c.tell() <= 8 * size,
        silence ==> c.tell() < 8 * size,
        ({
            let target = 8 * size as int;
            let alloc = opus_celt::begun_allocation(c, q, start, silence, target, lm);
            let body = Body { start, lm, target, alloc, band: start, balance: alloc.balance };
            shapes_fit(body, opus_celt::begun(c, q, start, silence, target, lm), shapes)
        }),
    ensures
        ({
            let d = celt_laws::framed(c, q, start, silence, 8 * size as int, lm, shapes);
            d.tell() <= 8 * size && d.packet_of_size(size).len() == size
        }),
{
    let target = 8 * size as int;
    let alloc = opus_celt::begun_allocation(c, q, start, silence, target, lm);
    let body = Body { start, lm, target, alloc, band: start, balance: alloc.balance };
    let front = opus_celt::begun(c, q, start, silence, target, lm);
    law_front_of_a_frame_fits(c, q, start, silence, target, lm);
    celt_laws::law_front_of_a_frame_is_a_message(c, q, start, silence, target, lm);
    let (c1, last) = celt_laws::with_shapes(body, front, shapes);
    lemma_bands_fit(body, front, shapes);
    law_end_of_a_frame_fits(last, c1, 0, start);
    celt_laws::law_frames_are_messages(c, q, start, silence, target, lm, shapes);
    let d = celt_laws::framed(c, q, start, silence, target, lm, shapes);
    range_laws::law_messages_that_fit_fill_their_frame(d, size);
}

} // verus!
