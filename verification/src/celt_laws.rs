//! A CELT frame is a message: whatever energies and pulse vectors it is given,
//! it is written as items that a decoder reads back one by one.
use crate::celt_pulses;
use crate::celt_pulses::EXP2_TABLE8;
use crate::opus_celt;
use crate::opus_celt::Body;
use crate::opus_celt_tables::{E_PROB_INTRA, SMALL_ENERGY_ICDF, SPREAD_ICDF, TRIM_ICDF};
use crate::opus_pvq;
use crate::radix;
use crate::range_laws;
use crate::range_laws::{Decoder, Item};
use crate::range_model;
use crate::range_model::Coder;
use vstd::arithmetic::power2::*;
use vstd::prelude::*;

verus! {

/// Some message that can be coded takes the coder from `c` to `d`.
pub open spec fn leads_to(c: Coder, d: Coder) -> bool {
    exists|message: Seq<Item>|
        range_laws::all_legal(c, message) && #[trigger] range_laws::all_written(c, message) == d
}

/// Two messages written one behind the other.
proof fn lemma_joined(c: Coder, a: Seq<Item>, b: Seq<Item>)
    requires
        range_laws::all_legal(c, a),
        range_laws::all_legal(range_laws::all_written(c, a), b),
    ensures
        range_laws::all_legal(c, a + b),
        range_laws::all_written(c, a + b) == range_laws::all_written(
            range_laws::all_written(c, a),
            b,
        ),
    decreases a.len(),
{
    if a.len() == 0 {
        assert(a + b =~= b);
    } else {
        lemma_joined(a[0].written(c), a.skip(1), b);
        assert((a + b).skip(1) =~= a.skip(1) + b);
        assert((a + b)[0] == a[0]);
    }
}

/// Nothing at all is a message.
pub proof fn lemma_stay(c: Coder)
    ensures
        leads_to(c, c),
{
    let none = Seq::<Item>::empty();
    assert(range_laws::all_legal(c, none) && range_laws::all_written(c, none) == c);
}

/// Messages can follow each other.
proof fn lemma_chain(a: Coder, b: Coder, c: Coder)
    requires
        leads_to(a, b),
        leads_to(b, c),
    ensures
        leads_to(a, c),
{
    let first = choose|message: Seq<Item>|
        range_laws::all_legal(a, message) && #[trigger] range_laws::all_written(a, message) == b;
    let second = choose|message: Seq<Item>|
        range_laws::all_legal(b, message) && #[trigger] range_laws::all_written(b, message) == c;
    lemma_joined(a, first, second);
    assert(range_laws::all_written(a, first + second) == c);
}

/// One item is a message.
pub proof fn lemma_item(c: Coder, item: Item)
    requires
        c.valid(),
        item.legal(c),
    ensures
        leads_to(c, item.written(c)),
        item.written(c).valid(),
{
    let message = seq![item];
    assert(message.skip(1) =~= Seq::<Item>::empty());
    assert(range_laws::all_legal(item.written(c), message.skip(1)));
    assert(range_laws::all_written(item.written(c), message.skip(1)) == item.written(c));
    assert(range_laws::all_written(c, message) == item.written(c));
    range_laws::lemma_message_back(c, message, Seq::empty());
}

/// A flag.
pub proof fn lemma_flag(c: Coder, cond: bool, value: bool, logp: nat)
    requires
        c.valid(),
        1 <= logp <= 15,
    ensures
        leads_to(c, opus_celt::flag_if(c, cond, value, logp)),
        opus_celt::flag_if(c, cond, value, logp).valid(),
{
    if cond {
        range_model::lemma_bit_codes(c, value, logp);
        lemma_item(c, Item::Bit { value, logp });
    } else {
        lemma_stay(c);
    }
}

/// A symbol of an inverse cumulative table that falls strictly.
pub proof fn lemma_icdf(c: Coder, s: int, icdf: Seq<u8>, ftb: nat)
    requires
        c.valid(),
        ftb <= 8,
        0 <= s < icdf.len(),
        icdf[0] < pow2(ftb),
        forall|i: int, j: int| 0 <= i < j < icdf.len() ==> #[trigger] icdf[j] < #[trigger] icdf[i],
    ensures
        leads_to(c, c.icdf(s, icdf, ftb)),
        c.icdf(s, icdf, ftb).valid(),
{
    if s > 0 {
        assert(icdf[s] < icdf[s - 1]);
    }
    range_model::lemma_icdf_codes(c, s, icdf, ftb);
    lemma_item(c, Item::Symbol { s, icdf, ftb });
}

/// A number of raw zeros.
pub proof fn lemma_raw_zeros(c: Coder, n: nat)
    requires
        c.valid(),
    ensures
        leads_to(c, c.raw_bits(0, n)),
        c.raw_bits(0, n).valid(),
{
    lemma_pow2_pos(n);
    lemma_item(c, Item::Raw { v: 0, n });
}

/// A symbol out of a total that leaves every frequency a part.
pub proof fn lemma_frequencies(c: Coder, fl: nat, fh: nat, ft: nat)
    requires
        c.valid(),
        fl < fh <= ft <= 0x80_0000,
    ensures
        leads_to(c, c.symbol(fl, fh, ft)),
        c.symbol(fl, fh, ft).valid(),
{
    range_model::lemma_small_total_codes(c, fl, fh, ft);
    lemma_item(c, Item::Frequencies { fl, fh, ft });
}

/// The flags at the front.
pub proof fn lemma_flags(c: Coder, start: int, silence: bool, target: int, lm: int)
    requires
        c.valid(),
    ensures
        leads_to(c, opus_celt::with_flags(c, start, silence, target, lm)),
        opus_celt::with_flags(c, start, silence, target, lm).valid(),
{
    let c1 = opus_celt::flag_if(c, silence, false, 15);
    lemma_flag(c, silence, false, 15);
    let b2 = start == 0 && c1.tell() + 16 <= target;
    let c2 = opus_celt::flag_if(c1, b2, false, 1);
    lemma_flag(c1, b2, false, 1);
    let b3 = lm > 0 && c2.tell() + 3 <= target;
    let c3 = opus_celt::flag_if(c2, b3, false, 3);
    lemma_flag(c2, b3, false, 3);
    let b4 = c3.tell() + 3 <= target;
    let c4 = opus_celt::flag_if(c3, b4, true, 3);
    lemma_flag(c3, b4, true, 3);
    lemma_chain(c, c1, c2);
    lemma_chain(c, c2, c3);
    lemma_chain(c, c3, c4);
}

/// One coarse energy.
pub proof fn lemma_energy(c: Coder, q: int, i: int, lm: int, target: int)
    requires
        c.valid(),
        0 <= i < 21,
        0 <= lm <= 3,
    ensures
        leads_to(c, opus_celt::with_energy(c, q, i, lm, target)),
        opus_celt::with_energy(c, q, i, lm, target).valid(),
{
    let left = target - c.tell();
    if left >= 15 {
        let p = 42 * lm + 2 * i;
        let (fs, decay) = (E_PROB_INTRA[p] * 128, E_PROB_INTRA[p + 1] * 64);
        crate::opus_laplace_laws::lemma_model_range(lm, i);
        crate::opus_laplace::law_slots_are_not_empty(q, fs, decay);
        let s = crate::opus_laplace::slot(q, fs, decay);
        lemma_frequencies(c, s.fl as nat, (s.fl + s.width) as nat, 32768);
    } else if left >= 2 {
        lemma2_to64();
        lemma_icdf(c, opus_celt::small_symbol(q), SMALL_ENERGY_ICDF@, 2);
    } else if left >= 1 {
        lemma_flag(c, true, q < 0, 1);
    } else {
        lemma_stay(c);
    }
}

/// The coarse energies.
pub proof fn lemma_energies(c: Coder, q: Seq<int>, i: int, lm: int, target: int)
    requires
        c.valid(),
        0 <= i,
        0 <= lm <= 3,
    ensures
        leads_to(c, opus_celt::with_energies(c, q, i, lm, target)),
        opus_celt::with_energies(c, q, i, lm, target).valid(),
    decreases 21 - i,
{
    if i >= 21 {
        lemma_stay(c);
    } else {
        let c1 = opus_celt::with_energy(c, q[i], i, lm, target);
        lemma_energy(c, q[i], i, lm, target);
        lemma_energies(c1, q, i + 1, lm, target);
        lemma_chain(c, c1, opus_celt::with_energies(c1, q, i + 1, lm, target));
    }
}

/// The time-frequency flags.
pub proof fn lemma_tf_flags(c: Coder, n: int, logp: int, next: int, budget: int)
    requires
        c.valid(),
        1 <= logp <= 15,
        1 <= next <= 15,
    ensures
        leads_to(c, opus_celt::with_tf_flags(c, n, logp, next, budget)),
        opus_celt::with_tf_flags(c, n, logp, next, budget).valid(),
    decreases n,
{
    if n <= 0 {
        lemma_stay(c);
    } else {
        let cond = c.tell() + logp <= budget;
        let c1 = opus_celt::flag_if(c, cond, false, logp as nat);
        lemma_flag(c, cond, false, logp as nat);
        lemma_tf_flags(c1, n - 1, next, next, budget);
        lemma_chain(c, c1, opus_celt::with_tf_flags(c1, n - 1, next, next, budget));
    }
}

/// An unchanged time-frequency resolution.
pub proof fn lemma_tf(c: Coder, start: int, lm: int, transient: bool, target: int)
    requires
        c.valid(),
    ensures
        leads_to(c, opus_celt::with_tf(c, start, lm, transient, target)),
        opus_celt::with_tf(c, start, lm, transient, target).valid(),
{
    let c2 = opus_celt::with_tf(c, start, lm, transient, target);
    let (logp, next) = if transient {
        (2int, 4int)
    } else {
        (4, 5)
    };
    let reserved = lm > 0 && c.tell() + logp < target;
    let budget = target - (if reserved {
        1int
    } else {
        0
    });
    let flags = opus_celt::with_tf_flags(c, 21 - start, logp, next, budget);
    lemma_tf_flags(c, 21 - start, logp, next, budget);
    lemma_flag(flags, true, false, 1);
    lemma_flag(flags, false, false, 1);
    lemma_chain(c, flags, c2);
}

/// The flags that no band is boosted.
pub proof fn lemma_boosts(c: Coder, i: int, lm: int, target: int)
    requires
        c.valid(),
    ensures
        leads_to(c, opus_celt::without_boosts(c, i, lm, target)),
        opus_celt::without_boosts(c, i, lm, target).valid(),
    decreases 21 - i,
{
    if i >= 21 {
        lemma_stay(c);
    } else {
        let cond = c.tell_frac() + 48 < 8 * target && crate::celt_alloc::band_cap(i, lm) > 0;
        let c1 = opus_celt::flag_if(c, cond, false, 6);
        lemma_flag(c, cond, false, 6);
        lemma_boosts(c1, i + 1, lm, target);
        lemma_chain(c, c1, opus_celt::without_boosts(c1, i + 1, lm, target));
    }
}

/// Everything in front of the allocation.
pub proof fn lemma_side_info(
    c: Coder,
    q: Seq<int>,
    start: int,
    silence: bool,
    target: int,
    lm: int,
)
    requires
        c.valid(),
        0 <= start,
        0 <= lm <= 3,
    ensures
        leads_to(c, opus_celt::with_side_info(c, q, start, silence, target, lm)),
        opus_celt::with_side_info(c, q, start, silence, target, lm).valid(),
{
    let c0 = opus_celt::with_flags(c, start, silence, target, lm);
    lemma_flags(c, start, silence, target, lm);
    let c1 = opus_celt::with_energies(c0, q, start, lm, target);
    lemma_energies(c0, q, start, lm, target);
    let c2 = opus_celt::with_tf(c1, start, lm, false, target);
    lemma_tf(c1, start, lm, false, target);
    lemma2_to64();
    let c3 = if c2.tell() + 4 <= target {
        c2.icdf(2, SPREAD_ICDF@, 5)
    } else {
        c2
    };
    lemma_stay(c2);
    if c2.tell() + 4 <= target {
        lemma_icdf(c2, 2, SPREAD_ICDF@, 5);
    }
    let c4 = opus_celt::without_boosts(c3, start, lm, target);
    lemma_boosts(c3, start, lm, target);
    let c5 = opus_celt::with_side_info(c, q, start, silence, target, lm);
    lemma_stay(c4);
    if c4.tell_frac() + 48 <= 8 * target {
        lemma_icdf(c4, 5, TRIM_ICDF@, 7);
    }
    lemma_chain(c, c0, c1);
    lemma_chain(c, c1, c2);
    lemma_chain(c, c2, c3);
    lemma_chain(c, c3, c4);
    lemma_chain(c, c4, c5);
}

/// The fine energies.
pub proof fn lemma_fine(c: Coder, fine: Seq<int>, i: int)
    requires
        c.valid(),
    ensures
        leads_to(c, opus_celt::with_fine(c, fine, i)),
        opus_celt::with_fine(c, fine, i).valid(),
    decreases 21 - i,
{
    lemma_stay(c);
    if i < 21 {
        let c1 = if fine[i] > 0 {
            c.raw_bits(0, fine[i] as nat)
        } else {
            c
        };
        if fine[i] > 0 {
            lemma_raw_zeros(c, fine[i] as nat);
        }
        lemma_fine(c1, fine, i + 1);
        lemma_chain(c, c1, opus_celt::with_fine(c1, fine, i + 1));
    }
}

/// Everything in front of the band shapes is a message, for any energies and
/// any size of the frame.
pub proof fn law_front_of_a_frame_is_a_message(
    c: Coder,
    q: Seq<int>,
    start: int,
    silence: bool,
    target: int,
    lm: int,
)
    requires
        c.valid(),
        0 <= start,
        0 <= lm <= 3,
    ensures
        leads_to(c, opus_celt::begun(c, q, start, silence, target, lm)),
        opus_celt::begun(c, q, start, silence, target, lm).valid(),
{
    let c1 = opus_celt::with_side_info(c, q, start, silence, target, lm);
    lemma_side_info(c, q, start, silence, target, lm);
    let a = opus_celt::demand(c1, start, target, lm).allocation();
    let c2 = opus_celt::flag_if(c1, a.flagged, true, 1);
    lemma_flag(c1, a.flagged, true, 1);
    lemma_fine(c2, a.fine, start);
    lemma_chain(c, c1, c2);
    lemma_chain(c, c2, opus_celt::with_fine(c2, a.fine, start));
}

/// An angle has one step or an even number of up to 256.
pub proof fn lemma_angle_steps(n: int, b: int, offset: int, pulse_cap: int)
    ensures
        1 <= celt_pulses::angle_steps(n, b, offset, pulse_cap) <= 256,
{
    let n2 = 2 * n - 1;
    let qb = crate::int_math::min_of(
        crate::int_math::min_of(
            crate::int_math::trunc_quotient(b + n2 * offset, n2),
            b - pulse_cap - 32,
        ),
        64,
    );
    if qb >= 4 {
        let e = EXP2_TABLE8[qb % 8] as int;
        let shift = (14 - qb / 8) as nat;
        lemma2_to64();
        lemma_pow2_pos(shift);
        if shift < 14 {
            lemma_pow2_strictly_increases(shift, 14);
        }
        vstd::arithmetic::div_mod::lemma_div_is_ordered_by_denominator(
            e,
            pow2(shift) as int,
            16384,
        );
    }
}

/// The splits of a band.
pub proof fn lemma_band(c: Coder, band: int, lm: int, b: int, rem: int, n: int)
    requires
        c.valid(),
        -1 <= lm,
    ensures
        leads_to(c, opus_celt::with_band(c, band, lm, b, rem, n).0),
        opus_celt::with_band(c, band, lm, b, rem, n).0.valid(),
    decreases lm + 1,
{
    lemma_stay(c);
    if n == 1 {
        lemma_raw_zeros(c, 1);
    } else if celt_pulses::splits(band, lm, n, b) {
        let steps = opus_celt::split_steps(band, lm, n / 2, b);
        if steps != 1 {
            let cap = crate::opus_celt_tables::LOG_N_400[band] + 8 * (lm - 1);
            lemma_angle_steps(n / 2, b, cap / 2 - 4, cap);
            let h = steps / 2 + 1;
            assert(1 <= h * h <= 0x80_0000) by (nonlinear_arith)
                requires
                    1 <= h <= 129,
            ;
            let c1 = c.symbol(0, 1, opus_celt::angle_total(steps) as nat);
            lemma_frequencies(c, 0, 1, opus_celt::angle_total(steps) as nat);
            let cost = c1.tell_frac() - c.tell_frac();
            lemma_band(c1, band, lm - 1, b - cost, rem - cost, n / 2);
            lemma_chain(
                c,
                c1,
                opus_celt::with_band(c1, band, lm - 1, b - cost, rem - cost, n / 2).0,
            );
        } else {
            lemma_band(c, band, lm - 1, b, rem, n / 2);
        }
    }
}

/// What a band takes off what remains is what the coder has written for it.
pub proof fn law_remaining_bits_follow_the_coder(
    c: Coder,
    band: int,
    lm: int,
    b: int,
    rem: int,
    n: int,
)
    requires
        c.valid(),
        -1 <= lm,
    ensures
        rem - opus_celt::left_after(c, band, lm, b, rem, n) == opus_celt::with_band(
            c,
            band,
            lm,
            b,
            rem,
            n,
        ).0.tell_frac() - c.tell_frac(),
    decreases lm + 1,
{
    if n == 1 {
        lemma_raw_zeros(c, 1);
    } else if celt_pulses::splits(band, lm, n, b) {
        let steps = opus_celt::split_steps(band, lm, n / 2, b);
        if steps != 1 {
            let cap = crate::opus_celt_tables::LOG_N_400[band] + 8 * (lm - 1);
            lemma_angle_steps(n / 2, b, cap / 2 - 4, cap);
            let h = steps / 2 + 1;
            assert(1 <= h * h <= 0x80_0000) by (nonlinear_arith)
                requires
                    1 <= h <= 129,
            ;
            let c1 = c.symbol(0, 1, opus_celt::angle_total(steps) as nat);
            lemma_frequencies(c, 0, 1, opus_celt::angle_total(steps) as nat);
            let cost = c1.tell_frac() - c.tell_frac();
            law_remaining_bits_follow_the_coder(c1, band, lm - 1, b - cost, rem - cost, n / 2);
        } else {
            law_remaining_bits_follow_the_coder(c, band, lm - 1, b, rem, n / 2);
        }
    }
}

/// What is written on the way to the next pulse vector is a message.
pub proof fn law_steps_between_shapes_are_messages(body: Body, c: Coder)
    requires
        c.valid(),
        0 <= body.lm,
    ensures
        leads_to(c, body.advanced(c).0),
        body.advanced(c).0.valid(),
    decreases 21 - body.band,
{
    lemma_stay(c);
    if body.band < 21 {
        let tell = c.tell_frac();
        let (c1, want) = body.band_written(c);
        lemma_band(
            c,
            body.band,
            body.lm,
            body.band_budget(body.band_balance(tell), tell),
            8 * body.target - tell - 1,
            crate::celt_alloc::width(body.band) * crate::celt_alloc::frame_scale(body.lm),
        );
        if want is None {
            let next = body.band_done(c);
            law_steps_between_shapes_are_messages(next, c1);
            lemma_chain(c, c1, next.advanced(c1).0);
        }
    }
}

/// A pulse vector is a message, whatever its pulses.
pub proof fn law_pulse_vectors_are_messages(c: Coder, y: Seq<int>)
    requires
        c.valid(),
    ensures
        leads_to(c, opus_celt::with_pulses(c, y)),
        opus_celt::with_pulses(c, y).valid(),
{
    let k = opus_pvq::pulses(y);
    let total = opus_pvq::v_count(y.len(), k);
    if k == 0 || total > u64::MAX {
        lemma_stay(c);
    } else {
        opus_pvq::law_index_is_in_range(y);
        opus_pvq::lemma_v_grows(1, y.len(), 1, k);
        assert(opus_pvq::v_count(1, 1) == 2) by {
            reveal_with_fuel(opus_pvq::u_count, 4);
        }
        lemma_item(c, Item::Uint { fl: opus_pvq::index(y), ft: total });
    }
}

/// What is spent on finer energies is a message.
pub proof fn law_end_of_a_frame_is_a_message(body: Body, c: Coder, late: int, i: int)
    requires
        c.valid(),
    ensures
        leads_to(c, body.refined(c, late, i)),
        body.refined(c, late, i).valid(),
    decreases 2 - late, 21 - i,
{
    lemma_stay(c);
    if late < 2 {
        if i >= 21 {
            law_end_of_a_frame_is_a_message(body, c, late + 1, body.start);
        } else if body.alloc.fine[i] >= crate::celt_alloc::MAX_FINE_BITS || body.alloc.late[i]
            != late {
            law_end_of_a_frame_is_a_message(body, c, late, i + 1);
        } else if body.target - c.tell() > 0 {
            let c1 = c.raw_bits(0, 1);
            lemma_raw_zeros(c, 1);
            law_end_of_a_frame_is_a_message(body, c1, late, i + 1);
            lemma_chain(c, c1, body.refined(c1, late, i + 1));
        }
    }
}

/// The bands of a plain frame are a message.
pub proof fn law_plain_frames_are_messages(
    c: Coder,
    energies: Seq<u8>,
    shapes: Seq<Seq<i32>>,
    i: int,
)
    requires
        c.valid(),
        0 <= i,
        energies.len() <= shapes.len(),
        forall|j: int| 0 <= j < energies.len() ==> #[trigger] energies[j] < 16,
    ensures
        leads_to(c, opus_celt::with_plain_bands(c, energies, shapes, i)),
        opus_celt::with_plain_bands(c, energies, shapes, i).valid(),
    decreases energies.len() - i,
{
    if i >= energies.len() {
        lemma_stay(c);
    } else {
        assert(energies[i] < 16);
        let c1 = c.uint(energies[i] as nat, 16);
        lemma_item(c, Item::Uint { fl: energies[i] as nat, ft: 16 });
        let y = crate::int_math::ints(shapes[i]);
        let c2 = opus_celt::with_pulses(c1, y);
        law_pulse_vectors_are_messages(c1, y);
        law_plain_frames_are_messages(c2, energies, shapes, i + 1);
        lemma_chain(c, c1, c2);
        lemma_chain(c, c2, opus_celt::with_plain_bands(c2, energies, shapes, i + 1));
    }
}

/// The bands of a frame with the pulse vectors that they ask for, in turn.
pub open spec fn with_shapes(body: Body, c: Coder, shapes: Seq<Seq<int>>) -> (Coder, Body)
    decreases shapes.len(),
{
    let (c1, next, want) = body.advanced(c);
    if want is None || shapes.len() == 0 {
        (c1, next)
    } else {
        with_shapes(next, opus_celt::with_pulses(c1, shapes[0]), shapes.skip(1))
    }
}

/// A whole frame: its front, its bands with the pulse vectors `shapes`, its end.
pub open spec fn framed(
    c: Coder,
    q: Seq<int>,
    start: int,
    silence: bool,
    target: int,
    lm: int,
    shapes: Seq<Seq<int>>,
) -> Coder {
    let alloc = opus_celt::begun_allocation(c, q, start, silence, target, lm);
    let body = Body { start, lm, target, alloc, band: start, balance: alloc.balance };
    let (c1, last) = with_shapes(
        body,
        opus_celt::begun(c, q, start, silence, target, lm),
        shapes,
    );
    last.refined(c1, 0, start)
}

/// The bands with their pulse vectors.
pub proof fn lemma_shapes(body: Body, c: Coder, shapes: Seq<Seq<int>>)
    requires
        c.valid(),
        0 <= body.lm,
    ensures
        leads_to(c, with_shapes(body, c, shapes).0),
        with_shapes(body, c, shapes).0.valid(),
    decreases shapes.len(),
{
    let (c1, next, want) = body.advanced(c);
    law_steps_between_shapes_are_messages(body, c);
    if want is Some && shapes.len() > 0 {
        lemma_same_terms(body, c);
        let c2 = opus_celt::with_pulses(c1, shapes[0]);
        law_pulse_vectors_are_messages(c1, shapes[0]);
        lemma_shapes(next, c2, shapes.skip(1));
        lemma_chain(c, c1, c2);
        lemma_chain(c, c2, with_shapes(next, c2, shapes.skip(1)).0);
    }
}

/// Going on to the next pulse vector leaves the frame's terms alone.
pub proof fn lemma_same_terms(body: Body, c: Coder)
    ensures
        body.advanced(c).1.lm == body.lm,
        body.advanced(c).1.target == body.target,
        body.advanced(c).1.band >= body.band,
    decreases 21 - body.band,
{
    if body.band < 21 {
        let (c1, want) = body.band_written(c);
        if want is None {
            lemma_same_terms(body.band_done(c), c1);
        }
    }
}

/// A whole frame is a message, whatever its energies, its size and its pulse
/// vectors.
pub proof fn law_frames_are_messages(
    c: Coder,
    q: Seq<int>,
    start: int,
    silence: bool,
    target: int,
    lm: int,
    shapes: Seq<Seq<int>>,
)
    requires
        c.valid(),
        0 <= start,
        0 <= lm <= 3,
    ensures
        leads_to(c, framed(c, q, start, silence, target, lm, shapes)),
        framed(c, q, start, silence, target, lm, shapes).valid(),
{
    let alloc = opus_celt::begun_allocation(c, q, start, silence, target, lm);
    let body = Body { start, lm, target, alloc, band: start, balance: alloc.balance };
    let front = opus_celt::begun(c, q, start, silence, target, lm);
    law_front_of_a_frame_is_a_message(c, q, start, silence, target, lm);
    let (c1, last) = with_shapes(body, front, shapes);
    lemma_shapes(body, front, shapes);
    law_end_of_a_frame_is_a_message(last, c1, 0, start);
    lemma_chain(c, front, c1);
    lemma_chain(c, c1, last.refined(c1, 0, start));
}

/// A decoder that starts on `data` finds, item by item, a message that takes
/// the encoder to `c`, and ends with the encoder's range.
pub open spec fn reads_back(c: Coder, data: Seq<u8>) -> bool {
    exists|message: Seq<Item>|
        {
            &&& range_laws::all_legal(Coder::start(), message)
            &&& #[trigger] range_laws::all_written(Coder::start(), message) == c
            &&& range_laws::all_found(Decoder::start(data), message, data)
            &&& range_laws::all_read(Decoder::start(data), message, data).rng == c.rng
        }
}

/// Whatever messages a packet is made of, a decoder reads them back, both from
/// the plain packet and from that of any size.
pub proof fn law_messages_are_read_back_from_their_packets(c: Coder, size: nat)
    requires
        leads_to(Coder::start(), c),
    ensures
        reads_back(c, c.packet()),
        reads_back(c, c.packet_of_size(size)),
{
    let start = Coder::start();
    let message = choose|message: Seq<Item>|
        range_laws::all_legal(start, message) && #[trigger] range_laws::all_written(start, message)
            == c;
    range_laws::lemma_message_back(start, message, Seq::empty());
    range_laws::law_packets_hold_the_message(c, size);
    range_laws::law_message_is_read_back(message, c.packet());
    range_laws::law_message_is_read_back(message, c.packet_of_size(size));
}

/// A decoder reads back every CELT-only frame: what it finds in the packet are
/// the items that the encoder wrote, and it ends with the encoder's range.
pub proof fn law_celt_packets_are_read_back(
    q: Seq<int>,
    start: int,
    silence: bool,
    target: int,
    lm: int,
    shapes: Seq<Seq<int>>,
    size: nat,
)
    requires
        0 <= start,
        0 <= lm <= 3,
    ensures
        ({
            let c = framed(Coder::start(), q, start, silence, target, lm, shapes);
            reads_back(c, c.packet()) && reads_back(c, c.packet_of_size(size))
        }),
{
    let c = framed(Coder::start(), q, start, silence, target, lm, shapes);
    law_frames_are_messages(Coder::start(), q, start, silence, target, lm, shapes);
    law_messages_are_read_back_from_their_packets(c, size);
}

/// A decoder reads back every hybrid frame: whatever message the other layer has
/// written in front, and the CELT layer behind it.
pub proof fn law_hybrid_packets_are_read_back(
    c: Coder,
    q: Seq<int>,
    start: int,
    target: int,
    lm: int,
    shapes: Seq<Seq<int>>,
)
    requires
        leads_to(Coder::start(), c),
        0 <= start,
        0 <= lm <= 3,
    ensures
        ({
            let d = framed(c, q, start, false, target, lm, shapes);
            reads_back(d, d.packet())
        }),
{
    let d = framed(c, q, start, false, target, lm, shapes);
    let front = choose|message: Seq<Item>|
        range_laws::all_legal(Coder::start(), message) && #[trigger] range_laws::all_written(
            Coder::start(),
            message,
        ) == c;
    range_laws::law_messages_only_use_up_bits(Coder::start(), front);
    law_frames_are_messages(c, q, start, false, target, lm, shapes);
    lemma_chain(Coder::start(), c, d);
    law_messages_are_read_back_from_their_packets(d, 0);
}

/// Messages never take back bits that are used.
pub proof fn lemma_more_bits(c: Coder, d: Coder)
    requires
        c.valid(),
        leads_to(c, d),
    ensures
        d.tell() >= c.tell(),
{
    let message = choose|message: Seq<Item>|
        range_laws::all_legal(c, message) && #[trigger] range_laws::all_written(c, message) == d;
    range_laws::law_messages_only_use_up_bits(c, message);
}

/// A level out of 16 takes four bits of a fresh encoder.
proof fn lemma_first_level(level: nat)
    requires
        level < 16,
    ensures
        Coder::start().uint(level, 16).tell() == 5,
{
    lemma2_to64();
    radix::lemma_bit_len_unique(15, 4);
    let c = Coder::start();
    assert(radix::pow256(0) == 1);
    radix::lemma_bit_len_unique(0x800_0000, 28);
    let r = c.rng / 16;
    assert(r == 0x800_0000);
    assert(c.symbol_width(level, level + 1, 16) == r);
    assert(c.symbol(level, level + 1, 16).rng == r);
}

/// A decoder reads back every plain frame, and the frame's packet is never
/// empty.
pub proof fn law_plain_packets_are_read_back(energies: Seq<u8>, shapes: Seq<Seq<i32>>)
    requires
        energies.len() <= shapes.len(),
        forall|j: int| 0 <= j < energies.len() ==> #[trigger] energies[j] < 16,
    ensures
        ({
            let c = opus_celt::with_plain_bands(Coder::start(), energies, shapes, 0);
            reads_back(c, c.packet()) && (energies.len() > 0 ==> c.packet().len() > 0)
        }),
{
    let start = Coder::start();
    let c = opus_celt::with_plain_bands(start, energies, shapes, 0);
    assert(radix::pow256(0) == 1);
    law_plain_frames_are_messages(start, energies, shapes, 0);
    law_messages_are_read_back_from_their_packets(c, 0);
    if energies.len() > 0 {
        assert(energies[0] < 16);
        let c1 = start.uint(energies[0] as nat, 16);
        lemma_item(start, Item::Uint { fl: energies[0] as nat, ft: 16 });
        let c2 = opus_celt::with_pulses(c1, crate::int_math::ints(shapes[0]));
        law_pulse_vectors_are_messages(c1, crate::int_math::ints(shapes[0]));
        law_plain_frames_are_messages(c2, energies, shapes, 1);
        lemma_first_level(energies[0] as nat);
        lemma_more_bits(c1, c2);
        lemma_more_bits(c2, c);
        range_laws::law_packets_have_the_bits_used(c);
    }
}

} // verus!
