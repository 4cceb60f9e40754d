//! What a decoder finds in the packets of the encoder: the flags, energies and pulse
//! vectors that the encoder was given, and the neutral choices it makes for the rest.
use crate::celt_alloc;
use crate::celt_alloc::Allocation;
use crate::celt_decoder;
use crate::celt_decoder::Band;
use crate::celt_decoder_shares;
use crate::celt_laws;
use crate::celt_pulses;
use crate::celt_shares_laws;
use crate::int_math;
use crate::opus_celt;
use crate::opus_celt::Body;
use crate::opus_celt_tables::{E_PROB_INTRA, LOG_N_400, SMALL_ENERGY_ICDF, SPREAD_ICDF, TRIM_ICDF};
use crate::opus_laplace;
use crate::opus_laplace_laws;
use crate::opus_pvq;
use crate::radix;
use crate::range_laws;
use crate::range_laws::{in_step, Decoder, Item};
use crate::range_model;
use crate::range_model::Coder;
use vstd::arithmetic::power2::*;
use vstd::prelude::*;

verus! {

/// The bytes hold what the coder has written.
pub open spec fn holds(c: Coder, data: Seq<u8>) -> bool {
    range_laws::inside(c, data) && range_laws::raw_inside(c, data)
}

/// What holds a message holds its start.
proof fn lemma_holds_start(c: Coder, e: Coder, data: Seq<u8>)
    requires
        c.valid(),
        celt_laws::leads_to(c, e),
        holds(e, data),
    ensures
        holds(c, data),
{
    let message = choose|message: Seq<Item>|
        range_laws::all_legal(c, message) && #[trigger] range_laws::all_written(c, message) == e;
    range_laws::lemma_message_back(c, message, data);
}

/// A decoder in step has used as many bits as the encoder.
proof fn lemma_same_tell(c: Coder, d: Decoder, data: Seq<u8>)
    requires
        in_step(c, d, data),
    ensures
        celt_decoder::tell(d) == c.tell(),
        celt_decoder::tell_frac(d) == c.tell_frac(),
{
}

proof fn lemma_flag_read(
    c: Coder,
    d: Decoder,
    there: bool,
    value: bool,
    logp: nat,
    data: Seq<u8>,
)
    requires
        c.valid(),
        1 <= logp <= 15,
        in_step(c, d, data),
        holds(opus_celt::flag_if(c, there, value, logp), data),
    ensures
        ({
            let (f, d1) = celt_decoder::flag(d, there, logp, data);
            &&& f == (if there {
                Some(value)
            } else {
                None
            })
            &&& in_step(opus_celt::flag_if(c, there, value, logp), d1, data)
        }),
{
    if there {
        range_model::lemma_bit_codes(c, value, logp);
        range_laws::lemma_item_step(Item::Bit { value, logp }, c, d, data);
    }
}

/// The symbol that the coded number stands for is the first that reaches up to it.
proof fn lemma_first_symbol(d: Decoder, icdf: Seq<u8>, ftb: nat, s: int, from: int)
    requires
        0 <= from <= s < icdf.len(),
        d.reads_icdf(s, icdf, ftb),
    ensures
        celt_decoder::first_symbol(d, icdf, ftb, from) == s,
    decreases s - from,
{
    if from < s {
        assert(d.val < (d.rng / pow2(ftb)) * icdf[from] as nat);
        lemma_first_symbol(d, icdf, ftb, s, from + 1);
    }
}

proof fn lemma_symbol_read(
    c: Coder,
    d: Decoder,
    s: int,
    icdf: Seq<u8>,
    ftb: nat,
    data: Seq<u8>,
)
    requires
        c.valid(),
        ftb <= 8,
        0 <= s < icdf.len(),
        icdf[0] < pow2(ftb),
        forall|i: int, j: int| 0 <= i < j < icdf.len() ==> #[trigger] icdf[j] < #[trigger] icdf[i],
        in_step(c, d, data),
        holds(c.icdf(s, icdf, ftb), data),
    ensures
        ({
            let (r, d1) = celt_decoder::symbol(d, icdf, ftb, data);
            r == s && in_step(c.icdf(s, icdf, ftb), d1, data)
        }),
{
    if s > 0 {
        assert(icdf[s] < icdf[s - 1]);
    }
    range_model::lemma_icdf_codes(c, s, icdf, ftb);
    range_laws::lemma_item_step(Item::Symbol { s, icdf, ftb }, c, d, data);
    lemma_first_symbol(d, icdf, ftb, s, 0);
}

proof fn lemma_zeros_read(c: Coder, d: Decoder, n: nat, data: Seq<u8>)
    requires
        c.valid(),
        in_step(c, d, data),
        holds(c.raw_bits(0, n), data),
    ensures
        ({
            let (v, d1) = celt_decoder::raw(d, n, data);
            v == 0 && in_step(c.raw_bits(0, n), d1, data)
        }),
{
    lemma_pow2_pos(n);
    range_laws::lemma_item_step(Item::Raw { v: 0, n }, c, d, data);
}

/// The frequency at which a number lies is one of the total.
proof fn lemma_frequency_range(d: Decoder, ft: nat)
    requires
        0 < ft <= d.rng,
    ensures
        0 <= d.frequency(ft) < ft,
{
    vstd::arithmetic::div_mod::lemma_div_non_zero(d.rng as int, ft as int);
    vstd::arithmetic::div_mod::lemma_div_pos_is_pos(d.val as int, (d.rng / ft) as int);
}

proof fn lemma_uint_read(c: Coder, d: Decoder, v: nat, ft: nat, data: Seq<u8>)
    requires
        c.valid(),
        v < ft,
        1 < ft,
        in_step(c, d, data),
        holds(c.uint(v, ft), data),
    ensures
        ({
            let (r, d1) = celt_decoder::uint(d, ft, data);
            r == v && in_step(c.uint(v, ft), d1, data)
        }),
{
    range_laws::lemma_item_step(Item::Uint { fl: v, ft }, c, d, data);
}

/// The flags that a decoder finds: no silence, no post-filter, no transient, and
/// energies of their own; wherever the flag is there at all.
pub open spec fn are_plain(f: celt_decoder::Flags) -> bool {
    &&& f.silence != Some(true)
    &&& f.post_filter != Some(true)
    &&& f.transient != Some(true)
    &&& f.intra != Some(false)
}

/// A decoder in step with the encoder reads the flags back, in the order silence,
/// post-filter, transient, intra: each only where the decoder looks for it, the
/// post-filter only if the first band is coded. Behind them it is still in step.
pub proof fn law_flags_are_read_back(
    c: Coder,
    d: Decoder,
    start: int,
    silence: bool,
    target: int,
    lm: int,
    data: Seq<u8>,
)
    requires
        c.valid(),
        in_step(c, d, data),
        holds(opus_celt::with_flags(c, start, silence, target, lm), data),
    ensures
        ({
            let (f, d1) = celt_decoder::flags(d, start, silence, target, lm, data);
            &&& are_plain(f)
            &&& in_step(opus_celt::with_flags(c, start, silence, target, lm), d1, data)
        }),
{
    let c1 = opus_celt::flag_if(c, silence, false, 15);
    celt_laws::lemma_flag(c, silence, false, 15);
    let b2 = start == 0 && c1.tell() + 16 <= target;
    let c2 = opus_celt::flag_if(c1, b2, false, 1);
    celt_laws::lemma_flag(c1, b2, false, 1);
    let b3 = lm > 0 && c2.tell() + 3 <= target;
    let c3 = opus_celt::flag_if(c2, b3, false, 3);
    celt_laws::lemma_flag(c2, b3, false, 3);
    let b4 = c3.tell() + 3 <= target;
    let c4 = opus_celt::flag_if(c3, b4, true, 3);
    celt_laws::lemma_flag(c3, b4, true, 3);
    lemma_holds_start(c3, c4, data);
    lemma_holds_start(c2, c3, data);
    lemma_holds_start(c1, c2, data);
    lemma_flag_read(c, d, silence, false, 15, data);
    let (_, d1) = celt_decoder::flag(d, silence, 15, data);
    lemma_same_tell(c1, d1, data);
    lemma_flag_read(c1, d1, b2, false, 1, data);
    let (_, d2) = celt_decoder::flag(d1, b2, 1, data);
    lemma_same_tell(c2, d2, data);
    lemma_flag_read(c2, d2, b3, false, 3, data);
    let (_, d3) = celt_decoder::flag(d2, b3, 3, data);
    lemma_same_tell(c3, d3, data);
    lemma_flag_read(c3, d3, b4, true, 3, data);
}

/// The value that is coded comes closest to the energy.
proof fn lemma_nearest(q: int, lm: int, i: int, fm: int)
    requires
        0 <= i < 21,
        0 <= lm <= 3,
        0 <= fm < 32768,
        ({
            let (fs, decay) = (celt_decoder::zero_frequency(lm, i), celt_decoder::energy_decay(lm, i));
            opus_laplace::decoded(fm, fs, decay).value == opus_laplace::slot(q, fs, decay).value
        }),
    ensures
        ({
            let (fs, decay) = (celt_decoder::zero_frequency(lm, i), celt_decoder::energy_decay(lm, i));
            forall|left: int|
                left >= 15 ==> #[trigger] celt_decoder::is_nearest_energy(
                    opus_laplace::decoded(fm, fs, decay).value,
                    q,
                    left,
                    lm,
                    i,
                )
        }),
{
    let (fs, decay) = (celt_decoder::zero_frequency(lm, i), celt_decoder::energy_decay(lm, i));
    let e = opus_laplace::decoded(fm, fs, decay).value;
    opus_laplace_laws::lemma_models_fade(lm, i);
    opus_laplace::law_nearest_value_is_coded(q, fs, decay, fm);
    assert forall|left: int| left >= 15 implies #[trigger] celt_decoder::is_nearest_energy(
        e,
        q,
        left,
        lm,
        i,
    ) by {
        assert forall|v: int| #[trigger] celt_decoder::can_be_read(v, left, lm, i) implies
            celt_decoder::distance(e, q) <= celt_decoder::distance(v, q) by {
            let other = choose|other: int|
                0 <= other < 32768 && (#[trigger] opus_laplace::decoded(other, fs, decay)).value
                    == v;
            opus_laplace::law_nearest_value_is_coded(q, fs, decay, other);
        }
    }
}

proof fn lemma_energy_read(
    c: Coder,
    d: Decoder,
    q: int,
    i: int,
    lm: int,
    target: int,
    data: Seq<u8>,
)
    requires
        c.valid(),
        0 <= i < 21,
        0 <= lm <= 3,
        in_step(c, d, data),
        holds(opus_celt::with_energy(c, q, i, lm, target), data),
    ensures
        ({
            let (e, d1) = celt_decoder::energy(d, i, lm, target, data);
            &&& celt_decoder::is_nearest_energy(e, q, target - celt_decoder::tell(d), lm, i)
            &&& in_step(opus_celt::with_energy(c, q, i, lm, target), d1, data)
        }),
{
    lemma_same_tell(c, d, data);
    let left = target - c.tell();
    if left >= 15 {
        let p = 42 * lm + 2 * i;
        let (fs, decay) = (E_PROB_INTRA[p] * 128, E_PROB_INTRA[p + 1] * 64);
        opus_laplace_laws::lemma_model_range(lm, i);
        opus_laplace::law_slots_are_not_empty(q, fs, decay);
        let s = opus_laplace::slot(q, fs, decay);
        let (fl, fh) = (s.fl as nat, (s.fl + s.width) as nat);
        range_model::lemma_small_total_codes(c, fl, fh, 32768);
        range_laws::lemma_item_step(Item::Frequencies { fl, fh, ft: 32768 }, c, d, data);
        let fm = d.frequency(32768);
        lemma_frequency_range(d, 32768);
        opus_laplace_laws::law_coarse_energies_are_read_back(lm, i, q, fm);
        lemma_nearest(q, lm, i, fm);
    } else if left >= 2 {
        lemma2_to64();
        lemma_symbol_read(c, d, opus_celt::small_symbol(q), SMALL_ENERGY_ICDF@, 2, data);
    } else if left >= 1 {
        lemma_flag_read(c, d, true, q < 0, 1, data);
    }
}

/// A decoder in step with the encoder reads the coarse energies back, band by band: the
/// energy that was given, or the nearest one that can be coded with the bits left.
pub proof fn law_energies_are_read_back(
    c: Coder,
    d: Decoder,
    q: Seq<int>,
    i: int,
    lm: int,
    target: int,
    data: Seq<u8>,
)
    requires
        c.valid(),
        0 <= i,
        0 <= lm <= 3,
        in_step(c, d, data),
        holds(opus_celt::with_energies(c, q, i, lm, target), data),
    ensures
        celt_decoder::energies_are_those_of(q, d, i, lm, target, data),
        in_step(
            opus_celt::with_energies(c, q, i, lm, target),
            celt_decoder::energies(d, i, lm, target, data).1,
            data,
        ),
    decreases 21 - i,
{
    if i < 21 {
        let c1 = opus_celt::with_energy(c, q[i], i, lm, target);
        celt_laws::lemma_energy(c, q[i], i, lm, target);
        celt_laws::lemma_energies(c1, q, i + 1, lm, target);
        lemma_holds_start(c1, opus_celt::with_energies(c, q, i, lm, target), data);
        lemma_energy_read(c, d, q[i], i, lm, target, data);
        let (_, d1) = celt_decoder::energy(d, i, lm, target, data);
        law_energies_are_read_back(c1, d1, q, i + 1, lm, target, data);
    }
}

proof fn lemma_tf_flags_read(
    c: Coder,
    d: Decoder,
    n: int,
    logp: int,
    next: int,
    budget: int,
    data: Seq<u8>,
)
    requires
        c.valid(),
        1 <= logp <= 15,
        1 <= next <= 15,
        in_step(c, d, data),
        holds(opus_celt::with_tf_flags(c, n, logp, next, budget), data),
    ensures
        ({
            let (changes, d1) = celt_decoder::tf_changes(d, n, logp, next, false, budget, data);
            &&& !changes.contains(true)
            &&& in_step(opus_celt::with_tf_flags(c, n, logp, next, budget), d1, data)
        }),
    decreases n,
{
    if n > 0 {
        lemma_same_tell(c, d, data);
        let there = c.tell() + logp <= budget;
        let c1 = opus_celt::flag_if(c, there, false, logp as nat);
        celt_laws::lemma_flag(c, there, false, logp as nat);
        celt_laws::lemma_tf_flags(c1, n - 1, next, next, budget);
        lemma_holds_start(c1, opus_celt::with_tf_flags(c, n, logp, next, budget), data);
        lemma_flag_read(c, d, there, false, logp as nat, data);
        let (_, d1) = celt_decoder::flag(d, there, logp as nat, data);
        lemma_tf_flags_read(c1, d1, n - 1, next, next, budget, data);
        let (rest, _) = celt_decoder::tf_changes(d1, n - 1, next, next, false, budget, data);
        let all = seq![false] + rest;
        assert(!all.contains(true)) by {
            if all.contains(true) {
                let j = choose|j: int| 0 <= j < all.len() && all[j] == true;
                assert(rest[j - 1] == true);
                assert(rest.contains(true));
            }
        }
    }
}

/// A decoder in step with the encoder finds that the resolution of all bands stays as it
/// is.
pub proof fn law_unchanged_resolution_is_read_back(
    c: Coder,
    d: Decoder,
    start: int,
    lm: int,
    transient: bool,
    target: int,
    data: Seq<u8>,
)
    requires
        c.valid(),
        in_step(c, d, data),
        holds(opus_celt::with_tf(c, start, lm, transient, target), data),
    ensures
        ({
            let (changes, select, d1) = celt_decoder::tf(d, start, lm, transient, target, data);
            &&& !changes.contains(true)
            &&& select != Some(true)
            &&& in_step(opus_celt::with_tf(c, start, lm, transient, target), d1, data)
        }),
{
    lemma_same_tell(c, d, data);
    let (logp, next, row) = if transient {
        (2int, 4int, 8 * lm + 4)
    } else {
        (4int, 5int, 8 * lm)
    };
    let reserved = lm > 0 && c.tell() + logp < target;
    let budget = target - (if reserved {
        1int
    } else {
        0
    });
    let flags = opus_celt::with_tf_flags(c, 21 - start, logp, next, budget);
    celt_laws::lemma_tf_flags(c, 21 - start, logp, next, budget);
    let there = reserved && crate::opus_celt_tables::TF_SELECT_TABLE[row]
        != crate::opus_celt_tables::TF_SELECT_TABLE[row + 2];
    celt_laws::lemma_flag(flags, there, false, 1);
    lemma_holds_start(flags, opus_celt::with_tf(c, start, lm, transient, target), data);
    lemma_tf_flags_read(c, d, 21 - start, logp, next, budget, data);
    let (_, d1) = celt_decoder::tf_changes(d, 21 - start, logp, next, false, budget, data);
    lemma_flag_read(flags, d1, there, false, 1, data);
}

/// No band is boosted.
proof fn lemma_boosts_read(c: Coder, d: Decoder, i: int, lm: int, target: int, data: Seq<u8>)
    requires
        c.valid(),
        0 <= i <= 21,
        0 <= lm <= 3,
        in_step(c, d, data),
        holds(opus_celt::without_boosts(c, i, lm, target), data),
    ensures
        ({
            let (b, left, d1) = celt_decoder::boosts(d, i, lm, 6, 8 * target, data);
            &&& b.len() == 21 - i
            &&& forall|j: int| 0 <= j < b.len() ==> #[trigger] b[j] == 0
            &&& left == 8 * target
            &&& in_step(opus_celt::without_boosts(c, i, lm, target), d1, data)
        }),
    decreases 21 - i,
{
    if i < 21 {
        lemma_same_tell(c, d, data);
        let cap = celt_alloc::band_cap(i, lm);
        celt_shares_laws::lemma_same_numbers(i, 5, lm);
        let there = c.tell_frac() + 48 < 8 * target && cap > 0;
        let c1 = opus_celt::flag_if(c, there, false, 6);
        celt_laws::lemma_flag(c, there, false, 6);
        celt_laws::lemma_boosts(c1, i + 1, lm, target);
        lemma_holds_start(c1, opus_celt::without_boosts(c, i, lm, target), data);
        lemma_flag_read(c, d, there, false, 6, data);
        let (_, d1) = celt_decoder::flag(d, there, 6, data);
        let width = celt_alloc::width(i) * celt_alloc::frame_scale(lm);
        assert(width > 0) by (nonlinear_arith)
            requires
                width == celt_alloc::width(i) * celt_alloc::frame_scale(lm),
                celt_alloc::width(i) > 0,
                celt_alloc::frame_scale(lm) > 0,
        ;
        let quanta = int_math::min_of(8 * width, int_math::max_of(48, width));
        assert(celt_decoder::boost(d, 6, 0, cap, quanta, 8 * target, data) == (
            0int,
            8 * target,
            d1,
        ));
        lemma_boosts_read(c1, d1, i + 1, lm, target, data);
    }
}

proof fn lemma_fine_read(c: Coder, d: Decoder, fine: Seq<int>, i: int, data: Seq<u8>)
    requires
        c.valid(),
        0 <= i <= 21,
        in_step(c, d, data),
        holds(opus_celt::with_fine(c, fine, i), data),
    ensures
        ({
            let (e, d1) = celt_decoder::fine_energies(d, fine, i, data);
            &&& e.len() == 21 - i
            &&& forall|j: int| 0 <= j < e.len() ==> #[trigger] e[j] == 0
            &&& in_step(opus_celt::with_fine(c, fine, i), d1, data)
        }),
    decreases 21 - i,
{
    if i < 21 {
        let c1 = if fine[i] > 0 {
            c.raw_bits(0, fine[i] as nat)
        } else {
            c
        };
        if fine[i] > 0 {
            celt_laws::lemma_raw_zeros(c, fine[i] as nat);
        }
        celt_laws::lemma_fine(c1, fine, i + 1);
        lemma_holds_start(c1, opus_celt::with_fine(c, fine, i), data);
        let d1 = if fine[i] > 0 {
            d.accept_raw(fine[i] as nat)
        } else {
            d
        };
        if fine[i] > 0 {
            lemma_zeros_read(c, d, fine[i] as nat, data);
        }
        lemma_fine_read(c1, d1, fine, i + 1, data);
    }
}

/// What a decoder finds in front of the shapes besides the energies: no silence,
/// post-filter or transient, energies of their own, an unchanged resolution, normal
/// spreading, no boosts, a neutral trim, and fine energies of zero.
pub open spec fn is_neutral(f: celt_decoder::Front) -> bool {
    &&& are_plain(f.side.flags)
    &&& !f.side.tf.contains(true)
    &&& f.side.tf_select != Some(true)
    &&& f.side.spread is None || f.side.spread == Some(2int)
    &&& forall|j: int| 0 <= j < f.side.boosts.len() ==> #[trigger] f.side.boosts[j] == 0
    &&& f.side.trim == 5
    &&& forall|j: int| 0 <= j < f.fine.len() ==> #[trigger] f.fine[j] == 0
}

/// The spreading is normal.
proof fn lemma_spread_read(c: Coder, d: Decoder, target: int, data: Seq<u8>)
    requires
        c.valid(),
        in_step(c, d, data),
        holds(spread_written(c, target), data),
    ensures
        ({
            let (s, d1) = celt_decoder::spread(d, target, data);
            &&& s is None || s == Some(2int)
            &&& in_step(spread_written(c, target), d1, data)
        }),
{
    lemma2_to64();
    lemma_same_tell(c, d, data);
    if c.tell() + 4 <= target {
        lemma_symbol_read(c, d, 2, SPREAD_ICDF@, 5, data);
    }
}

/// With the spreading decision.
spec fn spread_written(c: Coder, target: int) -> Coder {
    if c.tell() + 4 <= target {
        c.icdf(2, SPREAD_ICDF@, 5)
    } else {
        c
    }
}

/// With the trim.
spec fn trim_written(c: Coder, target: int) -> Coder {
    if c.tell_frac() + 48 <= 8 * target {
        c.icdf(5, TRIM_ICDF@, 7)
    } else {
        c
    }
}

/// The trim is neutral.
proof fn lemma_trim_read(c: Coder, d: Decoder, target: int, data: Seq<u8>)
    requires
        c.valid(),
        in_step(c, d, data),
        holds(trim_written(c, target), data),
    ensures
        ({
            let (t, d1) = celt_decoder::trim(d, 8 * target, data);
            &&& t == 5
            &&& in_step(trim_written(c, target), d1, data)
        }),
{
    lemma2_to64();
    lemma_same_tell(c, d, data);
    if c.tell_frac() + 48 <= 8 * target {
        lemma_symbol_read(c, d, 5, TRIM_ICDF@, 7, data);
    }
}

/// Both are messages.
proof fn lemma_choices_written(c: Coder, target: int)
    requires
        c.valid(),
    ensures
        celt_laws::leads_to(c, spread_written(c, target)),
        spread_written(c, target).valid(),
        celt_laws::leads_to(c, trim_written(c, target)),
        trim_written(c, target).valid(),
{
    lemma2_to64();
    celt_laws::lemma_stay(c);
    if c.tell() + 4 <= target {
        celt_laws::lemma_icdf(c, 2, SPREAD_ICDF@, 5);
    }
    if c.tell_frac() + 48 <= 8 * target {
        celt_laws::lemma_icdf(c, 5, TRIM_ICDF@, 7);
    }
}

proof fn lemma_side_info_read(
    c: Coder,
    d: Decoder,
    q: Seq<int>,
    start: int,
    silence: bool,
    target: int,
    lm: int,
    data: Seq<u8>,
)
    requires
        c.valid(),
        0 <= start <= 21,
        0 <= lm <= 3,
        in_step(c, d, data),
        holds(opus_celt::with_side_info(c, q, start, silence, target, lm), data),
    ensures
        ({
            let (f, d1) = celt_decoder::side_info(d, start, silence, target, lm, data);
            &&& are_plain(f.flags)
            &&& celt_decoder::energies_are_those_of(
                q,
                celt_decoder::flags(d, start, silence, target, lm, data).1,
                start,
                lm,
                target,
                data,
            )
            &&& !f.tf.contains(true)
            &&& f.tf_select != Some(true)
            &&& f.spread is None || f.spread == Some(2int)
            &&& f.boosts.len() == 21 - start
            &&& forall|j: int| 0 <= j < f.boosts.len() ==> #[trigger] f.boosts[j] == 0
            &&& f.trim == 5
            &&& in_step(opus_celt::with_side_info(c, q, start, silence, target, lm), d1, data)
        }),
{
    let c6 = opus_celt::with_side_info(c, q, start, silence, target, lm);
    let c1 = opus_celt::with_flags(c, start, silence, target, lm);
    celt_laws::lemma_flags(c, start, silence, target, lm);
    let c2 = opus_celt::with_energies(c1, q, start, lm, target);
    celt_laws::lemma_energies(c1, q, start, lm, target);
    let c3 = opus_celt::with_tf(c2, start, lm, false, target);
    celt_laws::lemma_tf(c2, start, lm, false, target);
    let c4 = spread_written(c3, target);
    lemma_choices_written(c3, target);
    let c5 = opus_celt::without_boosts(c4, start, lm, target);
    celt_laws::lemma_boosts(c4, start, lm, target);
    lemma_choices_written(c5, target);
    assert(c6 == trim_written(c5, target));
    lemma_holds_start(c5, c6, data);
    lemma_holds_start(c4, c5, data);
    lemma_holds_start(c3, c4, data);
    lemma_holds_start(c2, c3, data);
    lemma_holds_start(c1, c2, data);
    law_flags_are_read_back(c, d, start, silence, target, lm, data);
    let (f, d1) = celt_decoder::flags(d, start, silence, target, lm, data);
    law_energies_are_read_back(c1, d1, q, start, lm, target, data);
    let (_, d2) = celt_decoder::energies(d1, start, lm, target, data);
    law_unchanged_resolution_is_read_back(c2, d2, start, lm, false, target, data);
    let (_, _, d3) = celt_decoder::tf(d2, start, lm, false, target, data);
    lemma_spread_read(c3, d3, target, data);
    let (_, d4) = celt_decoder::spread(d3, target, data);
    lemma_boosts_read(c4, d4, start, lm, target, data);
    let (_, _, d5) = celt_decoder::boosts(d4, start, lm, 6, 8 * target, data);
    lemma_trim_read(c5, d5, target, data);
}

proof fn lemma_front_read(
    c: Coder,
    d: Decoder,
    q: Seq<int>,
    start: int,
    silence: bool,
    target: int,
    lm: int,
    data: Seq<u8>,
)
    requires
        c.valid(),
        0 <= start < 21,
        0 <= lm <= 3,
        in_step(c, d, data),
        holds(opus_celt::begun(c, q, start, silence, target, lm), data),
    ensures
        ({
            let (f, d1) = celt_decoder::front(d, start, silence, target, lm, data);
            &&& is_neutral(f)
            &&& celt_decoder::energies_are_those_of(
                q,
                celt_decoder::flags(d, start, silence, target, lm, data).1,
                start,
                lm,
                target,
                data,
            )
            &&& f.alloc == opus_celt::begun_allocation(c, q, start, silence, target, lm)
            &&& in_step(opus_celt::begun(c, q, start, silence, target, lm), d1, data)
        }),
{
    let c6 = opus_celt::with_side_info(c, q, start, silence, target, lm);
    celt_laws::lemma_side_info(c, q, start, silence, target, lm);
    let demand = opus_celt::demand(c6, start, target, lm);
    let alloc = demand.allocation();
    let c7 = opus_celt::flag_if(c6, alloc.flagged, true, 1);
    celt_laws::lemma_flag(c6, alloc.flagged, true, 1);
    celt_laws::lemma_fine(c7, alloc.fine, start);
    let c8 = opus_celt::begun(c, q, start, silence, target, lm);
    lemma_holds_start(c7, c8, data);
    lemma_holds_start(c6, c7, data);
    lemma_side_info_read(c, d, q, start, silence, target, lm, data);
    let (f, d6) = celt_decoder::side_info(d, start, silence, target, lm, data);
    lemma_same_tell(c6, d6, data);
    let terms = celt_decoder::terms(f.boosts, f.trim, start, target, lm, c6.tell_frac());
    let same = celt_shares_laws::terms_of(demand);
    assert(terms.boosts =~= same.boosts);
    assert(terms.cap =~= same.cap) by {
        assert forall|i: int| 0 <= i < 21 implies #[trigger] terms.cap[i] == same.cap[i] by {
            celt_shares_laws::lemma_same_numbers(i, 5, lm);
        }
    }
    assert(terms == same);
    celt_shares_laws::law_decoders_share_alike(demand, c6, d6, data);
    let (_, d7) = celt_decoder_shares::shares(d6, terms, data);
    lemma_fine_read(c7, d7, alloc.fine, start, data);
}

/// What is found in a band besides its pulse vector: a positive sign, and angles that
/// leave all in the lower half.
pub open spec fn is_plain_band(band: Band) -> bool {
    &&& band.sign is None || band.sign == Some(0nat)
    &&& forall|j: int| 0 <= j < band.angles.len() ==> #[trigger] band.angles[j] == 0
}

proof fn lemma_paid_for(band: int, lm: int, q: int, rem: int)
    ensures
        celt_decoder::paid_for(band, lm, q, rem) == opus_celt::affordable(band, lm, q, rem),
    decreases q,
{
    if q > 0 {
        lemma_paid_for(band, lm, q - 1, rem);
    }
}

/// Stretches are split on both sides.
proof fn lemma_same_splits(band: int, lm: int, n: int, b: int)
    requires
        0 <= band < 21,
        -1 <= lm <= 3,
    ensures
        celt_decoder::is_split(band, lm, n, b) == celt_pulses::splits(band, lm, n, b),
{
    if lm >= 0 {
        celt_pulses::lemma_costs(band, lm, 0, 0);
        reveal(celt_pulses::cost_row);
        reveal(celt_pulses::max_pseudo);
        reveal(celt_pulses::tabled);
    }
}

/// Angles have the same steps on both sides.
proof fn lemma_same_steps(band: int, lm: int, n: int, b: int)
    ensures
        celt_decoder::steps_of_angle(band, lm, n, b) == opus_celt::split_steps(band, lm, n, b),
{
}

/// A decoder in step with the encoder reads a pulse vector back, entry by entry.
pub proof fn law_pulse_vectors_are_read_back(c: Coder, d: Decoder, y: Seq<int>, data: Seq<u8>)
    requires
        c.valid(),
        y.len() > 0,
        opus_pvq::pulses(y) > 0,
        opus_pvq::v_count(y.len(), opus_pvq::pulses(y)) <= u64::MAX,
        in_step(c, d, data),
        holds(opus_celt::with_pulses(c, y), data),
    ensures
        ({
            let k = opus_pvq::pulses(y);
            let (i, d1) = celt_decoder::uint(d, opus_pvq::v_count(y.len(), k), data);
            &&& opus_pvq::vector(y.len(), k, i as int) == y
            &&& in_step(opus_celt::with_pulses(c, y), d1, data)
        }),
{
    let k = opus_pvq::pulses(y);
    opus_pvq::law_index_is_in_range(y);
    opus_pvq::lemma_v_grows(1, y.len(), 1, k);
    assert(opus_pvq::v_count(1, 1) == 2) by {
        reveal_with_fuel(opus_pvq::u_count, 4);
    }
    opus_pvq::law_vector_is_read_back(y);
    lemma_uint_read(c, d, opus_pvq::index(y), opus_pvq::v_count(y.len(), k), data);
}

/// The vector is the one that the band asks for, if it asks for one.
pub open spec fn answers(want: Option<(int, int)>, y: Seq<int>) -> bool {
    want matches Some((n, k)) ==> y.len() == n && opus_pvq::pulses(y) == k && opus_pvq::v_count(
        y.len(),
        opus_pvq::pulses(y),
    ) <= u64::MAX
}

/// The coder behind a band that asks for a vector or not.
pub open spec fn answered(c: Coder, want: Option<(int, int)>, y: Seq<int>) -> Coder {
    if want is Some {
        opus_celt::with_pulses(c, y)
    } else {
        c
    }
}

/// A decoder in step with the encoder reads a band back: a sign of zero, angles of zero,
/// and the pulse vector that the band asked for.
pub proof fn law_bands_are_read_back(
    c: Coder,
    d: Decoder,
    band: int,
    lm: int,
    b: int,
    rem: int,
    n: int,
    y: Seq<int>,
    data: Seq<u8>,
)
    requires
        c.valid(),
        0 <= band < 21,
        -1 <= lm <= 3,
        n >= 1,
        in_step(c, d, data),
        answers(opus_celt::with_band(c, band, lm, b, rem, n).1, y),
        ({
            let (c1, want) = opus_celt::with_band(c, band, lm, b, rem, n);
            holds(answered(c1, want, y), data)
        }),
    ensures
        ({
            let (c1, want) = opus_celt::with_band(c, band, lm, b, rem, n);
            let (r, d1) = celt_decoder::stretch(d, band, lm, b, rem, n, data);
            &&& is_plain_band(r)
            &&& r.shape == (if want is Some {
                Some(y)
            } else {
                None
            })
            &&& in_step(answered(c1, want, y), d1, data)
        }),
    decreases lm + 1,
{
    lemma_same_splits(band, lm, n, b);
    let (c9, want) = opus_celt::with_band(c, band, lm, b, rem, n);
    celt_laws::lemma_band(c, band, lm, b, rem, n);
    if want is Some {
        celt_laws::law_pulse_vectors_are_messages(c9, y);
        lemma_holds_start(c9, answered(c9, want, y), data);
    }
    if n == 1 {
        if rem >= 8 {
            lemma_zeros_read(c, d, 1, data);
        }
    } else if celt_pulses::splits(band, lm, n, b) {
        let cap = LOG_N_400[band] + 8 * (lm - 1);
        let steps = celt_pulses::angle_steps(n / 2, b, cap / 2 - 4, cap);
        lemma_same_steps(band, lm, n / 2, b);
        if steps == 1 {
            law_bands_are_read_back(c, d, band, lm - 1, b, rem, n / 2, y, data);
        } else {
            celt_laws::lemma_angle_steps(n / 2, b, cap / 2 - 4, cap);
            let h = steps / 2 + 1;
            assert(1 <= h * h <= 0x80_0000) by (nonlinear_arith)
                requires
                    1 <= h <= 129,
            ;
            let ft = (h * h) as nat;
            let c1 = c.symbol(0, 1, ft);
            celt_laws::lemma_frequencies(c, 0, 1, ft);
            let cost = c1.tell_frac() - c.tell_frac();
            celt_laws::lemma_band(c1, band, lm - 1, b - cost, rem - cost, n / 2);
            lemma_holds_start(c1, c9, data);
            range_model::lemma_small_total_codes(c, 0, 1, ft);
            range_laws::lemma_item_step(Item::Frequencies { fl: 0, fh: 1, ft }, c, d, data);
            let d1 = d.accept(0, 1, ft, data);
            lemma_same_tell(c, d, data);
            lemma_same_tell(c1, d1, data);
            law_bands_are_read_back(c1, d1, band, lm - 1, b - cost, rem - cost, n / 2, y, data);
        }
    } else {
        let q = celt_pulses::nearest_pulses(band, lm, int_math::max_of(b, 0));
        lemma_paid_for(band, lm, q, rem);
        if want is Some {
            law_pulse_vectors_are_read_back(c, d, y, data);
        }
    }
}

/// A band that has less than nothing is written like one that has nothing.
proof fn lemma_negative_share(c: Coder, band: int, lm: int, b: int, rem: int, n: int)
    requires
        0 <= band < 21,
        -1 <= lm,
        b < 0,
    ensures
        opus_celt::with_band(c, band, lm, b, rem, n) == opus_celt::with_band(
            c,
            band,
            lm,
            0,
            rem,
            n,
        ),
{
    if celt_pulses::splits(band, lm, n, b) {
        celt_pulses::lemma_split_share(band, lm, n, b);
    }
    if celt_pulses::splits(band, lm, n, 0) {
        celt_pulses::lemma_split_share(band, lm, n, 0);
    }
}

/// The vectors are those that the bands ask for: each has as many entries and pulses.
pub open spec fn all_answered(body: Body, c: Coder, shapes: Seq<Seq<int>>) -> bool
    decreases shapes.len(),
{
    let (c1, next, want) = body.advanced(c);
    match want {
        None => shapes.len() == 0,
        Some((_, n, k)) => {
            &&& shapes.len() > 0
            &&& answers(Some((n, k)), shapes[0])
            &&& all_answered(next, opus_celt::with_pulses(c1, shapes[0]), shapes.skip(1))
        },
    }
}

/// One band of a frame: what is written for it, and what comes behind it.
proof fn lemma_one_band(body: Body, c: Coder, shapes: Seq<Seq<int>>)
    requires
        0 <= body.band < 21,
        0 <= body.lm <= 3,
        all_answered(body, c, shapes),
    ensures
        ({
            let used = c.tell_frac();
            let now = celt_decoder::balance_at(body.band, body.balance, body.start, used);
            let (c1, want) = opus_celt::with_band(
                c,
                body.band,
                body.lm,
                celt_decoder::band_share(body.band, now, body.alloc, body.target, used),
                8 * body.target - used - 1,
                celt_alloc::width(body.band) * celt_alloc::frame_scale(body.lm),
            );
            let next = Body {
                band: body.band + 1,
                balance: now + body.alloc.bits[body.band] + used,
                ..body
            };
            if want is Some {
                let c2 = opus_celt::with_pulses(c1, shapes[0]);
                &&& shapes.len() > 0
                &&& answers(want, shapes[0])
                &&& all_answered(next, c2, shapes.skip(1))
                &&& celt_laws::with_shapes(body, c, shapes) == celt_laws::with_shapes(
                    next,
                    c2,
                    shapes.skip(1),
                )
            } else {
                &&& all_answered(next, c1, shapes)
                &&& celt_laws::with_shapes(body, c, shapes) == celt_laws::with_shapes(
                    next,
                    c1,
                    shapes,
                )
            }
        }),
{
    let used = c.tell_frac();
    let budget = body.band_budget(body.band_balance(used), used);
    let rem = 8 * body.target - used - 1;
    let n = celt_alloc::width(body.band) * celt_alloc::frame_scale(body.lm);
    if budget < 0 {
        lemma_negative_share(c, body.band, body.lm, budget, rem, n);
    }
    let (c1, want) = body.band_written(c);
    let next = body.band_done(c);
    if want is None {
        assert(body.advanced(c) == next.advanced(c1));
    }
}

proof fn lemma_bands_read(
    body: Body,
    c: Coder,
    d: Decoder,
    shapes: Seq<Seq<int>>,
    data: Seq<u8>,
)
    requires
        c.valid(),
        0 <= body.band,
        0 <= body.lm <= 3,
        in_step(c, d, data),
        all_answered(body, c, shapes),
        holds(celt_laws::with_shapes(body, c, shapes).0, data),
    ensures
        ({
            let (r, d1) = celt_decoder::bands(
                d,
                body.band,
                body.balance,
                body.alloc,
                body.start,
                body.target,
                body.lm,
                data,
            );
            &&& celt_decoder::shapes_of(r) == shapes
            &&& forall|j: int| 0 <= j < r.len() ==> is_plain_band(#[trigger] r[j])
            &&& in_step(celt_laws::with_shapes(body, c, shapes).0, d1, data)
        }),
    decreases 21 - body.band,
{
    if body.band >= 21 {
        assert(shapes =~= Seq::empty());
    } else {
        let i = body.band;
        let used = c.tell_frac();
        lemma_same_tell(c, d, data);
        let now = celt_decoder::balance_at(i, body.balance, body.start, used);
        let b = celt_decoder::band_share(i, now, body.alloc, body.target, used);
        let rem = 8 * body.target - used - 1;
        let n = celt_alloc::width(i) * celt_alloc::frame_scale(body.lm);
        celt_shares_laws::lemma_same_numbers(i, 5, body.lm);
        assert(n >= 1) by (nonlinear_arith)
            requires
                n == celt_alloc::width(i) * celt_alloc::frame_scale(body.lm),
                celt_alloc::width(i) >= 1,
                celt_alloc::frame_scale(body.lm) >= 1,
        ;
        let (c1, want) = opus_celt::with_band(c, i, body.lm, b, rem, n);
        let next = Body { band: i + 1, balance: now + body.alloc.bits[i] + used, ..body };
        lemma_one_band(body, c, shapes);
        celt_laws::lemma_band(c, i, body.lm, b, rem, n);
        let (y, later) = if want is Some {
            (shapes[0], shapes.skip(1))
        } else {
            (Seq::empty(), shapes)
        };
        let c2 = answered(c1, want, y);
        celt_laws::law_pulse_vectors_are_messages(c1, y);
        celt_laws::lemma_shapes(next, c2, later);
        lemma_holds_start(c2, celt_laws::with_shapes(next, c2, later).0, data);
        law_bands_are_read_back(c, d, i, body.lm, b, rem, n, y, data);
        let (band, d1) = celt_decoder::stretch(d, i, body.lm, b, rem, n, data);
        lemma_bands_read(next, c2, d1, later, data);
        let (rest, _) = celt_decoder::bands(
            d1,
            next.band,
            next.balance,
            body.alloc,
            body.start,
            body.target,
            body.lm,
            data,
        );
        lemma_one_more_band(band, rest, shapes, want is Some);
    }
}

/// A band in front of others.
proof fn lemma_one_more_band(band: Band, rest: Seq<Band>, shapes: Seq<Seq<int>>, shaped: bool)
    requires
        is_plain_band(band),
        forall|j: int| 0 <= j < rest.len() ==> is_plain_band(#[trigger] rest[j]),
        shaped ==> shapes.len() > 0 && band.shape == Some(shapes[0]) && celt_decoder::shapes_of(
            rest,
        ) == shapes.skip(1),
        !shaped ==> band.shape is None && celt_decoder::shapes_of(rest) == shapes,
    ensures
        celt_decoder::shapes_of(seq![band] + rest) == shapes,
        forall|j: int|
            0 <= j < (seq![band] + rest).len() ==> is_plain_band(#[trigger] (seq![band] + rest)[j]),
{
    let all = seq![band] + rest;
    assert(all.skip(1) =~= rest);
    if shaped {
        assert(seq![shapes[0]] + shapes.skip(1) =~= shapes);
    }
    assert forall|j: int| 0 <= j < all.len() implies is_plain_band(#[trigger] all[j]) by {
        if j > 0 {
            assert(all[j] == rest[j - 1]);
        }
    }
}

/// Bands leave the terms of the frame alone.
proof fn lemma_same_frame(body: Body, c: Coder, shapes: Seq<Seq<int>>)
    ensures
        ({
            let last = celt_laws::with_shapes(body, c, shapes).1;
            last.alloc == body.alloc && last.start == body.start && last.target == body.target
        }),
    decreases shapes.len(),
{
    let (c1, next, want) = body.advanced(c);
    lemma_same_alloc(body, c);
    if want is Some && shapes.len() > 0 {
        lemma_same_frame(next, opus_celt::with_pulses(c1, shapes[0]), shapes.skip(1));
    }
}

proof fn lemma_same_alloc(body: Body, c: Coder)
    ensures
        body.advanced(c).1.alloc == body.alloc,
        body.advanced(c).1.start == body.start,
        body.advanced(c).1.target == body.target,
    decreases 21 - body.band,
{
    if body.band < 21 {
        let (c1, want) = body.band_written(c);
        if want is None {
            lemma_same_alloc(body.band_done(c), c1);
        }
    }
}

/// With no bits left there is nothing more to read.
proof fn lemma_no_refinements(
    d: Decoder,
    alloc: Allocation,
    start: int,
    left: int,
    late: int,
    i: int,
    data: Seq<u8>,
)
    requires
        left < 1,
    ensures
        celt_decoder::refinements(d, alloc, start, left, late, i, data) == (Seq::<nat>::empty(), d),
    decreases 2 - late,
{
    if late < 2 {
        lemma_no_refinements(d, alloc, start, left, late + 1, start, data);
    }
}

proof fn lemma_refinements_read(
    body: Body,
    c: Coder,
    d: Decoder,
    late: int,
    i: int,
    data: Seq<u8>,
)
    requires
        c.valid(),
        in_step(c, d, data),
        holds(body.refined(c, late, i), data),
    ensures
        ({
            let (r, d1) = celt_decoder::refinements(
                d,
                body.alloc,
                body.start,
                body.target - c.tell(),
                late,
                i,
                data,
            );
            &&& forall|j: int| 0 <= j < r.len() ==> #[trigger] r[j] == 0
            &&& in_step(body.refined(c, late, i), d1, data)
        }),
    decreases 2 - late, 21 - i,
{
    let left = body.target - c.tell();
    if late < 2 {
        if left < 1 {
            lemma_no_refinements(d, body.alloc, body.start, left, late, i, data);
            lemma_refined_stops(body, c, late, i);
        } else if i >= 21 {
            lemma_refinements_read(body, c, d, late + 1, body.start, data);
        } else if body.alloc.fine[i] >= celt_alloc::MAX_FINE_BITS || body.alloc.late[i] != late {
            lemma_refinements_read(body, c, d, late, i + 1, data);
        } else {
            let c1 = c.raw_bits(0, 1);
            celt_laws::lemma_raw_zeros(c, 1);
            celt_laws::law_end_of_a_frame_is_a_message(body, c1, late, i + 1);
            lemma_holds_start(c1, body.refined(c1, late, i + 1), data);
            lemma_zeros_read(c, d, 1, data);
            let d1 = d.accept_raw(1);
            lemma_same_tell(c, d, data);
            lemma_same_tell(c1, d1, data);
            lemma_refinements_read(body, c1, d1, late, i + 1, data);
        }
    }
}

/// With no bits left nothing more is written.
proof fn lemma_refined_stops(body: Body, c: Coder, late: int, i: int)
    requires
        body.target - c.tell() <= 0,
    ensures
        body.refined(c, late, i) == c,
    decreases 2 - late, 21 - i,
{
    if late < 2 {
        if i >= 21 {
            lemma_refined_stops(body, c, late + 1, body.start);
        } else if body.alloc.fine[i] >= celt_alloc::MAX_FINE_BITS || body.alloc.late[i] != late {
            lemma_refined_stops(body, c, late, i + 1);
        }
    }
}

/// What a decoder that starts in state `d` makes of a frame: the energies `q`, each as
/// close as can be, the pulse vectors `shapes`, one for each band that has one and in
/// order, neutral choices for everything else, and the final range of the encoder.
pub open spec fn decodes_to(
    d: Decoder,
    q: Seq<int>,
    start: int,
    silence: bool,
    total: int,
    lm: int,
    shapes: Seq<Seq<int>>,
    final_range: nat,
    data: Seq<u8>,
) -> bool {
    let f = celt_decoder::frame(d, start, silence, total, lm, data);
    let behind_flags = celt_decoder::flags(d, start, silence, total, lm, data).1;
    &&& is_neutral(f.front)
    &&& celt_decoder::energies_are_those_of(q, behind_flags, start, lm, total, data)
    &&& celt_decoder::shapes_of(f.bands) == shapes
    &&& forall|j: int| 0 <= j < f.bands.len() ==> is_plain_band(#[trigger] f.bands[j])
    &&& forall|j: int| 0 <= j < f.refinements.len() ==> #[trigger] f.refinements[j] == 0
    &&& f.final_range == final_range
}

/// The vectors `shapes` are those that the bands of a frame ask for.
pub open spec fn frame_answered(
    c: Coder,
    q: Seq<int>,
    start: int,
    silence: bool,
    target: int,
    lm: int,
    shapes: Seq<Seq<int>>,
) -> bool {
    let alloc = opus_celt::begun_allocation(c, q, start, silence, target, lm);
    let body = Body { start, lm, target, alloc, band: start, balance: alloc.balance };
    all_answered(body, opus_celt::begun(c, q, start, silence, target, lm), shapes)
}

/// A decoder in step with the encoder reads the frame back.
proof fn lemma_frame_read(
    c: Coder,
    d: Decoder,
    q: Seq<int>,
    start: int,
    silence: bool,
    target: int,
    lm: int,
    shapes: Seq<Seq<int>>,
    data: Seq<u8>,
)
    requires
        c.valid(),
        0 <= start < 21,
        0 <= lm <= 3,
        in_step(c, d, data),
        frame_answered(c, q, start, silence, target, lm, shapes),
        holds(celt_laws::framed(c, q, start, silence, target, lm, shapes), data),
    ensures
        decodes_to(
            d,
            q,
            start,
            silence,
            target,
            lm,
            shapes,
            celt_laws::framed(c, q, start, silence, target, lm, shapes).rng,
            data,
        ),
{
    let alloc = opus_celt::begun_allocation(c, q, start, silence, target, lm);
    let body = Body { start, lm, target, alloc, band: start, balance: alloc.balance };
    let front = opus_celt::begun(c, q, start, silence, target, lm);
    celt_laws::law_front_of_a_frame_is_a_message(c, q, start, silence, target, lm);
    let (c1, last) = celt_laws::with_shapes(body, front, shapes);
    celt_laws::lemma_shapes(body, front, shapes);
    let c2 = last.refined(c1, 0, start);
    celt_laws::law_end_of_a_frame_is_a_message(last, c1, 0, start);
    lemma_holds_start(c1, c2, data);
    lemma_holds_start(front, c1, data);
    lemma_front_read(c, d, q, start, silence, target, lm, data);
    let (f, d1) = celt_decoder::front(d, start, silence, target, lm, data);
    lemma_bands_read(body, front, d1, shapes, data);
    let (_, d2) = celt_decoder::bands(d1, start, alloc.balance, alloc, start, target, lm, data);
    lemma_same_frame(body, front, shapes);
    lemma_same_tell(c1, d2, data);
    lemma_refinements_read(last, c1, d2, 0, start, data);
}

/// A decoder that starts on the packet of a CELT-only frame finds in it what the
/// encoder was given: energies, pulse vectors, and neutral choices for the rest. So it
/// does in a packet of any size.
pub proof fn law_celt_frames_are_decoded(
    q: Seq<int>,
    start: int,
    silence: bool,
    target: int,
    lm: int,
    shapes: Seq<Seq<int>>,
    size: nat,
)
    requires
        0 <= start < 21,
        0 <= lm <= 3,
        frame_answered(Coder::start(), q, start, silence, target, lm, shapes),
    ensures
        ({
            let c = celt_laws::framed(Coder::start(), q, start, silence, target, lm, shapes);
            let (a, b) = (c.packet(), c.packet_of_size(size));
            &&& decodes_to(
                Decoder::start(a),
                q,
                start,
                silence,
                target,
                lm,
                shapes,
                c.rng,
                a,
            )
            &&& decodes_to(
                Decoder::start(b),
                q,
                start,
                silence,
                target,
                lm,
                shapes,
                c.rng,
                b,
            )
        }),
{
    let s = Coder::start();
    let c = celt_laws::framed(s, q, start, silence, target, lm, shapes);
    let (a, b) = (c.packet(), c.packet_of_size(size));
    assert(radix::pow256(0) == 1);
    celt_laws::law_frames_are_messages(s, q, start, silence, target, lm, shapes);
    range_laws::law_packets_hold_the_message(c, size);
    lemma_holds_start(s, c, a);
    lemma_holds_start(s, c, b);
    lemma_frame_read(s, Decoder::start(a), q, start, silence, target, lm, shapes, a);
    lemma_frame_read(s, Decoder::start(b), q, start, silence, target, lm, shapes, b);
}

/// A decoder that has read the other layer of a hybrid frame, whatever message that
/// is, finds behind it what the CELT layer was given.
pub proof fn law_hybrid_frames_are_decoded(
    message: Seq<Item>,
    q: Seq<int>,
    start: int,
    target: int,
    lm: int,
    shapes: Seq<Seq<int>>,
)
    requires
        range_laws::all_legal(Coder::start(), message),
        0 <= start < 21,
        0 <= lm <= 3,
        frame_answered(
            range_laws::all_written(Coder::start(), message),
            q,
            start,
            false,
            target,
            lm,
            shapes,
        ),
    ensures
        ({
            let c = range_laws::all_written(Coder::start(), message);
            let e = celt_laws::framed(c, q, start, false, target, lm, shapes);
            let data = e.packet();
            let d = range_laws::all_read(Decoder::start(data), message, data);
            &&& range_laws::all_found(Decoder::start(data), message, data)
            &&& decodes_to(d, q, start, false, target, lm, shapes, e.rng, data)
        }),
{
    let s = Coder::start();
    let c = range_laws::all_written(s, message);
    let e = celt_laws::framed(c, q, start, false, target, lm, shapes);
    let data = e.packet();
    assert(radix::pow256(0) == 1);
    range_laws::law_messages_only_use_up_bits(s, message);
    celt_laws::law_frames_are_messages(c, q, start, false, target, lm, shapes);
    range_laws::law_packets_hold_the_message(e, 0);
    lemma_holds_start(c, e, data);
    range_laws::lemma_message_back(s, message, data);
    range_laws::lemma_message_step(s, Decoder::start(data), message, data);
    let d = range_laws::all_read(Decoder::start(data), message, data);
    lemma_frame_read(c, d, q, start, false, target, lm, shapes, data);
}

/// Behind another layer, a frame that leaves out the first band starts with two flags:
/// no transient, and energies of their own.
pub proof fn law_hybrid_frames_start_with_two_flags(c: Coder, start: int, target: int, lm: int)
    requires
        start > 0,
        lm > 0,
        c.tell() + 3 <= target,
        c.bit(false, 3).tell() + 3 <= target,
    ensures
        opus_celt::with_flags(c, start, false, target, lm) == c.bit(false, 3).bit(true, 3),
{
}

/// A decoder that starts on the packet of a plain frame finds the energy level of each
/// band and its pulse vector.
pub proof fn law_plain_frames_are_decoded(energies: Seq<u8>, shapes: Seq<Seq<i32>>)
    requires
        energies.len() == shapes.len(),
        forall|j: int| 0 <= j < energies.len() ==> #[trigger] energies[j] < 16,
        forall|j: int|
            0 <= j < shapes.len() ==> opus_pvq::v_count(
                (#[trigger] shapes[j]).len(),
                opus_pvq::pulses(int_math::ints(shapes[j])),
            ) <= u64::MAX,
    ensures
        ({
            let data = opus_celt::with_plain_bands(
                Coder::start(),
                energies,
                shapes,
                0,
            ).packet();
            celt_decoder::finds_plain_bands(Decoder::start(data), energies, shapes, 0, data)
        }),
{
    let s = Coder::start();
    let c = opus_celt::with_plain_bands(s, energies, shapes, 0);
    let data = c.packet();
    assert(radix::pow256(0) == 1);
    celt_laws::law_plain_frames_are_messages(s, energies, shapes, 0);
    range_laws::law_packets_hold_the_message(c, 0);
    lemma_holds_start(s, c, data);
    lemma_plain_bands_read(s, Decoder::start(data), energies, shapes, 0, data);
}

proof fn lemma_plain_bands_read(
    c: Coder,
    d: Decoder,
    energies: Seq<u8>,
    shapes: Seq<Seq<i32>>,
    i: int,
    data: Seq<u8>,
)
    requires
        c.valid(),
        0 <= i,
        energies.len() == shapes.len(),
        forall|j: int| 0 <= j < energies.len() ==> #[trigger] energies[j] < 16,
        forall|j: int|
            0 <= j < shapes.len() ==> opus_pvq::v_count(
                (#[trigger] shapes[j]).len(),
                opus_pvq::pulses(int_math::ints(shapes[j])),
            ) <= u64::MAX,
        in_step(c, d, data),
        holds(opus_celt::with_plain_bands(c, energies, shapes, i), data),
    ensures
        celt_decoder::finds_plain_bands(d, energies, shapes, i, data),
    decreases energies.len() - i,
{
    if i < energies.len() {
        assert(energies[i] < 16);
        let e = energies[i] as nat;
        let y = int_math::ints(shapes[i]);
        let c1 = c.uint(e, 16);
        celt_laws::lemma_item(c, Item::Uint { fl: e, ft: 16 });
        let c2 = opus_celt::with_pulses(c1, y);
        celt_laws::law_pulse_vectors_are_messages(c1, y);
        celt_laws::law_plain_frames_are_messages(c2, energies, shapes, i + 1);
        let end = opus_celt::with_plain_bands(c, energies, shapes, i);
        lemma_holds_start(c2, end, data);
        lemma_holds_start(c1, c2, data);
        lemma_uint_read(c, d, e, 16, data);
        let d1 = celt_decoder::uint(d, 16, data).1;
        let k = opus_pvq::pulses(y);
        assert(y.len() == shapes[i].len());
        if k > 0 {
            law_pulse_vectors_are_read_back(c1, d1, y, data);
            lemma_plain_bands_read(
                c2,
                celt_decoder::uint(d1, opus_pvq::v_count(y.len(), k), data).1,
                energies,
                shapes,
                i + 1,
                data,
            );
        } else {
            lemma_plain_bands_read(c2, d1, energies, shapes, i + 1, data);
        }
    }
}

/// A band that asks for a vector asks for it at its own coefficients: those from the
/// band's edge on, no more than the band has, and every band up to it has been written.
pub proof fn law_vectors_are_asked_for_at_their_band(body: Body, c: Coder)
    requires
        0 <= body.band,
        0 <= body.lm <= 3,
        body.advanced(c).2 is Some,
    ensures
        ({
            let (_, next, want) = body.advanced(c);
            let (lo, n, k) = want->0;
            let band = next.band - 1;
            &&& body.band <= band < 21
            &&& lo == celt_decoder_shares::lines(0, band) * celt_decoder_shares::factor(body.lm)
            &&& 0 < n <= celt_decoder_shares::size(band, body.lm)
            &&& 0 < k
        }),
    decreases 21 - body.band,
{
    let i = body.band;
    let tell = c.tell_frac();
    let b = body.band_budget(body.band_balance(tell), tell);
    let rem = 8 * body.target - tell - 1;
    celt_shares_laws::lemma_same_numbers(i, 5, body.lm);
    let n = celt_alloc::width(i) * celt_alloc::frame_scale(body.lm);
    lemma_part_of_band(c, i, body.lm, b, rem, n);
    let (c1, want) = body.band_written(c);
    if want is None {
        law_vectors_are_asked_for_at_their_band(body.band_done(c), c1);
    }
}

/// A band asks for a vector of its own or of its lower part.
proof fn lemma_part_of_band(c: Coder, band: int, lm: int, b: int, rem: int, n: int)
    requires
        -1 <= lm,
    ensures
        opus_celt::with_band(c, band, lm, b, rem, n).1 matches Some((m, k)) ==> 0 < m <= n && 0 < k,
    decreases lm + 1,
{
    if n != 1 && celt_pulses::splits(band, lm, n, b) {
        let steps = opus_celt::split_steps(band, lm, n / 2, b);
        if steps != 1 {
            let c1 = c.symbol(0, 1, opus_celt::angle_total(steps) as nat);
            let cost = c1.tell_frac() - c.tell_frac();
            lemma_part_of_band(c1, band, lm - 1, b - cost, rem - cost, n / 2);
        } else {
            lemma_part_of_band(c, band, lm - 1, b, rem, n / 2);
        }
    }
}

/// The first byte of a packet says what it holds: one fullband frame of 20 ms and one
/// channel, CELT-only or hybrid. The frame follows.
pub proof fn law_packets_say_what_they_hold(c: Coder)
    ensures
        ({
            let (celt, hybrid) = (opus_celt::celt_bytes(c), opus_celt::hybrid_bytes(c));
            &&& celt[0] / 8 == 31 && celt[0] / 4 % 2 == 0 && celt[0] % 4 == 0
            &&& hybrid[0] / 8 == 15 && hybrid[0] / 4 % 2 == 0 && hybrid[0] % 4 == 0
            &&& celt.skip(1) == c.packet_of_size(64)
            &&& hybrid.skip(1) == c.packet()
        }),
{
    assert(opus_celt::celt_bytes(c).skip(1) =~= c.packet_of_size(64));
    assert(opus_celt::hybrid_bytes(c).skip(1) =~= c.packet());
}

/// The bands of a plain frame share the bits of 960 samples evenly: together they get no
/// more than the bit rate gives, and less than a bit for each band short of it; but each
/// gets a bit at least. A higher bit rate never gives less.
pub proof fn law_plain_bands_share_the_bit_rate(kbps: int, more: int, sample_rate: int)
    requires
        0 <= kbps <= more,
        1 <= sample_rate,
        kbps * 960 * 1000 <= u32::MAX,
    ensures
        ({
            let r = opus_celt::plain_band_bits(kbps, sample_rate);
            &&& 1 <= r
            &&& r == 1 || 21 * r * sample_rate <= kbps * 960 * 1000
            &&& kbps * 960 * 1000 < 21 * (r + 1) * sample_rate
            &&& r <= opus_celt::plain_band_bits(more, sample_rate)
        }),
{
    let bits = kbps * 960 * 1000;
    let f = bits / sample_rate;
    let r = opus_celt::plain_band_bits(kbps, sample_rate);
    vstd::arithmetic::div_mod::lemma_fundamental_div_mod(bits, sample_rate);
    vstd::arithmetic::div_mod::lemma_div_pos_is_pos(bits, sample_rate);
    let (m, q) = (bits % sample_rate, f / 21);
    assert(21 * q * sample_rate <= bits < 21 * (q + 1) * sample_rate) by (nonlinear_arith)
        requires
            bits == sample_rate * f + m,
            0 <= m < sample_rate,
            21 * q <= f < 21 * (q + 1),
    ;
    assert(r == int_math::max_of(q, 1));
    assert(bits < 21 * (r + 1) * sample_rate) by (nonlinear_arith)
        requires
            bits < 21 * (q + 1) * sample_rate,
            q <= r,
            1 <= sample_rate,
    ;
    let limit = u32::MAX as int;
    let top = int_math::min_of(int_math::min_of(more * 960, limit) * 1000, limit);
    vstd::arithmetic::div_mod::lemma_div_is_ordered(bits, top, sample_rate);
    vstd::arithmetic::div_mod::lemma_div_is_ordered(f, top / sample_rate, 21);
}

} // verus!
