//! The CELT layer of an Opus frame: everything that is written for it, in
//! order, given the energies and the pulse vectors.
//!
//! A frame's body is written in three parts. [`CeltBody::begin`] writes the
//! headers, the coarse energies and the side information, shares out the bits
//! and leaves room for the fine energies. [`CeltBody::next_shape`] then asks,
//! band after band, for the pulse vector of a stretch of coefficients; the
//! caller looks for the vector closest to the spectrum and hands it to
//! [`encode_pulses`](crate::opus_pvq::encode_pulses). [`CeltBody::end`] spends
//! what is left on the energies.
use crate::celt_alloc::{
    celt_compute_allocation_enc, celt_init_caps, CeltAllocResult, MAX_FINE_BITS,
};
use crate::celt_alloc::{Allocation, Demand};
use crate::celt_pulses::{
    celt_bits2pulses, celt_compute_qn, celt_get_pulses, celt_pulses2bits, check_do_split_enc,
};
use crate::int_math::{div_floor, div_trunc, max_i32, min_i32};
use crate::opus_celt_tables::{
    EBAND_5MS, E_PROB_INTRA, LOG_N_400, NUM_BANDS_CELT, SMALL_ENERGY_ICDF, SPREAD_ICDF,
    TF_SELECT_TABLE, TRIM_ICDF,
};
use crate::opus_laplace::ec_laplace_encode;
use crate::opus_pvq::encode_pulses;
use crate::opus_range::RangeEncoder;
use crate::range_model::Coder;
use vstd::arithmetic::power2::*;
use vstd::prelude::*;

verus! {

/// Number of CELT frequency bands.
pub const NUM_BANDS: usize = 21;

/// Band edges in 480-bin MDCT space; the last entry ends the last band.
pub const BAND_BINS: [usize; 22] = [
    0, 1, 2, 3, 4, 5, 6, 7, 8, 10, 12,
    14, 16, 20, 24, 28, 34, 40, 48, 60, 78, 100,
];

/// Longest message, in bits, that a frame is appended to: eighths of a bit, with
/// those of the frame's size taken away, stay within 32 bits.
pub const USED_LIMIT: u32 = 0x400_0000;

/// Largest size of a frame in bits, either way of zero: eighths of a bit, with
/// those of the message taken away, stay within 32 bits.
pub const TARGET_LIMIT: i32 = 0x700_0000;

/// A flag written with the given probability, where the condition holds.
pub open spec fn flag_if(c: Coder, cond: bool, value: bool, logp: nat) -> Coder {
    if cond {
        c.bit(value, logp)
    } else {
        c
    }
}

/// The flags at the front: silence, post-filter, transient, intra.
pub open spec fn with_flags(c: Coder, start: int, silence: bool, target: int, lm: int) -> Coder {
    let c1 = flag_if(c, silence, false, 15);
    let c2 = flag_if(c1, start == 0 && c1.tell() + 16 <= target, false, 1);
    let c3 = flag_if(c2, lm > 0 && c2.tell() + 3 <= target, false, 3);
    flag_if(c3, c3.tell() + 3 <= target, true, 3)
}

/// The symbol of a coarse energy when few bits are left.
pub open spec fn small_symbol(q: int) -> int {
    if q == 0 {
        0
    } else if q < 0 {
        1
    } else {
        2
    }
}

/// The coarse energy of band `i`, coded as finely as the bits left allow.
pub open spec fn with_energy(c: Coder, q: int, i: int, lm: int, target: int) -> Coder {
    let left = target - c.tell();
    if left >= 15 {
        let p = 42 * lm + 2 * i;
        let s = crate::opus_laplace::slot(
            q,
            E_PROB_INTRA[p] * 128,
            E_PROB_INTRA[p + 1] * 64,
        );
        c.symbol(s.fl as nat, (s.fl + s.width) as nat, 32768)
    } else if left >= 2 {
        c.icdf(small_symbol(q), SMALL_ENERGY_ICDF@, 2)
    } else if left >= 1 {
        c.bit(q < 0, 1)
    } else {
        c
    }
}

/// The coarse energies of bands `i` and up.
pub open spec fn with_energies(c: Coder, q: Seq<int>, i: int, lm: int, target: int) -> Coder
    decreases 21 - i,
{
    if i >= 21 {
        c
    } else {
        with_energies(with_energy(c, q[i], i, lm, target), q, i + 1, lm, target)
    }
}

/// The flags of `n` bands that keep their time-frequency resolution: the first
/// has probability `2^-logp`, the others `2^-next`.
pub open spec fn with_tf_flags(c: Coder, n: int, logp: int, next: int, budget: int) -> Coder
    decreases n,
{
    if n <= 0 {
        c
    } else {
        with_tf_flags(
            flag_if(c, c.tell() + logp <= budget, false, logp as nat),
            n - 1,
            next,
            next,
            budget,
        )
    }
}

/// Unchanged time-frequency resolution for all bands from `start`.
pub open spec fn with_tf(c: Coder, start: int, lm: int, transient: bool, target: int) -> Coder {
    let logp = if transient {
        2int
    } else {
        4
    };
    let next = if transient {
        4int
    } else {
        5
    };
    let reserved = lm > 0 && c.tell() + logp < target;
    let budget = target - (if reserved {
        1int
    } else {
        0
    });
    let row = 8 * lm + (if transient {
        4int
    } else {
        0
    });
    flag_if(
        with_tf_flags(c, 21 - start, logp, next, budget),
        reserved && TF_SELECT_TABLE[row] != TF_SELECT_TABLE[row + 2],
        false,
        1,
    )
}

/// No boost for bands `i` and up.
pub open spec fn without_boosts(c: Coder, i: int, lm: int, target: int) -> Coder
    decreases 21 - i,
{
    if i >= 21 {
        c
    } else {
        without_boosts(
            flag_if(
                c,
                c.tell_frac() + 48 < 8 * target && crate::celt_alloc::band_cap(i, lm) > 0,
                false,
                6,
            ),
            i + 1,
            lm,
            target,
        )
    }
}

/// Everything in front of the allocation.
pub open spec fn with_side_info(
    c: Coder,
    q: Seq<int>,
    start: int,
    silence: bool,
    target: int,
    lm: int,
) -> Coder {
    let c1 = with_energies(with_flags(c, start, silence, target, lm), q, start, lm, target);
    let c2 = with_tf(c1, start, lm, false, target);
    let c3 = if c2.tell() + 4 <= target {
        c2.icdf(2, SPREAD_ICDF@, 5)
    } else {
        c2
    };
    let c4 = without_boosts(c3, start, lm, target);
    if c4.tell_frac() + 48 <= 8 * target {
        c4.icdf(5, TRIM_ICDF@, 7)
    } else {
        c4
    }
}

/// What the shares of a frame depend on once the side information is out.
pub open spec fn demand(c: Coder, start: int, target: int, lm: int) -> Demand {
    Demand {
        offsets: Seq::new(21, |i: int| 0int),
        cap: Seq::new(21, |i: int| crate::celt_alloc::band_cap(i, lm)),
        trim: 5,
        lm,
        start,
        total: crate::int_math::max_of(8 * target - c.tell_frac() - 1, 0),
    }
}

/// Fine energies of bands `i` and up, all zero.
pub open spec fn with_fine(c: Coder, fine: Seq<int>, i: int) -> Coder
    decreases 21 - i,
{
    if i >= 21 {
        c
    } else {
        with_fine(
            if fine[i] > 0 {
                c.raw_bits(0, fine[i] as nat)
            } else {
                c
            },
            fine,
            i + 1,
        )
    }
}

/// Everything in front of the band shapes.
pub open spec fn begun(
    c: Coder,
    q: Seq<int>,
    start: int,
    silence: bool,
    target: int,
    lm: int,
) -> Coder {
    let c1 = with_side_info(c, q, start, silence, target, lm);
    let a = demand(c1, start, target, lm).allocation();
    with_fine(flag_if(c1, a.flagged, true, 1), a.fine, start)
}

/// The allocation of the frame.
pub open spec fn begun_allocation(
    c: Coder,
    q: Seq<int>,
    start: int,
    silence: bool,
    target: int,
    lm: int,
) -> Allocation {
    demand(with_side_info(c, q, start, silence, target, lm), start, target, lm).allocation()
}

/// Write a flag.
fn put_flag(enc: &mut RangeEncoder, value: bool, logp: u32)
    requires
        old(enc).wf(),
        old(enc)@.used() <= 2 * USED_LIMIT,
        1 <= logp <= 15,
    ensures
        final(enc).wf(),
        final(enc)@ == old(enc)@.bit(value, logp as nat),
        final(enc)@.used() <= old(enc)@.used() + 24,
{
    proof {
        enc.lemma_wf_valid();
        crate::range_model::lemma_bit_codes(enc@, value, logp as nat);
    }
    enc.enc_bit_logp(value, logp);
}

/// Write the flags at the front.
fn write_flags(
    enc: &mut RangeEncoder,
    start_band: usize,
    write_silence_flag: bool,
    target_bits: i32,
    lm: usize,
)
    requires
        old(enc).wf(),
        old(enc)@.used() <= USED_LIMIT,
        -TARGET_LIMIT <= target_bits <= TARGET_LIMIT,
    ensures
        final(enc).wf(),
        final(enc)@ == with_flags(
            old(enc)@,
            start_band as int,
            write_silence_flag,
            target_bits as int,
            lm as int,
        ),
        final(enc)@.used() <= old(enc)@.used() + 96,
{
    if write_silence_flag {
        put_flag(enc, false, 15);
    }
    if start_band == 0 && enc.tell() + 16 <= target_bits {
        put_flag(enc, false, 1);
    }
    if lm > 0 && enc.tell() + 3 <= target_bits {
        put_flag(enc, false, 3);
    }
    if enc.tell() + 3 <= target_bits {
        put_flag(enc, true, 3);
    }
}

/// Code the coarse energies `qi` of bands `start_band` and up, each on its own
/// (intra mode), as finely as the bits left allow.
pub fn celt_quant_coarse_energy_intra_ranged(
    qi: &[i32],
    start_band: usize,
    lm: usize,
    total_bits: i32,
    enc: &mut RangeEncoder,
)
    requires
        old(enc).wf(),
        old(enc)@.used() <= USED_LIMIT + 0x1000,
        qi@.len() >= 21,
        forall|i: int| start_band <= i < 21 ==> #[trigger] qi@[i] > i32::MIN,
        start_band <= 21,
        lm <= 3,
        -TARGET_LIMIT <= total_bits <= TARGET_LIMIT,
    ensures
        final(enc).wf(),
        final(enc)@ == with_energies(
            old(enc)@,
            crate::int_math::ints(qi@),
            start_band as int,
            lm as int,
            total_bits as int,
        ),
        final(enc)@.used() <= old(enc)@.used() + 24 * (21 - start_band),
{
    let ghost q = crate::int_math::ints(qi@);
    let mut i: usize = start_band;
    while i < NUM_BANDS_CELT
        invariant
            q == crate::int_math::ints(qi@),
            qi@.len() >= 21,
            forall|i: int| start_band <= i < 21 ==> #[trigger] qi@[i] > i32::MIN,
            start_band <= i <= 21,
            lm <= 3,
            -TARGET_LIMIT <= total_bits <= TARGET_LIMIT,
            enc.wf(),
            old(enc)@.used() <= USED_LIMIT + 0x1000,
            enc@.used() <= old(enc)@.used() + 24 * (i - start_band),
            with_energies(enc@, q, i as int, lm as int, total_bits as int) == with_energies(
                old(enc)@,
                q,
                start_band as int,
                lm as int,
                total_bits as int,
            ),
        decreases 21 - i,
    {
        let left: i32 = total_bits - enc.tell();
        let v: i32 = qi[i];
        proof {
            assert(q[i as int] == v);
            enc.lemma_wf_valid();
        }
        if left >= 15 {
            let p: usize = 42 * lm + 2 * i;
            let fs: u32 = E_PROB_INTRA[p] as u32 * 128;
            let decay: u32 = E_PROB_INTRA[p + 1] as u32 * 64;
            proof {
                assert(E_PROB_INTRA[p as int] > 0);
            }
            ec_laplace_encode(enc, v, fs, decay);
        } else if left >= 2 {
            let s: usize = if v == 0 {
                0
            } else if v < 0 {
                1
            } else {
                2
            };
            proof {
                lemma2_to64();
                crate::range_model::lemma_icdf_codes(enc@, s as int, SMALL_ENERGY_ICDF@, 2);
            }
            enc.enc_icdf(s, &SMALL_ENERGY_ICDF, 2);
        } else if left >= 1 {
            put_flag(enc, v < 0, 1);
        }
        i = i + 1;
    }
}

/// Write that bands `start_band` and up keep their time-frequency resolution.
pub fn celt_write_tf_neutral_ranged(
    start_band: usize,
    lm: usize,
    is_transient: bool,
    total_bits: i32,
    enc: &mut RangeEncoder,
)
    requires
        old(enc).wf(),
        old(enc)@.used() <= USED_LIMIT + 0x1000,
        start_band <= 21,
        lm <= 3,
        -TARGET_LIMIT <= total_bits <= TARGET_LIMIT,
    ensures
        final(enc).wf(),
        final(enc)@ == with_tf(
            old(enc)@,
            start_band as int,
            lm as int,
            is_transient,
            total_bits as int,
        ),
        final(enc)@.used() <= old(enc)@.used() + 24 * 22,
{
    let mut budget: i32 = total_bits;
    let first: i32 = if is_transient {
        2
    } else {
        4
    };
    let next: i32 = if is_transient {
        4
    } else {
        5
    };
    let reserved: bool = lm > 0 && enc.tell() + first < budget;
    if reserved {
        budget = budget - 1;
    }
    let mut logp: i32 = first;
    let mut i: usize = start_band;
    while i < NUM_BANDS_CELT
        invariant
            start_band <= i <= 21,
            -TARGET_LIMIT - 1 <= budget <= TARGET_LIMIT,
            1 <= logp <= 5,
            1 <= next <= 5,
            enc.wf(),
            old(enc)@.used() <= USED_LIMIT + 0x1000,
            enc@.used() <= old(enc)@.used() + 24 * (i - start_band),
            with_tf_flags(enc@, 21 - i, logp as int, next as int, budget as int) == with_tf_flags(
                old(enc)@,
                21 - start_band,
                first as int,
                next as int,
                budget as int,
            ),
        decreases 21 - i,
    {
        if enc.tell() + logp <= budget {
            put_flag(enc, false, logp as u32);
        }
        logp = next;
        i = i + 1;
    }
    let row: usize = 8 * lm + (if is_transient {
        4
    } else {
        0
    });
    if reserved && TF_SELECT_TABLE[row] != TF_SELECT_TABLE[row + 2] {
        put_flag(enc, false, 1);
    }
}

/// Write that no band from `start_band` up is boosted.
fn write_no_boosts(
    enc: &mut RangeEncoder,
    start_band: usize,
    lm: usize,
    target_bits: i32,
    cap: &Vec<i32>,
)
    requires
        old(enc).wf(),
        old(enc)@.used() <= USED_LIMIT + 0x1000,
        start_band <= 21,
        lm <= 3,
        -TARGET_LIMIT <= target_bits <= TARGET_LIMIT,
        cap@.len() == 21,
        forall|j: int| 0 <= j < 21 ==> #[trigger] cap@[j] == crate::celt_alloc::band_cap(j, lm as int),
    ensures
        final(enc).wf(),
        final(enc)@ == without_boosts(old(enc)@, start_band as int, lm as int, target_bits as int),
        final(enc)@.used() <= old(enc)@.used() + 24 * (21 - start_band),
{
    let mut i: usize = start_band;
    while i < NUM_BANDS_CELT
        invariant
            start_band <= i <= 21,
            lm <= 3,
            -TARGET_LIMIT <= target_bits <= TARGET_LIMIT,
            cap@.len() == 21,
            forall|j: int|
                0 <= j < 21 ==> #[trigger] cap@[j] == crate::celt_alloc::band_cap(j, lm as int),
            enc.wf(),
            old(enc)@.used() <= USED_LIMIT + 0x1000,
            enc@.used() <= old(enc)@.used() + 24 * (i - start_band),
            without_boosts(enc@, i as int, lm as int, target_bits as int) == without_boosts(
                old(enc)@,
                start_band as int,
                lm as int,
                target_bits as int,
            ),
        decreases 21 - i,
    {
        if enc.tell_frac() + 48 < 8 * target_bits && cap[i] > 0 {
            put_flag(enc, false, 6);
        }
        i = i + 1;
    }
}

/// Write everything in front of the allocation.
fn write_side_info(
    qi: &[i32],
    start_band: usize,
    write_silence_flag: bool,
    target_bits: i32,
    lm: usize,
    cap: &Vec<i32>,
    enc: &mut RangeEncoder,
)
    requires
        old(enc).wf(),
        old(enc)@.used() <= USED_LIMIT,
        qi@.len() >= 21,
        forall|i: int| start_band <= i < 21 ==> #[trigger] qi@[i] > i32::MIN,
        start_band < 21,
        lm <= 3,
        -TARGET_LIMIT <= target_bits <= TARGET_LIMIT,
        cap@.len() == 21,
        forall|j: int|
            0 <= j < 21 ==> #[trigger] cap@[j] == crate::celt_alloc::band_cap(j, lm as int),
    ensures
        final(enc).wf(),
        final(enc)@ == with_side_info(
            old(enc)@,
            crate::int_math::ints(qi@),
            start_band as int,
            write_silence_flag,
            target_bits as int,
            lm as int,
        ),
        final(enc)@.used() <= old(enc)@.used() + 0x800,
{
    write_flags(enc, start_band, write_silence_flag, target_bits, lm);
    celt_quant_coarse_energy_intra_ranged(qi, start_band, lm, target_bits, enc);
    celt_write_tf_neutral_ranged(start_band, lm, false, target_bits, enc);
    if enc.tell() + 4 <= target_bits {
        proof {
            lemma2_to64();
            enc.lemma_wf_valid();
            crate::range_model::lemma_icdf_codes(enc@, 2, SPREAD_ICDF@, 5);
        }
        enc.enc_icdf(2, &SPREAD_ICDF, 5);
    }
    write_no_boosts(enc, start_band, lm, target_bits, cap);
    if enc.tell_frac() + 48 <= 8 * target_bits {
        proof {
            lemma2_to64();
            enc.lemma_wf_valid();
            crate::range_model::lemma_icdf_codes(enc@, 5, TRIM_ICDF@, 7);
        }
        enc.enc_icdf(5, &TRIM_ICDF, 7);
    }
}

/// Write fine energies of zero for bands `start_band` and up.
fn write_fine(enc: &mut RangeEncoder, fine: &Vec<i32>, start_band: usize)
    requires
        old(enc).wf(),
        old(enc)@.used() <= 2 * USED_LIMIT,
        start_band <= 21,
        fine@.len() == 21,
        forall|j: int| 0 <= j < 21 ==> #[trigger] fine@[j] <= MAX_FINE_BITS,
    ensures
        final(enc).wf(),
        final(enc)@ == with_fine(old(enc)@, crate::int_math::ints(fine@), start_band as int),
        final(enc)@.used() <= old(enc)@.used() + 8 * (21 - start_band),
{
    let ghost f = crate::int_math::ints(fine@);
    let mut i: usize = start_band;
    while i < NUM_BANDS_CELT
        invariant
            start_band <= i <= 21,
            enc.wf(),
            enc@.used() <= old(enc)@.used() + 8 * (i - start_band),
            fine@.len() == 21,
            f == crate::int_math::ints(fine@),
            forall|j: int| 0 <= j < 21 ==> #[trigger] fine@[j] <= MAX_FINE_BITS,
            with_fine(enc@, f, i as int) == with_fine(old(enc)@, f, start_band as int),
        decreases 21 - i,
    {
        let e: i32 = fine[i];
        proof {
            assert(f[i as int] == e);
        }
        if e > 0 {
            enc.enc_bits(0, e as u32);
        }
        i = i + 1;
    }
}

/// A stretch of the spectrum whose pulse vector is wanted.
#[derive(Clone, Copy, Debug, PartialEq, Eq, Structural)]
pub struct ShapeRequest {
    /// First coefficient.
    pub lo: usize,
    /// Number of coefficients.
    pub n: usize,
    /// Number of pulses.
    pub k: u32,
}

/// The largest pseudo pulse count up to `q` that `rem` pays for.
pub open spec fn affordable(band: int, lm: int, q: int, rem: int) -> int
    decreases q,
{
    if q > 0 && rem < crate::celt_pulses::pulse_cost(band, lm, q) {
        affordable(band, lm, q - 1, rem)
    } else {
        q
    }
}

/// The steps of the angle of a band split at level `lm` into halves of `n`.
pub open spec fn split_steps(band: int, lm: int, n: int, b: int) -> int {
    let cap = LOG_N_400[band] + 8 * (lm - 1);
    crate::celt_pulses::angle_steps(n, b, cap / 2 - 4, cap)
}

/// The number of frequencies of an angle with `steps` steps.
pub open spec fn angle_total(steps: int) -> int {
    (steps / 2 + 1) * (steps / 2 + 1)
}

/// One band: where it is split, all bits go to its lower half, whose stretch
/// then asks for `k` pulses over `n` coefficients.
pub open spec fn with_band(c: Coder, band: int, lm: int, b: int, rem: int, n: int) -> (
    Coder,
    Option<(int, int)>,
)
    decreases lm + 1,
    when 0 <= lm + 1
{
    if n == 1 {
        (
            if rem >= 8 {
                c.raw_bits(0, 1)
            } else {
                c
            },
            None,
        )
    } else if crate::celt_pulses::splits(band, lm, n, b) {
        let steps = split_steps(band, lm, n / 2, b);
        if steps != 1 {
            let c1 = c.symbol(0, 1, angle_total(steps) as nat);
            let cost = c1.tell_frac() - c.tell_frac();
            with_band(c1, band, lm - 1, b - cost, rem - cost, n / 2)
        } else {
            with_band(c, band, lm - 1, b, rem, n / 2)
        }
    } else {
        let q = crate::celt_pulses::nearest_pulses(band, lm, crate::int_math::max_of(b, 0));
        let k = crate::celt_pulses::real_pulses(affordable(band, lm, q, rem));
        (
            c,
            if k > 0 && n > 0 {
                Some((n, k))
            } else {
                None
            },
        )
    }
}

/// What one band leaves of `rem` before its pulse vector: less 8 if a sign bit is
/// written, less what each angle costs.
pub open spec fn left_after(c: Coder, band: int, lm: int, b: int, rem: int, n: int) -> int
    decreases lm + 1,
    when 0 <= lm + 1
{
    if n == 1 {
        if rem >= 8 {
            rem - 8
        } else {
            rem
        }
    } else if crate::celt_pulses::splits(band, lm, n, b) {
        let steps = split_steps(band, lm, n / 2, b);
        if steps != 1 {
            let c1 = c.symbol(0, 1, angle_total(steps) as nat);
            let cost = c1.tell_frac() - c.tell_frac();
            left_after(c1, band, lm - 1, b - cost, rem - cost, n / 2)
        } else {
            left_after(c, band, lm - 1, b, rem, n / 2)
        }
    } else {
        rem
    }
}

/// The pseudo pulse count that `bits` buy and `rem` pays for.
fn afford_pulses(band: usize, lm: i32, bits: i32, rem: i32) -> (r: i32)
    requires
        band < 21,
        -1 <= lm,
        0 <= bits,
    ensures
        r == affordable(
            band as int,
            lm as int,
            crate::celt_pulses::nearest_pulses(band as int, lm as int, bits as int),
            rem as int,
        ),
        0 <= r <= 40,
{
    let mut q: i32 = celt_bits2pulses(band, lm, bits);
    let ghost q0 = q as int;
    let mut cost: i32 = celt_pulses2bits(band, lm, q);
    while rem < cost && q > 0
        invariant
            band < 21,
            -1 <= lm,
            0 <= q <= 40,
            cost == crate::celt_pulses::pulse_cost(band as int, lm as int, q as int),
            affordable(band as int, lm as int, q0, rem as int) == affordable(
                band as int,
                lm as int,
                q as int,
                rem as int,
            ),
        decreases q,
    {
        q = q - 1;
        cost = celt_pulses2bits(band, lm, q);
    }
    q
}

/// Write what comes before the pulse vector of one band, and say how many
/// coefficients and pulses it has. A band that has more bits than its
/// costliest vector is split in two; the angle 0 gives all bits to the lower
/// half. What is written is taken off `remaining_bits`.
///
/// The offset of an angle is at most 22 eighths for each coefficient, and an
/// angle costs between -7 and 127 eighths.
pub fn encode_band_with_splits(
    band: usize,
    lm: i32,
    b: i32,
    remaining_bits: &mut i32,
    enc: &mut RangeEncoder,
    n0: usize,
) -> (r: Option<(usize, u32)>)
    requires
        old(enc).wf(),
        8 * (old(enc)@.used() + 24 * (lm + 1)) <= i32::MAX,
        band < 21,
        -1 <= lm <= 3,
        crate::celt_pulses::splits(band as int, lm as int, n0 as int, b as int) ==> b + 22 * n0
            <= i32::MAX,
        i32::MIN + 127 * (lm + 1) <= *old(remaining_bits) <= i32::MAX - 7 * (lm + 1),
    ensures
        final(enc).wf(),
        ({
            let (c, want) = with_band(
                old(enc)@,
                band as int,
                lm as int,
                b as int,
                *old(remaining_bits) as int,
                n0 as int,
            );
            &&& final(enc)@ == c
            &&& match r {
                Some((n, k)) => want == Some((n as int, k as int)) && 0 < n <= n0 && 0 < k <= 128,
                None => want is None,
            }
        }),
        *final(remaining_bits) == left_after(
            old(enc)@,
            band as int,
            lm as int,
            b as int,
            *old(remaining_bits) as int,
            n0 as int,
        ),
        final(enc)@.used() <= old(enc)@.used() + 24 * (lm + 1) + 1,
    decreases lm + 1,
{
    if n0 == 1 {
        if *remaining_bits >= 8 {
            enc.enc_bits(0, 1);
            *remaining_bits = *remaining_bits - 8;
        }
        return None;
    }
    if check_do_split_enc(band, lm, n0, b) {
        let n: usize = n0 / 2;
        let pulse_cap: i32 = LOG_N_400[band] as i32 + 8 * (lm - 1);
        let offset: i32 = div_floor(pulse_cap, 2) - 4;
        proof {
            crate::celt_pulses::lemma_split_share(band as int, lm as int, n0 as int, b as int);
            assert(-8 <= pulse_cap <= 52 && -8 <= offset <= 22);
            assert(-8 * (2 * n - 1) <= (2 * n - 1) * offset <= 22 * (2 * n - 1))
                by (nonlinear_arith)
                requires
                    1 <= n,
                    -8 <= offset <= 22,
            ;
        }
        let qn: i32 = celt_compute_qn(n, b, offset, pulse_cap);
        if qn != 1 {
            let h: i32 = qn / 2 + 1;
            proof {
                assert(1 <= h * h <= 129 * 129) by (nonlinear_arith)
                    requires
                        1 <= h <= 129,
                ;
            }
            let ft: i32 = h * h;
            let before: i32 = enc.tell_frac();
            proof {
                enc.lemma_wf_valid();
                crate::range_model::lemma_small_total_codes(enc@, 0, 1, ft as nat);
                crate::celt_fit_laws::lemma_angle_cost(enc@, ft as nat);
            }
            enc.encode(0, 1, ft as u32);
            let cost: i32 = enc.tell_frac() - before;
            *remaining_bits = *remaining_bits - cost;
            encode_band_with_splits(band, lm - 1, b - cost, remaining_bits, enc, n)
        } else {
            encode_band_with_splits(band, lm - 1, b, remaining_bits, enc, n)
        }
    } else {
        let q: i32 = afford_pulses(band, lm, max_i32(b, 0), *remaining_bits);
        let k: i32 = celt_get_pulses(q);
        if k > 0 && n0 > 0 {
            Some((n0, k as u32))
        } else {
            None
        }
    }
}

/// A frame's body between its side information and its end.
#[verifier::ext_equal]
pub struct Body {
    /// First band.
    pub start: int,
    /// Frame size.
    pub lm: int,
    /// Size of the frame in bits.
    pub target: int,
    /// The shares of the bands.
    pub alloc: Allocation,
    /// The next band.
    pub band: int,
    /// What earlier bands left over or overdrew, in eighths.
    pub balance: int,
}

impl Body {
    /// What the next band may spend when `tell` eighths are used.
    pub open spec fn band_budget(self, balance: int, tell: int) -> int {
        if self.band < self.alloc.coded {
            let part = crate::int_math::trunc_quotient(
                balance,
                crate::int_math::min_of(self.alloc.coded - self.band, 3),
            );
            let want = self.alloc.bits[self.band] + part;
            let kept = if want < 0 {
                0
            } else if want > 16383 {
                16383
            } else {
                want
            };
            crate::int_math::min_of(kept, 8 * self.target - tell)
        } else {
            0
        }
    }

    /// The balance as the next band sees it.
    pub open spec fn band_balance(self, tell: int) -> int {
        if self.band == self.start {
            self.balance
        } else {
            self.balance - tell
        }
    }

    /// The next band written up to its pulse vector.
    pub open spec fn band_written(self, c: Coder) -> (Coder, Option<(int, int)>) {
        let tell = c.tell_frac();
        with_band(
            c,
            self.band,
            self.lm,
            self.band_budget(self.band_balance(tell), tell),
            8 * self.target - tell - 1,
            crate::celt_alloc::width(self.band) * crate::celt_alloc::frame_scale(self.lm),
        )
    }

    /// The state behind the next band.
    pub open spec fn band_done(self, c: Coder) -> Body {
        let tell = c.tell_frac();
        Body {
            band: self.band + 1,
            balance: self.band_balance(tell) + self.alloc.bits[self.band] + tell,
            ..self
        }
    }

    /// Go on to the next band that wants a pulse vector: its first coefficient,
    /// their number and that of the pulses. `None` behind the last band.
    pub open spec fn advanced(self, c: Coder) -> (Coder, Body, Option<(int, int, int)>)
        decreases 21 - self.band,
    {
        if self.band >= 21 {
            (c, self, None)
        } else {
            let (c1, want) = self.band_written(c);
            let next = self.band_done(c);
            match want {
                Some((n, k)) => (
                    c1,
                    next,
                    Some(
                        (
                            crate::celt_alloc::edge(self.band) * crate::celt_alloc::frame_scale(
                                self.lm,
                            ),
                            n,
                            k,
                        ),
                    ),
                ),
                None => next.advanced(c1),
            }
        }
    }

    /// Spend the bits left on finer energies: first the bands that come early,
    /// then those that come late, a zero bit each.
    pub open spec fn refined(self, c: Coder, late: int, i: int) -> Coder
        decreases 2 - late, 21 - i,
    {
        if late >= 2 {
            c
        } else if i >= 21 {
            self.refined(c, late + 1, self.start)
        } else if self.alloc.fine[i] >= MAX_FINE_BITS || self.alloc.late[i] != late {
            self.refined(c, late, i + 1)
        } else if self.target - c.tell() <= 0 {
            c
        } else {
            self.refined(c.raw_bits(0, 1), late, i + 1)
        }
    }
}

/// The body of a CELT frame while it is written.
pub struct CeltBody {
    start_band: usize,
    lm: usize,
    target_bits: i32,
    alloc: CeltAllocResult,
    flagged: Ghost<bool>,
    band: usize,
    balance: i32,
}

impl View for CeltBody {
    type V = Body;

    closed spec fn view(&self) -> Body {
        Body {
            start: self.start_band as int,
            lm: self.lm as int,
            target: self.target_bits as int,
            alloc: Allocation {
                coded: self.alloc.coded_bands as int,
                bits: crate::int_math::ints(self.alloc.pulses@),
                fine: crate::int_math::ints(self.alloc.fine_quant@),
                late: crate::int_math::ints(self.alloc.fine_priority@),
                balance: self.alloc.balance as int,
                flagged: self.flagged@,
            },
            band: self.band as int,
            balance: self.balance as int,
        }
    }
}

/// What bands spend is no less than their shape bits.
proof fn lemma_spent_bound(bits: Seq<int>, fine: Seq<int>, a: int, b: int)
    requires
        0 <= a <= b <= 21,
        forall|j: int| 0 <= j < 21 ==> 0 <= #[trigger] bits[j],
        forall|j: int| 0 <= j < 21 ==> 0 <= #[trigger] fine[j],
    ensures
        crate::celt_alloc_laws::spent(bits, fine, a, b) >= crate::celt_alloc_laws::sum_between(
            bits,
            a,
            b,
        ),
    decreases b - a,
{
    if a < b {
        lemma_spent_bound(bits, fine, a, b - 1);
        assert(0 <= bits[b - 1]);
        assert(0 <= fine[b - 1]);
    }
}

impl CeltBody {
    /// The state's invariant.
    pub closed spec fn wf(&self) -> bool {
        &&& self.start_band < 21
        &&& self.start_band <= self.band <= 21
        &&& self.lm <= 3
        &&& -TARGET_LIMIT <= self.target_bits <= TARGET_LIMIT
        &&& self.alloc.coded_bands <= 21
        &&& self.alloc.pulses@.len() == 21
        &&& self.alloc.fine_quant@.len() == 21
        &&& self.alloc.fine_priority@.len() == 21
        &&& forall|j: int| 0 <= j < 21 ==> 0 <= #[trigger] self.alloc.pulses@[j]
        &&& 0 <= self.alloc.balance
        &&& self.alloc.balance + self.shares(21) <= 8 * TARGET_LIMIT
        &&& 0 <= self.balance <= self.alloc.balance + self.shares(self.band as int) + (
        if self.band > self.start_band {
            8 * USED_LIMIT + 0x100_0000
        } else {
            0
        })
    }

    /// The shape bits of the bands below `band`.
    spec fn shares(&self, band: int) -> int {
        crate::celt_alloc_laws::sum_between(
            crate::int_math::ints(self.alloc.pulses@),
            self.start_band as int,
            band,
        )
    }

    /// Write everything in front of the band shapes of a frame of
    /// `target_bits` bits: flags, the coarse energies `qi`, unchanged
    /// time-frequency resolution, normal spreading, no boosts, a neutral trim,
    /// the allocation and fine energies of zero.
    pub fn begin(
        qi: &[i32],
        start_band: usize,
        write_silence_flag: bool,
        target_bits: i32,
        lm: usize,
        enc: &mut RangeEncoder,
    ) -> (r: CeltBody)
        requires
            old(enc).wf(),
            old(enc)@.used() <= USED_LIMIT,
            qi@.len() >= 21,
            forall|i: int| start_band <= i < 21 ==> #[trigger] qi@[i] > i32::MIN,
            start_band < 21,
            lm <= 3,
            -TARGET_LIMIT <= target_bits <= TARGET_LIMIT,
        ensures
            final(enc).wf(),
            final(enc)@ == begun(
                old(enc)@,
                crate::int_math::ints(qi@),
                start_band as int,
                write_silence_flag,
                target_bits as int,
                lm as int,
            ),
            final(enc)@.used() <= old(enc)@.used() + 0x1000,
            r.wf(),
            ({
                let a = begun_allocation(
                    old(enc)@,
                    crate::int_math::ints(qi@),
                    start_band as int,
                    write_silence_flag,
                    target_bits as int,
                    lm as int,
                );
                r@ == (Body {
                    start: start_band as int,
                    lm: lm as int,
                    target: target_bits as int,
                    alloc: a,
                    band: start_band as int,
                    balance: a.balance,
                })
            }),
    {
        let cap: Vec<i32> = celt_init_caps(lm);
        write_side_info(qi, start_band, write_silence_flag, target_bits, lm, &cap, enc);
        let avail: i32 = max_i32(8 * target_bits - enc.tell_frac() - 1, 0);
        let offsets: Vec<i32> = vec![0i32; NUM_BANDS_CELT];
        let ghost c = enc@;
        let ghost d = demand(c, start_band as int, target_bits as int, lm as int);
        let ghost a = d.allocation();
        proof {
            assert(crate::int_math::ints(offsets@) =~= d.offsets);
            assert(crate::int_math::ints(cap@) =~= d.cap);
            assert forall|j: int| 0 <= j < 21 implies 0 <= #[trigger] d.cap[j]
                <= crate::celt_alloc::CAP_LIMIT by {
                assert(cap@[j] == d.cap[j]);
            }
            assert(d.valid());
        }
        let alloc = celt_compute_allocation_enc(
            enc,
            avail,
            offsets.as_slice(),
            cap.as_slice(),
            5,
            lm,
            start_band,
        );
        proof {
            crate::celt_alloc_laws::law_budget_is_used_up(d);
            assert forall|j: int| 0 <= j < 21 implies 0 <= #[trigger] a.bits[j] by {
                assert(alloc.pulses@[j] == a.bits[j]);
            }
            assert forall|j: int| 0 <= j < 21 implies 0 <= #[trigger] a.fine[j] by {
                assert(alloc.fine_quant@[j] == a.fine[j]);
            }
            lemma_spent_bound(a.bits, a.fine, start_band as int, 21);
        }
        write_fine(enc, &alloc.fine_quant, start_band);
        let balance: i32 = alloc.balance;
        CeltBody {
            start_band,
            lm,
            target_bits,
            alloc,
            flagged: Ghost(a.flagged),
            band: start_band,
            balance,
        }
    }

    /// The next band's shape bits are among those of all bands.
    proof fn lemma_shares(&self)
        requires
            self.wf(),
            self.band < 21,
        ensures
            0 <= self.shares(self.band as int),
            self.shares(self.band as int) + self.alloc.pulses@[self.band as int] == self.shares(
                self.band + 1,
            ),
            self.shares(self.band + 1) <= self.shares(21),
            0 <= self.alloc.pulses@[self.band as int],
    {
        let v = crate::int_math::ints(self.alloc.pulses@);
        assert forall|j: int| 0 <= j < 21 implies 0 <= #[trigger] v[j] by {
            assert(0 <= self.alloc.pulses@[j]);
        }
        let a = self.start_band as int;
        crate::celt_alloc_laws::lemma_sum_between_grows(v, a, self.band as int, self.band + 1);
        crate::celt_alloc_laws::lemma_sum_between_grows(v, a, self.band + 1, 21);
        assert(v[self.band as int] == self.alloc.pulses@[self.band as int]);
    }

    /// What the next band may spend.
    fn band_budget(&self, balance: i32, tell: i32) -> (b: i32)
        requires
            self.wf(),
            self@.band < 21,
            -0x4000_0000 <= balance <= 0x7000_0000,
            balance + self@.alloc.bits[self@.band] <= i32::MAX,
            0 <= tell <= 0x4000_0000,
        ensures
            b == self@.band_budget(balance as int, tell as int),
            -0x7800_0000 <= b <= 16383,
    {
        let band: usize = self.band;
        if band >= self.alloc.coded_bands {
            return 0;
        }
        let ahead: usize = self.alloc.coded_bands - band;
        let parts: i32 = if ahead < 3 {
            ahead as i32
        } else {
            3
        };
        let part: i32 = div_trunc(balance, parts);
        proof {
            lemma_trunc_bound(balance as int, parts as int);
        }
        let want: i32 = self.alloc.pulses[band] + part;
        let kept: i32 = if want < 0 {
            0
        } else if want > 16383 {
            16383
        } else {
            want
        };
        min_i32(kept, 8 * self.target_bits - tell)
    }

    /// Write the next band up to its pulse vector, and ask for that.
    #[verifier::spinoff_prover]
    #[verifier::rlimit(30)]
    fn write_band(&mut self, enc: &mut RangeEncoder) -> (r: Option<ShapeRequest>)
        requires
            old(self).wf(),
            old(self)@.band < 21,
            old(enc).wf(),
            old(enc)@.used() <= USED_LIMIT + 0x10_1000,
        ensures
            final(self).wf(),
            final(enc).wf(),
            final(self)@ == old(self)@.band_done(old(enc)@),
            ({
                let (c, want) = old(self)@.band_written(old(enc)@);
                &&& final(enc)@ == c
                &&& match r {
                    Some(q) => want == Some((q.n as int, q.k as int)) && 0 < q.n <= 176 && 0 < q.k
                        <= 128 && q.lo == crate::celt_alloc::edge(old(self)@.band)
                        * crate::celt_alloc::frame_scale(old(self)@.lm),
                    None => want is None,
                }
            }),
            final(enc)@.used() <= old(enc)@.used() + 97,
    {
        let ghost body = self@;
        let band: usize = self.band;
        let tell: i32 = enc.tell_frac();
        proof {
            self.lemma_shares();
        }
        let balance: i32 = if band == self.start_band {
            self.balance
        } else {
            self.balance - tell
        };
        let b: i32 = self.band_budget(balance, tell);
        let scale: usize = 1usize << self.lm;
        let edge: usize = EBAND_5MS[band] as usize;
        let width: usize = (EBAND_5MS[band + 1] - EBAND_5MS[band]) as usize;
        proof {
            lemma_small_shift(self.lm);
            lemma_band_size(edge as int, width as int, scale as int);
        }
        let mut remaining: i32 = 8 * self.target_bits - tell - 1;
        let want = encode_band_with_splits(
            band,
            self.lm as i32,
            b,
            &mut remaining,
            enc,
            width * scale,
        );
        self.balance = balance + self.alloc.pulses[band] + tell;
        self.band = band + 1;
        proof {
            assert(self@ =~= body.band_done(old(enc)@));
        }
        match want {
            Some((n, k)) => Some(ShapeRequest { lo: edge * scale, n, k }),
            None => None,
        }
    }

    /// Write bands until one wants a pulse vector, and ask for it; `None` when
    /// all bands are written. The vector goes out with
    /// [`encode_pulses`](crate::opus_pvq::encode_pulses).
    pub fn next_shape(&mut self, enc: &mut RangeEncoder) -> (r: Option<ShapeRequest>)
        requires
            old(self).wf(),
            old(enc).wf(),
            old(enc)@.used() <= USED_LIMIT + 0x10_0000,
        ensures
            final(self).wf(),
            final(enc).wf(),
            ({
                let (c, body, want) = old(self)@.advanced(old(enc)@);
                &&& final(enc)@ == c
                &&& final(self)@ == body
                &&& match r {
                    Some(q) => want == Some((q.lo as int, q.n as int, q.k as int)) && 0 < q.n <= 176
                        && 0 < q.k <= 128,
                    None => want is None,
                }
            }),
            final(enc)@.used() <= old(enc)@.used() + 97 * (final(self)@.band - old(self)@.band),
    {
        let ghost goal = self@.advanced(enc@);
        while self.band < NUM_BANDS_CELT
            invariant
                self.wf(),
                enc.wf(),
                goal == old(self)@.advanced(old(enc)@),
                goal == self@.advanced(enc@),
                0 <= old(self)@.band <= self@.band <= 21,
                old(enc)@.used() <= USED_LIMIT + 0x10_0000,
                enc@.used() <= old(enc)@.used() + 97 * (self@.band - old(self)@.band),
            decreases 21 - self.band,
        {
            let want = self.write_band(enc);
            match want {
                Some(q) => {
                    return Some(q);
                },
                None => {},
            }
        }
        None
    }

    /// Spend the bits left on finer energies, a zero bit each.
    pub fn end(self, enc: &mut RangeEncoder)
        requires
            self.wf(),
            old(enc).wf(),
            old(enc)@.used() <= USED_LIMIT + 0x10_0000,
        ensures
            final(enc).wf(),
            final(enc)@ == self@.refined(old(enc)@, 0, self@.start),
            final(enc)@.used() <= old(enc)@.used() + 42,
    {
        let ghost body = self@;
        let mut late: i32 = 0;
        let mut i: usize = self.start_band;
        while late < 2
            invariant
                self.wf(),
                body == self@,
                enc.wf(),
                0 <= late <= 2,
                self.start_band <= i <= 21,
                late == 2 ==> i == self.start_band,
                old(enc)@.used() <= USED_LIMIT + 0x10_0000,
                enc@.used() <= old(enc)@.used() + 21 * late + i - self.start_band,
                body.refined(old(enc)@, 0, body.start) == body.refined(enc@, late as int, i as int),
            decreases 2 - late, 21 - i,
        {
            if i >= NUM_BANDS_CELT {
                late = late + 1;
                i = self.start_band;
            } else {
                proof {
                    assert(body.alloc.fine[i as int] == self.alloc.fine_quant@[i as int]);
                    assert(body.alloc.late[i as int] == self.alloc.fine_priority@[i as int]);
                }
                if self.alloc.fine_quant[i] < MAX_FINE_BITS && self.alloc.fine_priority[i] == late {
                    if self.target_bits - enc.tell() <= 0 {
                        return;
                    }
                    enc.enc_bits(0, 1);
                }
                i = i + 1;
            }
        }
    }
}

/// A quotient is no larger than what is divided.
proof fn lemma_trunc_bound(a: int, d: int)
    requires
        1 <= d <= 3,
    ensures
        a >= 0 ==> 0 <= crate::int_math::trunc_quotient(a, d) <= a,
        a < 0 ==> a <= crate::int_math::trunc_quotient(a, d) <= 0,
{
    assert(d == 1 || d == 2 || d == 3);
}

/// Sizes of a scaled band.
proof fn lemma_band_size(edge: int, width: int, scale: int)
    requires
        0 <= edge <= 100,
        1 <= width <= 22,
        1 <= scale <= 8,
    ensures
        0 <= edge * scale <= 800,
        1 <= width * scale <= 176,
{
    assert(0 <= edge * scale <= 800 && 1 <= width * scale <= 176) by (nonlinear_arith)
        requires
            0 <= edge <= 100,
            1 <= width <= 22,
            1 <= scale <= 8,
    ;
}

/// `1 << lm` for the four frame sizes.
proof fn lemma_small_shift(lm: usize)
    requires
        lm <= 3,
    ensures
        1usize << lm == crate::celt_alloc::frame_scale(lm as int),
{
    assert(1usize << 0usize == 1 && 1usize << 1usize == 2 && 1usize << 2usize == 4 && 1usize
        << 3usize == 8) by (bit_vector);
}

/// A pulse vector as its index, where it has pulses and can be counted.
pub open spec fn with_pulses(c: Coder, y: Seq<int>) -> Coder {
    let total = crate::opus_pvq::v_count(y.len(), crate::opus_pvq::pulses(y));
    if crate::opus_pvq::pulses(y) == 0 || total > u64::MAX {
        c
    } else {
        c.uint(crate::opus_pvq::index(y), total)
    }
}

/// Bands `i` and up of a plain frame: each band's energy as one of 16 levels,
/// then its pulse vector.
pub open spec fn with_plain_bands(
    c: Coder,
    energies: Seq<u8>,
    shapes: Seq<Seq<i32>>,
    i: int,
) -> Coder
    decreases energies.len() - i,
{
    if i >= energies.len() {
        c
    } else {
        with_plain_bands(
            with_pulses(c.uint(energies[i] as nat, 16), crate::int_math::ints(shapes[i])),
            energies,
            shapes,
            i + 1,
        )
    }
}

/// Write the bands of a plain frame: the energy of each band as one of 16
/// levels, and its pulse vector where it has pulses.
pub fn encode_celt_bands(energies: &[u8], shapes: &[Vec<i32>], enc: &mut RangeEncoder)
    requires
        old(enc).wf(),
        old(enc)@.used() <= USED_LIMIT,
        energies@.len() == shapes@.len() <= NUM_BANDS,
        forall|i: int| 0 <= i < energies@.len() ==> #[trigger] energies@[i] < 16,
        forall|i: int|
            0 <= i < shapes@.len() ==> crate::opus_pvq::pulses(
                crate::int_math::ints(#[trigger] shapes@[i]@),
            ) + 2 <= usize::MAX,
    ensures
        final(enc).wf(),
        final(enc)@ == with_plain_bands(
            old(enc)@,
            energies@,
            Seq::new(shapes@.len(), |i: int| shapes@[i]@),
            0,
        ),
        final(enc)@.used() <= old(enc)@.used() + 128 * energies@.len(),
{
    let ghost ys = Seq::new(shapes@.len(), |i: int| shapes@[i]@);
    let mut i: usize = 0;
    while i < energies.len()
        invariant
            energies@.len() == shapes@.len() <= NUM_BANDS,
            ys == Seq::new(shapes@.len(), |i: int| shapes@[i]@),
            forall|i: int| 0 <= i < energies@.len() ==> #[trigger] energies@[i] < 16,
            forall|i: int|
                0 <= i < shapes@.len() ==> crate::opus_pvq::pulses(
                    crate::int_math::ints(#[trigger] shapes@[i]@),
                ) + 2 <= usize::MAX,
            i <= energies@.len(),
            enc.wf(),
            old(enc)@.used() <= USED_LIMIT,
            enc@.used() <= old(enc)@.used() + 128 * i,
            with_plain_bands(enc@, energies@, ys, i as int) == with_plain_bands(
                old(enc)@,
                energies@,
                ys,
                0,
            ),
        decreases energies@.len() - i,
    {
        proof {
            assert(energies@[i as int] < 16);
            assert(ys[i as int] == shapes@[i as int]@);
            assert(with_plain_bands(enc@, energies@, ys, i as int) == with_plain_bands(
                with_pulses(
                    enc@.uint(energies@[i as int] as nat, 16),
                    crate::int_math::ints(ys[i as int]),
                ),
                energies@,
                ys,
                i + 1,
            ));
        }
        enc.encode_uint(energies[i] as u32, 16);
        encode_pulses(enc, shapes[i].as_slice());
        i = i + 1;
    }
}

/// The bits that each band of a plain frame may use at a bit rate: an even
/// share of a 960-sample frame, at least one. Products that do not fit 32 bits
/// stop at the largest number that does.
pub open spec fn plain_band_bits(kbps: int, sample_rate: int) -> int {
    let limit = u32::MAX as int;
    let samples = crate::int_math::min_of(kbps * 960, limit);
    let frame = crate::int_math::min_of(samples * 1000, limit) / crate::int_math::max_of(
        sample_rate,
        1,
    );
    crate::int_math::max_of(frame / 21, 1)
}

/// The bits that each band of a plain frame may use.
pub fn bits_per_band(target_bitrate_kbps: u32, sample_rate: u32) -> (r: u32)
    ensures
        r == plain_band_bits(target_bitrate_kbps as int, sample_rate as int),
        r >= 1,
{
    let limit: u64 = u32::MAX as u64;
    let mut bits: u64 = target_bitrate_kbps as u64 * 960;
    if bits > limit {
        bits = limit;
    }
    bits = bits * 1000;
    if bits > limit {
        bits = limit;
    }
    let rate: u64 = if sample_rate > 1 {
        sample_rate as u64
    } else {
        1
    };
    proof {
        vstd::arithmetic::div_mod::lemma_div_is_ordered_by_denominator(
            bits as int,
            1,
            rate as int,
        );
        vstd::arithmetic::div_mod::lemma_div_pos_is_pos(bits as int, rate as int);
    }
    let share: u32 = (bits / rate / 21) as u32;
    if share < 1 {
        1
    } else {
        share
    }
}

/// TOC byte of a fullband CELT-only 20 ms mono packet with one frame.
pub const TOC_CELT_FB_20MS_MONO: u8 = 0xF8;

/// TOC byte of a fullband hybrid 20 ms mono packet with one frame.
pub const TOC_HYBRID_FB_20MS_MONO: u8 = 0x78;

/// Size of the frame in a CELT-only packet, in bytes.
pub const CELT_FRAME_BYTES: usize = 64;

/// A CELT-only packet: its TOC byte and the frame.
pub open spec fn celt_bytes(c: Coder) -> Seq<u8> {
    seq![TOC_CELT_FB_20MS_MONO] + c.packet_of_size(CELT_FRAME_BYTES as nat)
}

/// A hybrid packet: its TOC byte and the frame.
pub open spec fn hybrid_bytes(c: Coder) -> Seq<u8> {
    seq![TOC_HYBRID_FB_20MS_MONO] + c.packet()
}

/// The finished CELT-only packet: its TOC byte and the frame, which has 64 bytes
/// if no more than their bits are used.
pub fn celt_packet(enc: RangeEncoder) -> (r: Vec<u8>)
    requires
        enc.wf(),
        enc.room(1),
    ensures
        r@ == celt_bytes(enc@),
        r@.len() >= 65,
        enc@.tell() <= 8 * CELT_FRAME_BYTES ==> r@.len() == 65,
{
    let mut packet: Vec<u8> = Vec::new();
    packet.push(TOC_CELT_FB_20MS_MONO);
    proof {
        enc.lemma_wf_valid();
        crate::range_laws::law_packets_hold_the_message(enc@, CELT_FRAME_BYTES as nat);
        if enc@.tell() <= 8 * CELT_FRAME_BYTES {
            crate::range_laws::law_messages_that_fit_fill_their_frame(
                enc@,
                CELT_FRAME_BYTES as nat,
            );
        }
    }
    let mut frame: Vec<u8> = enc.finish_to_size(CELT_FRAME_BYTES);
    packet.append(&mut frame);
    packet
}

/// The finished hybrid packet: its TOC byte and the frame that the two layers
/// share.
pub fn hybrid_packet(enc: RangeEncoder) -> (r: Vec<u8>)
    requires
        enc.wf(),
        enc.room(1),
    ensures
        r@ == hybrid_bytes(enc@),
{
    let mut packet: Vec<u8> = Vec::new();
    packet.push(TOC_HYBRID_FB_20MS_MONO);
    let mut frame: Vec<u8> = enc.finish();
    packet.append(&mut frame);
    packet
}

} // verus!
