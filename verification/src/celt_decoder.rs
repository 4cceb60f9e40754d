//! The decoder of a mono CELT frame as arithmetic: what each step of a decoder finds
//! in the bytes of a frame, in the order of RFC 6716, section 4.3.
//!
//! Every function takes the state of the range decoder and gives what is read and the
//! state behind it. `total` is the size of the frame in bits.
use crate::celt_alloc::Allocation;
use crate::celt_decoder_shares;
use crate::celt_decoder_shares::Terms;
use crate::celt_pulses;
use crate::int_math;
use crate::opus_celt_tables::{
    CACHE_BITS_50, CACHE_INDEX_50, E_PROB_INTRA, LOG_N_400, SMALL_ENERGY_ICDF, SPREAD_ICDF, TF_SELECT_TABLE, TRIM_ICDF,
};
use crate::opus_laplace;
use crate::opus_pvq;
use crate::radix;
use crate::range_laws::Decoder;
use crate::range_model::{log2_eighths, EC_UINT_BITS};
use vstd::arithmetic::power2::*;
use vstd::prelude::*;

verus! {

/// The number of bits used so far.
pub open spec fn tell(d: Decoder) -> int {
    33 + 8 * d.digits + d.raw - radix::bit_len(d.rng)
}

/// The number of bits used so far in eighths.
pub open spec fn tell_frac(d: Decoder) -> int {
    8 * (33 + 8 * d.digits + d.raw) - log2_eighths(d.rng)
}

/// A flag that is there or not.
pub open spec fn flag(d: Decoder, there: bool, logp: nat, data: Seq<u8>) -> (
    Option<bool>,
    Decoder,
) {
    if there {
        (Some(d.reads_bit(logp)), d.accept_bit(logp, data))
    } else {
        (None, d)
    }
}

/// The first symbol from `s` on whose share reaches up to the coded number.
pub open spec fn first_symbol(d: Decoder, icdf: Seq<u8>, ftb: nat, s: int) -> int
    decreases icdf.len() - s,
{
    if s + 1 >= icdf.len() || (d.rng / pow2(ftb)) * icdf[s] as nat <= d.val {
        s
    } else {
        first_symbol(d, icdf, ftb, s + 1)
    }
}

/// A symbol of an inverse cumulative table.
pub open spec fn symbol(d: Decoder, icdf: Seq<u8>, ftb: nat, data: Seq<u8>) -> (int, Decoder) {
    let s = first_symbol(d, icdf, ftb, 0);
    (s, d.accept_icdf(s, icdf, ftb, data))
}

/// A number of `n` raw bits.
pub open spec fn raw(d: Decoder, n: nat, data: Seq<u8>) -> (nat, Decoder) {
    (d.reads_raw(n, data), d.accept_raw(n))
}

/// One of `ft` equally likely integers.
pub open spec fn uint(d: Decoder, ft: nat, data: Seq<u8>) -> (nat, Decoder) {
    let n = radix::bit_len((ft - 1) as nat);
    if n > EC_UINT_BITS {
        let low = (n - EC_UINT_BITS) as nat;
        let total = ((ft - 1) as nat) / pow2(low) + 1;
        let hi = d.frequency(total) as nat;
        (
            hi * pow2(low) + d.reads_raw(low, data),
            d.accept(hi, hi + 1, total, data).accept_raw(low),
        )
    } else {
        let v = d.frequency(ft) as nat;
        (v, d.accept(v, v + 1, ft, data))
    }
}

/// The flags at the front of a frame. A flag that is not there is `None`.
pub struct Flags {
    /// The frame is silent.
    pub silence: Option<bool>,
    /// A post-filter follows.
    pub post_filter: Option<bool>,
    /// The frame has short blocks.
    pub transient: Option<bool>,
    /// The energies do not depend on the frame before.
    pub intra: Option<bool>,
}

/// The flags: silence where `silence` says that there is one, the post-filter only if
/// the first band is coded, a transient, intra energies.
pub open spec fn flags(
    d: Decoder,
    start: int,
    silence: bool,
    total: int,
    lm: int,
    data: Seq<u8>,
) -> (Flags, Decoder) {
    let (f1, d1) = flag(d, silence, 15, data);
    let (f2, d2) = flag(d1, start == 0 && tell(d1) + 16 <= total, 1, data);
    let (f3, d3) = flag(d2, lm > 0 && tell(d2) + 3 <= total, 3, data);
    let (f4, d4) = flag(d3, tell(d3) + 3 <= total, 3, data);
    (Flags { silence: f1, post_filter: f2, transient: f3, intra: f4 }, d4)
}

/// The probability of energy zero of band `i`, out of `2^15`.
pub open spec fn zero_frequency(lm: int, i: int) -> int {
    E_PROB_INTRA[42 * lm + 2 * i] * 128
}

/// The decay of the energies of band `i`.
pub open spec fn energy_decay(lm: int, i: int) -> int {
    E_PROB_INTRA[42 * lm + 2 * i + 1] * 64
}

/// The coarse energy of band `i`: a Laplace symbol, or less where few bits are left.
pub open spec fn energy(d: Decoder, i: int, lm: int, total: int, data: Seq<u8>) -> (int, Decoder) {
    let left = total - tell(d);
    if left >= 15 {
        let s = opus_laplace::decoded(
            d.frequency(32768),
            zero_frequency(lm, i),
            energy_decay(lm, i),
        );
        (s.value, d.accept(s.fl as nat, (s.fl + s.width) as nat, 32768, data))
    } else if left >= 2 {
        let (s, d1) = symbol(d, SMALL_ENERGY_ICDF@, 2, data);
        (
            if s == 0 {
                0
            } else if s == 1 {
                -1
            } else {
                1
            },
            d1,
        )
    } else if left >= 1 {
        (
            if d.reads_bit(1) {
                -1
            } else {
                0
            },
            d.accept_bit(1, data),
        )
    } else {
        (-1, d)
    }
}

/// Some number makes a decoder read energy `v` of band `i` with `left` bits left.
pub open spec fn can_be_read(v: int, left: int, lm: int, i: int) -> bool {
    if left >= 15 {
        exists|fm: int|
            0 <= fm < 32768 && (#[trigger] opus_laplace::decoded(
                fm,
                zero_frequency(lm, i),
                energy_decay(lm, i),
            )).value == v
    } else if left >= 2 {
        -1 <= v <= 1
    } else if left >= 1 {
        -1 <= v <= 0
    } else {
        v == -1
    }
}

/// How far two numbers are apart.
pub open spec fn distance(a: int, b: int) -> int {
    if a < b {
        b - a
    } else {
        a - b
    }
}

/// Of all energies that can be read, `e` comes closest to `q`.
pub open spec fn is_nearest_energy(e: int, q: int, left: int, lm: int, i: int) -> bool {
    &&& can_be_read(e, left, lm, i)
    &&& forall|v: int|
        #[trigger] can_be_read(v, left, lm, i) ==> distance(e, q) <= distance(v, q)
}

/// The coarse energies of bands `i` and up.
pub open spec fn energies(d: Decoder, i: int, lm: int, total: int, data: Seq<u8>) -> (
    Seq<int>,
    Decoder,
)
    decreases 21 - i,
{
    if i >= 21 {
        (Seq::empty(), d)
    } else {
        let (e, d1) = energy(d, i, lm, total, data);
        let (rest, d2) = energies(d1, i + 1, lm, total, data);
        (seq![e] + rest, d2)
    }
}

/// From band `i` on, each energy read comes as close as can be to that of `q`.
pub open spec fn energies_are_those_of(
    q: Seq<int>,
    d: Decoder,
    i: int,
    lm: int,
    total: int,
    data: Seq<u8>,
) -> bool
    decreases 21 - i,
{
    i >= 21 || ({
        let (e, d1) = energy(d, i, lm, total, data);
        &&& is_nearest_energy(e, q[i], total - tell(d), lm, i)
        &&& energies_are_those_of(q, d1, i + 1, lm, total, data)
    })
}

/// Whether each of `n` bands has another time-frequency resolution: a flag says where
/// that changes, with probability `2^-logp` for the first and `2^-next` for the others.
pub open spec fn tf_changes(
    d: Decoder,
    n: int,
    logp: int,
    next: int,
    changed: bool,
    budget: int,
    data: Seq<u8>,
) -> (Seq<bool>, Decoder)
    decreases n,
{
    if n <= 0 {
        (Seq::empty(), d)
    } else {
        let (f, d1) = flag(d, tell(d) + logp <= budget, logp as nat, data);
        let now = changed != (f == Some(true));
        let (rest, d2) = tf_changes(d1, n - 1, next, next, now, budget, data);
        (seq![now] + rest, d2)
    }
}

/// The time-frequency resolution of the bands from `start`, and the flag that selects
/// a table where it makes a difference.
pub open spec fn tf(
    d: Decoder,
    start: int,
    lm: int,
    transient: bool,
    total: int,
    data: Seq<u8>,
) -> (Seq<bool>, Option<bool>, Decoder) {
    let (logp, next, row) = if transient {
        (2int, 4int, 8 * lm + 4)
    } else {
        (4int, 5int, 8 * lm)
    };
    let reserved = lm > 0 && tell(d) + logp + 1 <= total;
    let budget = if reserved {
        total - 1
    } else {
        total
    };
    let (changes, d1) = tf_changes(d, 21 - start, logp, next, false, budget, data);
    let any = if changes.contains(true) {
        1int
    } else {
        0
    };
    let (select, d2) = flag(
        d1,
        reserved && TF_SELECT_TABLE[row + any] != TF_SELECT_TABLE[row + 2 + any],
        1,
        data,
    );
    (changes, select, d2)
}

/// The boost of one band, which has `boost` so far: steps of `quanta` up to `cap`.
pub open spec fn boost(
    d: Decoder,
    logp: int,
    boost: int,
    cap: int,
    quanta: int,
    total_frac: int,
    data: Seq<u8>,
) -> (int, int, Decoder)
    decreases
            (if boost < cap {
                cap - boost
            } else {
                0
            }),
{
    if quanta > 0 && boost < cap && tell_frac(d) + 8 * logp < total_frac {
        let d1 = d.accept_bit(logp as nat, data);
        if d.reads_bit(logp as nat) {
            self::boost(d1, 1, boost + quanta, cap, quanta, total_frac - quanta, data)
        } else {
            (boost, total_frac, d1)
        }
    } else {
        (boost, total_frac, d)
    }
}

/// The boosts of bands `i` and up, and what they leave of the frame, in eighths.
pub open spec fn boosts(
    d: Decoder,
    i: int,
    lm: int,
    logp: int,
    total_frac: int,
    data: Seq<u8>,
) -> (Seq<int>, int, Decoder)
    decreases 21 - i,
{
    if i >= 21 {
        (Seq::empty(), total_frac, d)
    } else {
        let width = celt_decoder_shares::size(i, lm);
        let quanta = int_math::min_of(8 * width, int_math::max_of(48, width));
        let (b, left, d1) = boost(
            d,
            logp,
            0,
            celt_decoder_shares::most(i, lm),
            quanta,
            total_frac,
            data,
        );
        let next = if b > 0 {
            int_math::max_of(2, logp - 1)
        } else {
            logp
        };
        let (rest, left2, d2) = boosts(d1, i + 1, lm, next, left, data);
        (seq![b] + rest, left2, d2)
    }
}

/// The fine energies of bands `i` and up, where band `j` has `fine[j]` bits.
pub open spec fn fine_energies(d: Decoder, fine: Seq<int>, i: int, data: Seq<u8>) -> (
    Seq<nat>,
    Decoder,
)
    decreases 21 - i,
{
    if i >= 21 {
        (Seq::empty(), d)
    } else {
        let (e, d1) = if fine[i] > 0 {
            raw(d, fine[i] as nat, data)
        } else {
            (0, d)
        };
        let (rest, d2) = fine_energies(d1, fine, i + 1, data);
        (seq![e] + rest, d2)
    }
}

/// Everything in front of the allocation.
pub struct SideInfo {
    /// The flags.
    pub flags: Flags,
    /// The coarse energies.
    pub energies: Seq<int>,
    /// Which bands change their time-frequency resolution.
    pub tf: Seq<bool>,
    /// Which table those changes are from.
    pub tf_select: Option<bool>,
    /// The spreading decision.
    pub spread: Option<int>,
    /// The boosts.
    pub boosts: Seq<int>,
    /// The allocation trim.
    pub trim: int,
}

/// The spreading decision, if there is room for it.
pub open spec fn spread(d: Decoder, total: int, data: Seq<u8>) -> (Option<int>, Decoder) {
    if tell(d) + 4 <= total {
        let (s, d1) = symbol(d, SPREAD_ICDF@, 5, data);
        (Some(s), d1)
    } else {
        (None, d)
    }
}

/// The allocation trim, 5 if there is no room for it in `left` eighths.
pub open spec fn trim(d: Decoder, left: int, data: Seq<u8>) -> (int, Decoder) {
    if tell_frac(d) + 48 <= left {
        symbol(d, TRIM_ICDF@, 7, data)
    } else {
        (5, d)
    }
}

/// The side information of a frame.
pub open spec fn side_info(
    d: Decoder,
    start: int,
    silence: bool,
    total: int,
    lm: int,
    data: Seq<u8>,
) -> (SideInfo, Decoder) {
    let (f, d1) = flags(d, start, silence, total, lm, data);
    let (e, d2) = energies(d1, start, lm, total, data);
    let (changes, select, d3) = tf(d2, start, lm, f.transient == Some(true), total, data);
    let (spread, d4) = spread(d3, total, data);
    let (b, left, d5) = boosts(d4, start, lm, 6, 8 * total, data);
    let (trim, d6) = trim(d5, left, data);
    (
        SideInfo {
            flags: f,
            energies: e,
            tf: changes,
            tf_select: select,
            spread,
            boosts: b,
            trim,
        },
        d6,
    )
}

/// What the shares of a frame depend on when `used` eighths are behind.
pub open spec fn terms(
    boosts: Seq<int>,
    trim: int,
    start: int,
    total: int,
    lm: int,
    used: int,
) -> Terms {
    celt_decoder_shares::terms(
        Seq::new(
            21,
            |i: int|
                if i < start {
                    0
                } else {
                    boosts[i - start]
                },
        ),
        Seq::new(21, |i: int| celt_decoder_shares::most(i, lm)),
        trim,
        lm,
        start,
        8 * total - used - 1,
    )
}

/// Everything in front of the band shapes.
pub struct Front {
    /// What comes in front of the allocation.
    pub side: SideInfo,
    /// The allocation.
    pub alloc: Allocation,
    /// The fine energies.
    pub fine: Seq<nat>,
}

/// The front of a frame.
pub open spec fn front(
    d: Decoder,
    start: int,
    silence: bool,
    total: int,
    lm: int,
    data: Seq<u8>,
) -> (Front, Decoder) {
    let (side, d1) = side_info(d, start, silence, total, lm, data);
    let (alloc, d2) = celt_decoder_shares::shares(
        d1,
        terms(side.boosts, side.trim, start, total, lm, tell_frac(d1)),
        data,
    );
    let (fine, d3) = fine_energies(d2, alloc.fine, start, data);
    (Front { side, alloc, fine }, d3)
}

/// What is read of one band.
pub struct Band {
    /// The sign of a single coefficient.
    pub sign: Option<nat>,
    /// The angles of the splits, 0 for all in the lower half.
    pub angles: Seq<int>,
    /// The pulse vector.
    pub shape: Option<Seq<int>>,
}

/// The largest pseudo pulse count up to `q` that `rem` eighths pay for.
pub open spec fn paid_for(band: int, lm: int, q: int, rem: int) -> int
    decreases q,
{
    if q <= 0 || celt_pulses::pulse_cost(band, lm, q) <= rem {
        q
    } else {
        paid_for(band, lm, q - 1, rem)
    }
}

/// What the costliest vector of a band costs at level `lm`, as tabulated.
pub open spec fn costliest(band: int, lm: int) -> int {
    let row = CACHE_INDEX_50[21 * (lm + 1) + band] as int;
    CACHE_BITS_50[row + CACHE_BITS_50[row]] as int
}

/// A stretch is split if it has three coefficients or more and one and a half bits more
/// than its costliest vector takes, down to level 0.
pub open spec fn is_split(band: int, lm: int, n: int, b: int) -> bool {
    lm >= 0 && n >= 3 && b >= costliest(band, lm) + 13
}

/// `2^(14 + i / 8)`, rounded.
pub open spec fn exp2_eighths(i: int) -> int {
    if i == 0 {
        16384
    } else if i == 1 {
        17866
    } else if i == 2 {
        19483
    } else if i == 3 {
        21247
    } else if i == 4 {
        23170
    } else if i == 5 {
        25267
    } else if i == 6 {
        27554
    } else {
        30048
    }
}

/// The steps of the angle between two halves of `n` coefficients of a band that has `b`
/// eighths before it is split at level `lm`.
pub open spec fn steps_of_angle(band: int, lm: int, n: int, b: int) -> int {
    let cap = LOG_N_400[band] + 8 * (lm - 1);
    let offset = cap / 2 - 4;
    let per = int_math::trunc_quotient(b + (2 * n - 1) * offset, 2 * n - 1);
    let q = int_math::min_of(int_math::min_of(per, b - cap - 32), 64);
    if q < 4 {
        1
    } else {
        let steps = exp2_eighths(q % 8) / pow2((14 - q / 8) as nat) as int;
        int_math::min_of(2 * ((steps + 1) / 2), 256)
    }
}

/// A stretch of `n` coefficients of a band with `b` eighths, of `rem` in the frame. With
/// angle 0 all bits go to the lower half, and the upper one has nothing to read.
pub open spec fn stretch(
    d: Decoder,
    band: int,
    lm: int,
    b: int,
    rem: int,
    n: int,
    data: Seq<u8>,
) -> (Band, Decoder)
    decreases lm + 1,
    when 0 <= lm + 1
{
    if n == 1 {
        if rem >= 8 {
            let (s, d1) = raw(d, 1, data);
            (Band { sign: Some(s), angles: Seq::empty(), shape: None }, d1)
        } else {
            (Band { sign: None, angles: Seq::empty(), shape: None }, d)
        }
    } else if is_split(band, lm, n, b) {
        let steps = steps_of_angle(band, lm, n / 2, b);
        if steps == 1 {
            stretch(d, band, lm - 1, b, rem, n / 2, data)
        } else {
            let ft = ((steps / 2 + 1) * (steps / 2 + 1)) as nat;
            let angle = d.frequency(ft);
            let d1 = d.accept(0, 1, ft, data);
            let cost = tell_frac(d1) - tell_frac(d);
            let (rest, d2) = stretch(d1, band, lm - 1, b - cost, rem - cost, n / 2, data);
            (Band { angles: seq![angle] + rest.angles, ..rest }, d2)
        }
    } else {
        let q = celt_pulses::nearest_pulses(band, lm, int_math::max_of(b, 0));
        let k = celt_pulses::real_pulses(paid_for(band, lm, q, rem));
        if k > 0 {
            let (i, d1) = uint(d, opus_pvq::v_count(n as nat, k as nat), data);
            (
                Band {
                    sign: None,
                    angles: Seq::empty(),
                    shape: Some(opus_pvq::vector(n as nat, k as nat, i as int)),
                },
                d1,
            )
        } else {
            (Band { sign: None, angles: Seq::empty(), shape: None }, d)
        }
    }
}

/// The balance as band `i` sees it when `used` eighths are behind.
pub open spec fn balance_at(i: int, balance: int, start: int, used: int) -> int {
    if i == start {
        balance
    } else {
        balance - used
    }
}

/// What band `i` may spend.
pub open spec fn band_share(i: int, balance: int, alloc: Allocation, total: int, used: int) -> int {
    if i < alloc.coded {
        let part = int_math::trunc_quotient(balance, int_math::min_of(3, alloc.coded - i));
        int_math::max_of(
            0,
            int_math::min_of(16383, int_math::min_of(8 * total - used, alloc.bits[i] + part)),
        )
    } else {
        0
    }
}

/// Bands `i` and up, with the balance that earlier bands left.
pub open spec fn bands(
    d: Decoder,
    i: int,
    balance: int,
    alloc: Allocation,
    start: int,
    total: int,
    lm: int,
    data: Seq<u8>,
) -> (Seq<Band>, Decoder)
    decreases 21 - i,
{
    if i >= 21 {
        (Seq::empty(), d)
    } else {
        let used = tell_frac(d);
        let now = balance_at(i, balance, start, used);
        let (band, d1) = stretch(
            d,
            i,
            lm,
            band_share(i, now, alloc, total, used),
            8 * total - used - 1,
            celt_decoder_shares::size(i, lm),
            data,
        );
        let (rest, d2) = bands(
            d1,
            i + 1,
            now + alloc.bits[i] + used,
            alloc,
            start,
            total,
            lm,
            data,
        );
        (seq![band] + rest, d2)
    }
}

/// The pulse vectors of some bands, in order.
pub open spec fn shapes_of(bands: Seq<Band>) -> Seq<Seq<int>>
    decreases bands.len(),
{
    if bands.len() == 0 {
        Seq::empty()
    } else {
        let rest = shapes_of(bands.skip(1));
        match bands[0].shape {
            Some(y) => seq![y] + rest,
            None => rest,
        }
    }
}

/// The bits that refine the energies at the end, while `left` are left: first the bands
/// that come early, then those that come late.
pub open spec fn refinements(
    d: Decoder,
    alloc: Allocation,
    start: int,
    left: int,
    late: int,
    i: int,
    data: Seq<u8>,
) -> (Seq<nat>, Decoder)
    decreases 2 - late, 21 - i,
{
    if late >= 2 {
        (Seq::empty(), d)
    } else if i >= 21 || left < 1 {
        refinements(d, alloc, start, left, late + 1, start, data)
    } else if alloc.fine[i] >= 8 || alloc.late[i] != late {
        refinements(d, alloc, start, left, late, i + 1, data)
    } else {
        let (e, d1) = raw(d, 1, data);
        let (rest, d2) = refinements(d1, alloc, start, left - 1, late, i + 1, data);
        (seq![e] + rest, d2)
    }
}

/// A whole frame.
pub struct Frame {
    /// What comes in front of the shapes.
    pub front: Front,
    /// The bands.
    pub bands: Seq<Band>,
    /// The bits at the end.
    pub refinements: Seq<nat>,
    /// The range that the decoder ends with.
    pub final_range: nat,
}

/// The frame that a decoder in state `d` finds in `data`.
pub open spec fn frame(
    d: Decoder,
    start: int,
    silence: bool,
    total: int,
    lm: int,
    data: Seq<u8>,
) -> Frame {
    let (f, d1) = front(d, start, silence, total, lm, data);
    let (b, d2) = bands(d1, start, f.alloc.balance, f.alloc, start, total, lm, data);
    let (r, d3) = refinements(d2, f.alloc, start, total - tell(d2), 0, start, data);
    Frame { front: f, bands: b, refinements: r, final_range: d3.rng }
}

/// A band of a plain frame: its energy level, and a vector of `n` entries and `k` pulses
/// if it has pulses.
pub open spec fn plain_band(d: Decoder, n: nat, k: nat, data: Seq<u8>) -> (
    nat,
    Option<Seq<int>>,
    Decoder,
) {
    let (e, d1) = uint(d, 16, data);
    if k == 0 {
        (e, None, d1)
    } else {
        let (i, d2) = uint(d1, opus_pvq::v_count(n, k), data);
        (e, Some(opus_pvq::vector(n, k, i as int)), d2)
    }
}

/// A decoder finds the bands of a plain frame from band `i` on: in each band the
/// energy, and the vector if it has pulses.
pub open spec fn finds_plain_bands(
    d: Decoder,
    energies: Seq<u8>,
    shapes: Seq<Seq<i32>>,
    i: int,
    data: Seq<u8>,
) -> bool
    decreases energies.len() - i,
{
    i >= energies.len() || ({
        let y = int_math::ints(shapes[i]);
        let (e, found, d1) = plain_band(d, y.len(), opus_pvq::pulses(y), data);
        &&& e == energies[i]
        &&& found == (if opus_pvq::pulses(y) == 0 {
            None
        } else {
            Some(y)
        })
        &&& finds_plain_bands(d1, energies, shapes, i + 1, data)
    })
}

} // verus!
