//! The encoder shares out the bits of a frame exactly as a decoder does.
use crate::celt_alloc;
use crate::celt_alloc::{Demand, Kept};
use crate::celt_alloc_laws;
use crate::celt_decoder_shares;
use crate::celt_decoder_shares::Terms;
use crate::int_math;
use crate::opus_celt_tables::{BAND_ALLOCATION, LOG_N_400};
use crate::range_laws;
use crate::range_laws::{in_step, Decoder, Item};
use crate::range_model;
use crate::range_model::Coder;
use vstd::prelude::*;

verus! {

/// What a decoder goes by for the demand `d`.
pub open spec fn terms_of(d: Demand) -> Terms {
    celt_decoder_shares::terms(d.offsets, d.cap, d.trim, d.lm, d.start, d.total)
}

/// Sizes, caps, thresholds and tilts are the same on both sides.
pub proof fn lemma_same_numbers(j: int, trim: int, lm: int)
    requires
        0 <= j < 21,
        0 <= lm <= 3,
    ensures
        celt_decoder_shares::size(j, lm) == celt_alloc::width(j) * celt_alloc::frame_scale(lm),
        celt_decoder_shares::most(j, lm) == celt_alloc::band_cap(j, lm),
        celt_decoder_shares::least(j, lm) == celt_alloc::threshold(j, lm),
        celt_decoder_shares::tilt(j, trim, lm) == celt_alloc::trim_offset(j, trim, lm),
{
    let (w, s, t, h) = (
        celt_alloc::width(j),
        celt_alloc::frame_scale(lm),
        trim - 5 - lm,
        20 - j,
    );
    assert(w * t * h * (8 * s) == (w * s) * t * h * 8) by (nonlinear_arith);
    assert(3 * w * s == 3 * (w * s)) by (nonlinear_arith);
}

/// A row of the table is the same on both sides.
proof fn lemma_same_row(row: int, j: int, trim: int, lm: int)
    requires
        0 <= row <= 10,
        0 <= j < 21,
        0 <= lm <= 3,
    ensures
        celt_decoder_shares::in_row(row, j, trim, lm) == celt_alloc::tilted(
            celt_alloc::row_bits(row, j, lm),
            celt_alloc::trim_offset(j, trim, lm),
        ),
{
    lemma_same_numbers(j, trim, lm);
    let (w, s) = (celt_alloc::width(j), celt_alloc::frame_scale(lm));
    let a = BAND_ALLOCATION[21 * row + j] as int;
    assert((w * s) * a == w * (a * s)) by (nonlinear_arith);
}

/// Costs are the same on both sides.
proof fn lemma_same_costs(v: Seq<int>, thresh: Seq<int>, cap: Seq<int>, lm: int, j: int)
    requires
        0 <= j <= 21,
        v.len() == 21,
        forall|i: int|
            0 <= i < 21 ==> #[trigger] thresh[i] == celt_decoder_shares::least(i, lm),
    ensures
        celt_decoder_shares::costs(v, cap, lm, j) == (
            celt_alloc::cost_from(v, thresh, cap, 8, j),
            celt_alloc::active(v, thresh, j),
        ),
    decreases 21 - j,
{
    if j < 21 {
        lemma_same_costs(v, thresh, cap, lm, j + 1);
        assert(thresh[j] == celt_decoder_shares::least(j, lm));
    }
}

/// A demand of a mono frame.
pub open spec fn is_mono_demand(d: Demand) -> bool {
    &&& 0 <= d.start < 21
    &&& 0 <= d.lm <= 3
}

proof fn lemma_same_thresholds(d: Demand)
    requires
        is_mono_demand(d),
    ensures
        forall|i: int|
            0 <= i < 21 ==> #[trigger] d.thresholds()[i] == celt_decoder_shares::least(i, d.lm),
{
    assert forall|i: int| 0 <= i < 21 implies #[trigger] d.thresholds()[i]
        == celt_decoder_shares::least(i, d.lm) by {
        lemma_same_numbers(i, d.trim, d.lm);
    }
}

proof fn lemma_same_search(d: Demand, lo: int, hi: int)
    requires
        is_mono_demand(d),
        1 <= lo,
        hi <= 10,
    ensures
        terms_of(d).row(lo, hi) == d.row_search(lo, hi),
        lo - 1 <= d.row_search(lo, hi),
        lo <= hi + 1 ==> d.row_search(lo, hi) <= hi,
    decreases hi - lo + 1,
{
    if lo <= hi {
        let mid = (lo + hi) / 2;
        lemma_same_thresholds(d);
        assert(terms_of(d).asked(mid) =~= d.row(mid)) by {
            assert forall|j: int| 0 <= j < 21 implies #[trigger] terms_of(d).asked(mid)[j] == d.row(
                mid,
            )[j] by {
                lemma_same_row(mid, j, d.trim, d.lm);
            }
        }
        lemma_same_costs(d.row(mid), d.thresholds(), d.cap, d.lm, d.start);
        lemma_same_search(d, lo, mid - 1);
        lemma_same_search(d, mid + 1, hi);
    }
}

/// The two ends are the same on both sides.
proof fn lemma_same_ends(d: Demand, row: int, f: int)
    requires
        is_mono_demand(d),
        row == d.row_search(1, 10),
    ensures
        0 <= row <= 10,
        terms_of(d).between(row, f) == d.interp().levels(f),
{
    let t = terms_of(d);
    lemma_same_search(d, 1, 10);
    assert forall|j: int| 0 <= j < 21 implies #[trigger] t.between(row, f)[j] == d.interp().levels(
        f,
    )[j] by {
        lemma_same_numbers(j, d.trim, d.lm);
        lemma_same_row(row, j, d.trim, d.lm);
        if row + 1 <= 10 {
            lemma_same_row(row + 1, j, d.trim, d.lm);
        }
        assert(t.lower(row, j) == d.interp().bits1[j]);
        assert(t.more(row, j) == d.interp().bits2[j]);
    }
    assert(t.between(row, f) =~= d.interp().levels(f));
}

proof fn lemma_same_fraction(d: Demand, row: int, lo: int, hi: int, steps: nat)
    requires
        is_mono_demand(d),
        row == d.row_search(1, 10),
    ensures
        terms_of(d).part(row, lo, hi, steps) == d.interp().fraction(lo, hi, steps),
    decreases steps,
{
    if steps > 0 {
        let mid = (lo + hi) / 2;
        lemma_same_ends(d, row, mid);
        lemma_same_thresholds(d);
        lemma_same_costs(d.interp().levels(mid), d.thresholds(), d.cap, d.lm, d.start);
        lemma_same_fraction(d, row, lo, mid, (steps - 1) as nat);
        lemma_same_fraction(d, row, mid, hi, (steps - 1) as nat);
    }
}

proof fn lemma_same_first_shares(d: Demand, row: int, f: int)
    requires
        is_mono_demand(d),
        row == d.row_search(1, 10),
    ensures
        terms_of(d).first_shares(row, f) == d.interp().settled(f),
{
    let t = terms_of(d);
    let v = d.interp().levels(f);
    lemma_same_ends(d, row, f);
    lemma_same_thresholds(d);
    assert forall|j: int| 0 <= j < 21 implies #[trigger] t.first_shares(row, f)[j]
        == d.interp().settled(f)[j] by {
        lemma_same_costs(v, d.thresholds(), d.cap, d.lm, j);
    }
    assert(t.first_shares(row, f) =~= d.interp().settled(f));
}

proof fn lemma_same_stays(d: Demand, j: int)
    ensures
        terms_of(d).stays(j) == d.last_boosted(j),
        d.start <= d.last_boosted(j),
    decreases j - d.start,
{
    if j > d.start {
        lemma_same_stays(d, j - 1);
    }
}

/// The bit that ends the dropping.
spec fn told(c: Coder, flagged: bool) -> Coder {
    if flagged {
        c.bit(true, 1)
    } else {
        c
    }
}

/// A decoder drops the bands that the encoder drops.
proof fn lemma_same_drops(
    d: Demand,
    c: Coder,
    dec: Decoder,
    coded: int,
    sum: int,
    shares: Seq<int>,
    data: Seq<u8>,
)
    requires
        is_mono_demand(d),
        c.valid(),
        in_step(c, dec, data),
        coded <= 21,
        ({
            let k = d.interp().kept(coded, sum, shares, 0);
            &&& range_laws::inside(told(c, k.flagged), data)
            &&& range_laws::raw_inside(told(c, k.flagged), data)
        }),
    ensures
        ({
            let k = d.interp().kept(coded, sum, shares, 0);
            let (r_coded, r_sum, r_shares, r_told, r_dec) = terms_of(d).drop_bands(
                dec,
                coded,
                sum,
                shares,
                data,
            );
            &&& r_coded == k.coded
            &&& r_sum == k.sum
            &&& r_shares == k.bits
            &&& r_told == k.flagged
            &&& in_step(told(c, k.flagged), r_dec, data)
            &&& k.coded <= 21
        }),
    decreases coded,
{
    let (t, x) = (terms_of(d), d.interp());
    let j = coded - 1;
    lemma_same_stays(d, 21);
    if coded > 0 && j > x.fixed {
        lemma_same_numbers(j, d.trim, d.lm);
        assert(t.would_have(coded, sum, shares) == x.band_bits(coded, sum, shares));
        let band = x.band_bits(coded, sum, shares);
        assert(x.thresh[j] == celt_alloc::threshold(j, d.lm));
        if band >= int_math::max_of(x.thresh[j], 16) {
            range_model::lemma_bit_codes(c, true, 1);
            range_laws::lemma_item_step(Item::Bit { value: true, logp: 1 }, c, dec, data);
        } else {
            let less = if band >= 8 {
                8int
            } else {
                0
            };
            lemma_same_drops(
                d,
                c,
                dec,
                coded - 1,
                sum - shares[j] + less,
                shares.update(j, less),
                data,
            );
        }
    }
}

proof fn lemma_same_rest(d: Demand, rest: int, j: int)
    ensures
        terms_of(d).rest_at(rest, j) == d.interp().spare_at(rest, j),
    decreases j - d.start,
{
    if j > d.start {
        lemma_same_rest(d, rest, j - 1);
    }
}

proof fn lemma_same_spread(d: Demand, k: Kept)
    requires
        is_mono_demand(d),
    ensures
        ({
            let left = d.budget() + (if k.flagged {
                0
            } else {
                d.reserved()
            }) - k.sum;
            terms_of(d).topped_up(k.coded, left, k.bits) == d.interp().spread(k)
        }),
{
    let left = d.budget() + (if k.flagged {
        0
    } else {
        d.reserved()
    }) - k.sum;
    let (t, x) = (terms_of(d), d.interp());
    let span = celt_alloc::edge(k.coded) - celt_alloc::edge(d.start);
    let rest = left - span * int_math::trunc_quotient(left, span);
    assert forall|j: int| 0 <= j < 21 implies #[trigger] t.topped_up(k.coded, left, k.bits)[j]
        == x.spread(k)[j] by {
        lemma_same_rest(d, rest, j);
    }
    assert(t.topped_up(k.coded, left, k.bits) =~= x.spread(k));
}

proof fn lemma_same_split(j: int, has: int, carried: int, cap: int, lm: int)
    requires
        0 <= j < 21,
        0 <= lm <= 3,
    ensures
        ({
            let s = celt_alloc::share(j, has, carried, cap, lm, 1);
            celt_decoder_shares::split(j, has, carried, cap, lm) == (s.bits, s.fine, s.late, s.carry)
        }),
{
    lemma_same_numbers(j, 5, lm);
    let n = celt_alloc::width(j) * celt_alloc::frame_scale(lm);
    let g = LOG_N_400[j] + 8 * lm;
    let limit = if n > 1 {
        cap
    } else {
        8
    };
    let kept = has - int_math::max_of(has - limit, 0);
    assert(1 * n == n);
    assert(celt_decoder_shares::split_offset(n, g, kept) == celt_alloc::fine_offset(
        n,
        n,
        n * g,
        kept,
    ));
}

proof fn lemma_same_carried(d: Demand, v: Seq<int>, j: int)
    requires
        is_mono_demand(d),
        j <= 21,
    ensures
        celt_decoder_shares::carried_to(v, d.cap, d.lm, d.start, j) == d.interp().carried(v, j),
    decreases j - d.start,
{
    if j > d.start {
        lemma_same_carried(d, v, j - 1);
        let c = d.interp().carried(v, j - 1);
        lemma_same_split(j - 1, v[j - 1] + c, c, d.cap[j - 1], d.lm);
    }
}

proof fn lemma_same_finish(d: Demand, k: Kept)
    requires
        is_mono_demand(d),
        k.coded <= 21,
    ensures
        celt_decoder_shares::finished(terms_of(d), k.coded, k.sum, k.bits, k.flagged)
            == d.interp().finished(k),
{
    let x = d.interp();
    lemma_same_spread(d, k);
    let v = x.spread(k);
    let a = celt_decoder_shares::finished(terms_of(d), k.coded, k.sum, k.bits, k.flagged);
    let b = x.finished(k);
    assert forall|j: int| d.start <= j < k.coded implies ({
        let s = x.share_at(v, j);
        #[trigger] celt_decoder_shares::part_of(v, d.cap, d.lm, d.start, j) == (
            s.bits,
            s.fine,
            s.late,
            s.carry,
        )
    }) by {
        lemma_same_carried(d, v, j);
        let carried = x.carried(v, j);
        lemma_same_split(j, v[j] + carried, carried, d.cap[j], d.lm);
    }
    lemma_same_carried(d, v, k.coded);
    assert(a.bits =~= b.bits);
    assert(a.fine =~= b.fine);
    assert(a.late =~= b.late);
}

proof fn lemma_same_start(d: Demand)
    requires
        is_mono_demand(d),
    ensures
        ({
            let first = celt_decoder_shares::undropped(terms_of(d));
            &&& first == d.interp().settled(d.interp().fraction(0, 64, 6))
            &&& celt_alloc_laws::sum_between(first, d.start, 21) == celt_alloc::sum_from(
                first,
                d.start,
            )
        }),
{
    let row = d.row_search(1, 10);
    lemma_same_search(d, 1, 10);
    lemma_same_fraction(d, row, 0, 64, 6);
    let f = d.interp().fraction(0, 64, 6);
    lemma_same_first_shares(d, row, f);
    let first = d.interp().settled(f);
    celt_alloc_laws::lemma_sum_from_between(first, d.start, 21);
    assert(celt_alloc::sum_from(first, 21) == 0);
}

/// A decoder in step with the encoder shares out the bits of a frame as the encoder
/// did, and reads the bit that ends the dropping of bands where the encoder wrote it.
pub proof fn law_decoders_share_alike(d: Demand, c: Coder, dec: Decoder, data: Seq<u8>)
    requires
        is_mono_demand(d),
        c.valid(),
        in_step(c, dec, data),
        ({
            let e = crate::opus_celt::flag_if(c, d.allocation().flagged, true, 1);
            range_laws::inside(e, data) && range_laws::raw_inside(e, data)
        }),
    ensures
        ({
            let (a, dec1) = celt_decoder_shares::shares(dec, terms_of(d), data);
            &&& a == d.allocation()
            &&& in_step(
                crate::opus_celt::flag_if(c, d.allocation().flagged, true, 1),
                dec1,
                data,
            )
        }),
{
    reveal(Demand::allocation);
    let x = d.interp();
    lemma_same_start(d);
    let first = x.settled(x.fraction(0, 64, 6));
    let sum = celt_alloc::sum_from(first, d.start);
    let k = x.kept(21, sum, first, 0);
    assert(d.allocation() == x.finished(k));
    lemma_same_drops(d, c, dec, 21, sum, first, data);
    lemma_same_finish(d, k);
}

} // verus!
