//! The energy models of CELT keep to the terms of the Laplace coder.
use crate::opus_celt_tables::E_PROB_INTRA;
use crate::opus_laplace;
use crate::opus_laplace::Bucket;
use vstd::prelude::*;

verus! {

/// The widest bucket that is at most the `j`th from the end under a decay of
/// 8832 or less.
spec fn widest(j: int) -> int {
    if j <= 0 {
        0
    } else if j == 1 {
        1
    } else if j == 2 {
        3
    } else if j == 3 {
        7
    } else if j == 4 {
        14
    } else if j == 5 {
        27
    } else if j == 6 {
        51
    } else if j == 7 {
        96
    } else if j == 8 {
        179
    } else if j == 9 {
        333
    } else if j == 10 {
        619
    } else if j == 11 {
        1150
    } else if j == 12 {
        2135
    } else if j == 13 {
        3962
    } else if j == 14 {
        7351
    } else {
        13638
    }
}

/// Under a decay of 8832 or less, a bucket that is narrow enough for its place
/// is followed by one that is narrow enough for the next.
proof fn lemma_widest(f: int, j: int, decay: int)
    requires
        1 <= j <= 15,
        0 <= f <= widest(j),
        0 <= decay <= 8832,
    ensures
        2 * f * decay / 32768 <= widest(j - 1),
{
    let w = widest(j);
    assert(2 * f * decay <= 2 * w * 8832) by (nonlinear_arith)
        requires
            0 <= f <= w,
            0 <= decay <= 8832,
    ;
    let x = 2 * f * decay;
    assert(2 * w * 8832 < 32768 * (widest(j - 1) + 1));
    assert(x / 32768 <= widest(j - 1));
}

/// Room for a bucket and for all behind it, at most `j` in number, is enough.
proof fn lemma_few_buckets_fade(b: Bucket, j: int, decay: int)
    requires
        0 <= j <= 15,
        0 <= b.f <= widest(j),
        0 <= decay <= 8832,
        b.fl * (16384 - decay) + 2 * b.f * 16384 <= (32766 - 2 * j) * (16384 - decay),
    ensures
        b.fades(decay),
    decreases j,
{
    let d = 16384 - decay;
    let (fl, f) = (b.fl, b.f);
    assert(fl + 2 * f <= 32766 - 2 * j) by (nonlinear_arith)
        requires
            fl * d + 2 * f * 16384 <= (32766 - 2 * j) * d,
            0 <= f,
            0 < d <= 16384,
    ;
    if f > 0 {
        lemma_widest(f, j, decay);
        opus_laplace::lemma_next_is_narrower(f, decay);
        let x = 2 * f * decay;
        let g = x / 32768;
        assert(g * 32768 <= x);
        assert((fl + 2 * f + 2) * d + 2 * g * 16384 <= (32766 - 2 * (j - 1)) * d) by (nonlinear_arith)
            requires
                fl * d + 2 * f * 16384 <= (32766 - 2 * j) * d,
                g * 32768 <= x,
                x == 2 * f * decay,
                d == 16384 - decay,
        ;
        lemma_few_buckets_fade(b.next(decay), j - 1, decay);
    }
}

/// The models with a decay of 8832 or less fade in time.
proof fn lemma_fast_models_fade(fs: int, decay: int)
    requires
        0 < fs <= 32736,
        0 <= decay <= 8832,
        Bucket::first(fs, decay).f <= widest(15),
    ensures
        Bucket::first(fs, decay).fades(decay),
{
    let (a, d) = (32736 - fs, 16384 - decay);
    let x = a * d;
    let f = x / 32768;
    assert(0 <= x) by (nonlinear_arith)
        requires
            0 <= a,
            0 <= d,
            x == a * d,
    ;
    assert(32768 * f <= x);
    assert(fs * d + 2 * f * 16384 <= 32736 * d) by (nonlinear_arith)
        requires
            32768 * f <= x,
            x == a * d,
            a == 32736 - fs,
    ;
    lemma_few_buckets_fade(Bucket::first(fs, decay), 15, decay);
}

/// A bucket fades if the one behind it, with the numbers given, does.
proof fn lemma_fades_on(magnitude: int, fl: int, f: int, next_fl: int, next_f: int, decay: int)
    requires
        0 <= decay < 16384,
        0 < f,
        fl + 2 * f + 2 == next_fl <= 32768,
        next_f == 2 * f * decay / 32768,
        (Bucket { magnitude: magnitude + 1, fl: next_fl, f: next_f }).fades(decay),
    ensures
        (Bucket { magnitude, fl, f }).fades(decay),
{
}

/// The lowest band's model at frame size 0 fades in time.
proof fn lemma_slow_model_0()
    ensures
        Bucket::first(3072, 11456).fades(11456),
{
    lemma_fades_on(22, 32706, 1, 32710, 0, 11456);
    lemma_fades_on(21, 32700, 2, 32706, 1, 11456);
    lemma_fades_on(20, 32690, 4, 32700, 2, 11456);
    lemma_fades_on(19, 32676, 6, 32690, 4, 11456);
    lemma_fades_on(18, 32656, 9, 32676, 6, 11456);
    lemma_fades_on(17, 32628, 13, 32656, 9, 11456);
    lemma_fades_on(16, 32588, 19, 32628, 13, 11456);
    lemma_fades_on(15, 32530, 28, 32588, 19, 11456);
    lemma_fades_on(14, 32446, 41, 32530, 28, 11456);
    lemma_fades_on(13, 32324, 60, 32446, 41, 11456);
    lemma_fades_on(12, 32150, 86, 32324, 60, 11456);
    lemma_fades_on(11, 31902, 123, 32150, 86, 11456);
    lemma_fades_on(10, 31548, 176, 31902, 123, 11456);
    lemma_fades_on(9, 31040, 253, 31548, 176, 11456);
    lemma_fades_on(8, 30312, 363, 31040, 253, 11456);
    lemma_fades_on(7, 29270, 520, 30312, 363, 11456);
    lemma_fades_on(6, 27780, 744, 29270, 520, 11456);
    lemma_fades_on(5, 25648, 1065, 27780, 744, 11456);
    lemma_fades_on(4, 22598, 1524, 25648, 1065, 11456);
    lemma_fades_on(3, 18236, 2180, 22598, 1524, 11456);
    lemma_fades_on(2, 11996, 3119, 18236, 2180, 11456);
    lemma_fades_on(1, 3072, 4461, 11996, 3119, 11456);
}

/// The lowest band's model at frame size 1 fades in time.
proof fn lemma_slow_model_1()
    ensures
        Bucket::first(2944, 11392).fades(11392),
{
    lemma_fades_on(22, 32704, 1, 32708, 0, 11392);
    lemma_fades_on(21, 32698, 2, 32704, 1, 11392);
    lemma_fades_on(20, 32690, 3, 32698, 2, 11392);
    lemma_fades_on(19, 32678, 5, 32690, 3, 11392);
    lemma_fades_on(18, 32660, 8, 32678, 5, 11392);
    lemma_fades_on(17, 32634, 12, 32660, 8, 11392);
    lemma_fades_on(16, 32596, 18, 32634, 12, 11392);
    lemma_fades_on(15, 32540, 27, 32596, 18, 11392);
    lemma_fades_on(14, 32460, 39, 32540, 27, 11392);
    lemma_fades_on(13, 32344, 57, 32460, 39, 11392);
    lemma_fades_on(12, 32178, 82, 32344, 57, 11392);
    lemma_fades_on(11, 31940, 118, 32178, 82, 11392);
    lemma_fades_on(10, 31596, 171, 31940, 118, 11392);
    lemma_fades_on(9, 31102, 246, 31596, 171, 11392);
    lemma_fades_on(8, 30390, 355, 31102, 246, 11392);
    lemma_fades_on(7, 29366, 511, 30390, 355, 11392);
    lemma_fades_on(6, 27892, 736, 29366, 511, 11392);
    lemma_fades_on(5, 25772, 1059, 27892, 736, 11392);
    lemma_fades_on(4, 22722, 1524, 25772, 1059, 11392);
    lemma_fades_on(3, 18334, 2193, 22722, 1524, 11392);
    lemma_fades_on(2, 12022, 3155, 18334, 2193, 11392);
    lemma_fades_on(1, 2944, 4538, 12022, 3155, 11392);
}

/// The lowest band's model at frame size 2 fades in time.
proof fn lemma_slow_model_2()
    ensures
        Bucket::first(2688, 11392).fades(11392),
{
    lemma_fades_on(22, 32704, 1, 32708, 0, 11392);
    lemma_fades_on(21, 32698, 2, 32704, 1, 11392);
    lemma_fades_on(20, 32690, 3, 32698, 2, 11392);
    lemma_fades_on(19, 32678, 5, 32690, 3, 11392);
    lemma_fades_on(18, 32660, 8, 32678, 5, 11392);
    lemma_fades_on(17, 32634, 12, 32660, 8, 11392);
    lemma_fades_on(16, 32596, 18, 32634, 12, 11392);
    lemma_fades_on(15, 32540, 27, 32596, 18, 11392);
    lemma_fades_on(14, 32460, 39, 32540, 27, 11392);
    lemma_fades_on(13, 32344, 57, 32460, 39, 11392);
    lemma_fades_on(12, 32178, 82, 32344, 57, 11392);
    lemma_fades_on(11, 31938, 119, 32178, 82, 11392);
    lemma_fades_on(10, 31592, 172, 31938, 119, 11392);
    lemma_fades_on(9, 31094, 248, 31592, 172, 11392);
    lemma_fades_on(8, 30376, 358, 31094, 248, 11392);
    lemma_fades_on(7, 29342, 516, 30376, 358, 11392);
    lemma_fades_on(6, 27854, 743, 29342, 516, 11392);
    lemma_fades_on(5, 25714, 1069, 27854, 743, 11392);
    lemma_fades_on(4, 22636, 1538, 25714, 1069, 11392);
    lemma_fades_on(3, 18210, 2212, 22636, 1538, 11392);
    lemma_fades_on(2, 11844, 3182, 18210, 2212, 11392);
    lemma_fades_on(1, 2688, 4577, 11844, 3182, 11392);
}

/// The lowest band's model at frame size 3 fades in time.
proof fn lemma_slow_model_3()
    ensures
        Bucket::first(2816, 11392).fades(11392),
{
    lemma_fades_on(22, 32702, 1, 32706, 0, 11392);
    lemma_fades_on(21, 32696, 2, 32702, 1, 11392);
    lemma_fades_on(20, 32688, 3, 32696, 2, 11392);
    lemma_fades_on(19, 32676, 5, 32688, 3, 11392);
    lemma_fades_on(18, 32658, 8, 32676, 5, 11392);
    lemma_fades_on(17, 32632, 12, 32658, 8, 11392);
    lemma_fades_on(16, 32594, 18, 32632, 12, 11392);
    lemma_fades_on(15, 32538, 27, 32594, 18, 11392);
    lemma_fades_on(14, 32458, 39, 32538, 27, 11392);
    lemma_fades_on(13, 32342, 57, 32458, 39, 11392);
    lemma_fades_on(12, 32176, 82, 32342, 57, 11392);
    lemma_fades_on(11, 31938, 118, 32176, 82, 11392);
    lemma_fades_on(10, 31594, 171, 31938, 118, 11392);
    lemma_fades_on(9, 31098, 247, 31594, 171, 11392);
    lemma_fades_on(8, 30384, 356, 31098, 247, 11392);
    lemma_fades_on(7, 29356, 513, 30384, 356, 11392);
    lemma_fades_on(6, 27876, 739, 29356, 513, 11392);
    lemma_fades_on(5, 25746, 1064, 27876, 739, 11392);
    lemma_fades_on(4, 22682, 1531, 25746, 1064, 11392);
    lemma_fades_on(3, 18274, 2203, 22682, 1531, 11392);
    lemma_fades_on(2, 11934, 3169, 18274, 2203, 11392);
    lemma_fades_on(1, 2816, 4558, 11934, 3169, 11392);
}

/// Every model of the coarse energies fades in time, so whatever energy is
/// coded under it, a decoder takes each of its frequencies for that energy, or
/// for the nearest one there is room for.
pub proof fn law_coarse_energies_are_read_back(lm: int, band: int, value: int, fm: int)
    requires
        0 <= lm < 4,
        0 <= band < 21,
        ({
            let p = 42 * lm + 2 * band;
            let s = opus_laplace::slot(value, E_PROB_INTRA[p] * 128, E_PROB_INTRA[p + 1] * 64);
            s.fl <= fm < s.fl + s.width
        }),
    ensures
        ({
            let p = 42 * lm + 2 * band;
            opus_laplace::decoded(fm, E_PROB_INTRA[p] * 128, E_PROB_INTRA[p + 1] * 64)
                == opus_laplace::slot(value, E_PROB_INTRA[p] * 128, E_PROB_INTRA[p + 1] * 64)
        }),
{
    let p = 42 * lm + 2 * band;
    lemma_models_fade(lm, band);
    opus_laplace::law_slots_are_read_back(
        value,
        E_PROB_INTRA[p] * 128,
        E_PROB_INTRA[p + 1] * 64,
        fm,
    );
}

/// Every model of the coarse energies fades in time.
pub proof fn lemma_models_fade(lm: int, band: int)
    requires
        0 <= lm < 4,
        0 <= band < 21,
    ensures
        ({
            let p = 42 * lm + 2 * band;
            let (fs, decay) = (E_PROB_INTRA[p] * 128, E_PROB_INTRA[p + 1] * 64);
            &&& 0 < fs <= 32736
            &&& 0 <= decay < 16384
            &&& Bucket::first(fs, decay).fades(decay)
        }),
{
    let p = 42 * lm + 2 * band;
    let (fs, decay) = (E_PROB_INTRA[p] * 128, E_PROB_INTRA[p + 1] * 64);
    lemma_slow_model_0();
    lemma_slow_model_1();
    lemma_slow_model_2();
    lemma_slow_model_3();
    lemma_model_bounds(lm, band);
    if band > 0 {
        lemma_fast_models_fade(fs, decay);
    }
}

/// The models have the probabilities and decays that the coder takes.
pub proof fn lemma_model_range(lm: int, band: int)
    requires
        0 <= lm < 4,
        0 <= band < 21,
    ensures
        0 < E_PROB_INTRA[42 * lm + 2 * band] * 128 <= 32736,
        0 <= E_PROB_INTRA[42 * lm + 2 * band + 1] * 64 < 16384,
{
    let p = 42 * lm + 2 * band;
    assert(0 < E_PROB_INTRA[p] && E_PROB_INTRA[p + 1] <= 179);
}

/// Above the lowest band the models decay fast and leave the first bucket
/// narrow.
proof fn lemma_model_bounds(lm: int, band: int)
    requires
        0 <= lm < 4,
        0 <= band < 21,
    ensures
        ({
            let p = 42 * lm + 2 * band;
            let (fs, decay) = (E_PROB_INTRA[p] * 128, E_PROB_INTRA[p + 1] * 64);
            &&& 0 < fs <= 32736
            &&& 0 <= decay < 16384
            &&& band > 0 ==> decay <= 8832 && Bucket::first(fs, decay).f <= widest(15)
        }),
{
    let p = 42 * lm + 2 * band;
    let (fs, decay) = (E_PROB_INTRA[p] * 128, E_PROB_INTRA[p + 1] * 64);
    assert(band > 0 ==> 48 <= E_PROB_INTRA[p] && 29 <= E_PROB_INTRA[p + 1] <= 138);
    lemma_model_range(lm, band);
    if band > 0 {
        let (a, d) = (32736 - fs, 16384 - decay);
        assert(a * d <= 26592 * 14528) by (nonlinear_arith)
            requires
                0 <= a <= 26592,
                0 <= d <= 14528,
        ;
    }
}

} // verus!
