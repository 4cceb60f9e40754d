//! The CELT layer and what its frames are made of.
use opus_decoder::OpusDecoder;
use oxiaudio_codec::celt_alloc::{
    celt_compute_allocation_enc, celt_init_caps, interp_bits2pulses_enc, InterpBitsCtx,
};
use oxiaudio_codec::celt_budget::compute_k_pulses;
use oxiaudio_codec::celt_pulses::{
    celt_bits2pulses, celt_compute_qn, celt_get_pulses, celt_pulses2bits, check_do_split_enc,
};
use oxiaudio_codec::int_math::{div_floor, div_trunc, max_i32, min_i32};
use oxiaudio_codec::opus_celt::{
    bits_per_band, celt_packet, celt_quant_coarse_energy_intra_ranged,
    celt_write_tf_neutral_ranged, encode_band_with_splits, encode_celt_bands, hybrid_packet,
    CeltBody, BAND_BINS, NUM_BANDS, TOC_HYBRID_FB_20MS_MONO,
};
use oxiaudio_codec::opus_encoder::mux_opus;
use oxiaudio_codec::opus_pvq::{encode_pulses, place_pulses};
use oxiaudio_codec::opus_range::RangeEncoder;

/// `k` pulses spread over `n` entries, every third one negative.
fn spread(n: usize, k: usize) -> Vec<i32> {
    let places: Vec<usize> = (0..k).map(|j| (j * j + 3 * j) % n).collect();
    let negative: Vec<bool> = (0..n).map(|i| i % 3 == 1).collect();
    place_pulses(n, &places, &negative)
}

/// Write the body of a frame with coarse energies `qi`.
fn write_body(qi: &[i32], start: usize, silence_flag: bool, enc: &mut RangeEncoder) -> usize {
    let mut body = CeltBody::begin(qi, start, silence_flag, 512, 3, enc);
    let mut shapes = 0;
    while let Some(want) = body.next_shape(enc) {
        assert!(want.lo + want.n <= 960);
        encode_pulses(enc, &spread(want.n, want.k as usize));
        shapes += 1;
    }
    body.end(enc);
    shapes
}

fn celt_frame(qi: &[i32]) -> Vec<u8> {
    let mut enc = RangeEncoder::new();
    assert!(write_body(qi, 0, true, &mut enc) > 0);
    celt_packet(enc)
}

fn hybrid_frame(qi: &[i32]) -> Vec<u8> {
    let mut enc = RangeEncoder::new();
    for _ in 0..12 {
        enc.enc_uint(2, 5);
    }
    write_body(qi, 17, false, &mut enc);
    hybrid_packet(enc)
}

#[test]
fn test_band_bins_count() {
    assert_eq!(
        BAND_BINS.len(),
        NUM_BANDS + 1,
        "BAND_BINS must have NUM_BANDS + 1 entries"
    );
}

#[test]
fn test_band_bins_monotone() {
    for i in 0..NUM_BANDS {
        assert!(
            BAND_BINS[i] < BAND_BINS[i + 1],
            "BAND_BINS must be strictly increasing at index {i}"
        );
    }
}

#[test]
fn test_celt_frame_pvq_bits_per_band_nonzero() {
    let bits_per_frame: u32 = 64_u32.saturating_mul(960).saturating_mul(1000) / 48_000;
    let band_bits = (bits_per_frame / 21).max(1);
    for band_size in [1usize, 2, 4, 6, 8, 12, 18, 22] {
        let k = compute_k_pulses(band_size, band_bits);
        assert!(
            k >= 1,
            "band_size={band_size}: K must be at least 1 at 64 kbps, got K={k}"
        );
    }
}

#[test]
fn hybrid_conform_toc_is_config_15() {
    let packet = hybrid_frame(&[1; 21]);
    assert!(!packet.is_empty(), "packet must be non-empty");
    assert_eq!(packet[0], TOC_HYBRID_FB_20MS_MONO);
    assert_eq!(packet[0], 0x78);
    assert_eq!((packet[0] >> 3) & 0x1F, 15);
}

#[test]
fn hybrid_conform_packet_non_trivial() {
    let packet = hybrid_frame(&[1; 21]);
    assert!(
        packet.len() >= 4,
        "packet must have TOC + at least 3 payload bytes, got {}",
        packet.len()
    );
}

#[test]
fn hybrid_conform_silence_non_empty() {
    let packet = hybrid_frame(&[-15; 21]);
    assert!(!packet.is_empty(), "silence hybrid packet must be non-empty");
    assert_eq!(packet[0], 0x78, "silence TOC must be 0x78");
}

#[test]
fn hybrid_conform_deterministic() {
    assert_eq!(hybrid_frame(&[2; 21]), hybrid_frame(&[2; 21]));
}

#[test]
fn conformant_celt_opus_roundtrip_decodes() {
    let mut loud = [0i32; 21];
    for (i, q) in loud.iter_mut().enumerate() {
        *q = 3 - (i as i32) / 4;
    }
    let packets = vec![celt_frame(&loud), celt_frame(&[-6; 21])];
    let bytes = mux_opus(1, 48_000, &packets).expect("encode celt");
    assert_eq!(&bytes[..4], b"OggS", "must start with OggS magic");
    assert!(
        bytes.windows(8).any(|w| w == b"OpusHead"),
        "OpusHead magic must appear"
    );
    for packet in &packets {
        assert_eq!(packet.len(), 65);
        assert_eq!(packet[0], 0xF8);
        let mut dec = OpusDecoder::new(48_000, 1).expect("decoder init");
        let mut pcm = vec![0.0f32; 960];
        let n = dec
            .decode_float(packet, &mut pcm, false)
            .expect("decode_float");
        assert_eq!(n, 960, "CELT packet must decode to 960 samples");
        assert!(
            pcm.iter().all(|x| x.is_finite()),
            "decoded samples must be finite"
        );
    }
}

/// A decoder that reads a frame symbol by symbol ends with the encoder's range.
#[test]
fn decoders_stay_in_step() {
    let mut seed: u32 = 7;
    for round in 0..120 {
        let qi: Vec<i32> = (0..21)
            .map(|_| {
                seed = seed.wrapping_mul(1_664_525).wrapping_add(1_013_904_223);
                ((seed >> 16) % (1 + round % 12)) as i32 - (round % 5) as i32
            })
            .collect();
        let mut enc = RangeEncoder::new();
        write_body(&qi, 0, true, &mut enc);
        let range = enc.final_range();
        assert!(enc.tell() <= 512);
        let packet = celt_packet(enc);
        assert_eq!(packet.len(), 65);
        let mut dec = OpusDecoder::new(48_000, 1).expect("decoder init");
        let mut pcm = vec![0.0f32; 960];
        dec.decode_float(&packet, &mut pcm, false).expect("decode");
        assert_eq!(dec.final_range(), range, "energies {qi:?}");
    }
}

#[test]
fn pulse_budgets() {
    assert_eq!(compute_k_pulses(0, 100), 0);
    assert_eq!(compute_k_pulses(100, 0), 0);
    assert_eq!(compute_k_pulses(1, 60), 60);
    assert_eq!(compute_k_pulses(2, 60), 37);
    assert_eq!(compute_k_pulses(3, 60), 30);
    assert_eq!(compute_k_pulses(6, 60), 21);
    assert_eq!(compute_k_pulses(22, 60), 13);
    assert_eq!(compute_k_pulses(100, 6), 0);
    assert_eq!(compute_k_pulses(127, 7), 1);
    assert_eq!(compute_k_pulses(127, 14), 2);
    assert_eq!(compute_k_pulses(128, 14), 1);
    assert_eq!(compute_k_pulses(2, 1054), 664);
    assert_eq!(compute_k_pulses(usize::MAX, 200), 3);
    // Budgets of any size take as long.
    assert_eq!(compute_k_pulses(1, u32::MAX), u32::MAX);
    assert_eq!(compute_k_pulses(3, u32::MAX), u32::MAX / 2);
    assert_eq!(compute_k_pulses(22, u32::MAX), 949_465_783);
    assert_eq!(compute_k_pulses(2, 4_000_000_000), 2_523_719_014);
    assert_eq!(compute_k_pulses(176, 1_000_000_000), 133_911_732);
}

#[test]
fn band_budgets() {
    assert_eq!(bits_per_band(64, 48_000), 60);
    assert_eq!(bits_per_band(128, 48_000), 121);
    assert_eq!(bits_per_band(0, 48_000), 1);
    assert_eq!(bits_per_band(64, 0), 61_440_000 / 21);
    assert_eq!(bits_per_band(u32::MAX, 1), u32::MAX / 21);
}

#[test]
fn pulses_are_placed() {
    assert_eq!(
        place_pulses(4, &[0, 3, 0, 1], &[true, false, true, false]),
        vec![-2, 1, 0, 1]
    );
    assert_eq!(place_pulses(3, &[], &[true; 3]), vec![0, 0, 0]);
    let y = spread(22, 17);
    assert_eq!(y.iter().map(|v| v.abs()).sum::<i32>(), 17);
}

#[test]
fn plain_frames() {
    let energies = [15u8, 0, 7];
    let shapes = vec![vec![1], vec![0, 0], vec![2, -1]];
    let mut enc = RangeEncoder::new();
    encode_celt_bands(&energies, &shapes, &mut enc);
    let mut by_hand = RangeEncoder::new();
    by_hand.enc_uint(15, 16);
    by_hand.enc_uint(0, 2);
    by_hand.enc_uint(0, 16);
    by_hand.enc_uint(7, 16);
    encode_pulses(&mut by_hand, &[2, -1]);
    assert_eq!(enc.final_range(), by_hand.final_range());
    assert_eq!(enc.finish(), by_hand.finish());
}

#[test]
fn caps() {
    assert_eq!(
        celt_init_caps(3),
        vec![
            514, 514, 514, 514, 514, 514, 514, 514, 1028, 1028, 1028, 1028, 2064, 2064, 2064, 2976,
            2976, 3792, 4872, 4644, 4532
        ]
    );
}

#[test]
fn pulse_costs() {
    assert_eq!(celt_bits2pulses(0, 3, 0), 0);
    assert_eq!(celt_bits2pulses(0, 3, 32), 1);
    assert_eq!(celt_bits2pulses(0, 3, 56), 2);
    assert_eq!(celt_bits2pulses(0, 3, 100_000), 25);
    assert_eq!(celt_bits2pulses(0, 3, i32::MAX), 25);
    assert_eq!(celt_bits2pulses(0, 3, i32::MIN + 1), 0);
    assert_eq!(celt_pulses2bits(0, 3, 0), 0);
    assert_eq!(celt_pulses2bits(0, 3, 1), 32);
    assert_eq!(celt_pulses2bits(20, 3, 4), 235);
    for bits in 0..300 {
        let k = celt_bits2pulses(8, 3, bits);
        let cost = celt_pulses2bits(8, 3, k);
        for other in 0..=12 {
            let there = celt_pulses2bits(8, 3, other);
            assert!((bits - cost).abs() <= (bits - there).abs(), "{bits} bits");
        }
    }
}

#[test]
fn pseudo_pulses_stand_for_pulses() {
    let known = [
        (0, 0),
        (7, 7),
        (8, 8),
        (9, 9),
        (15, 15),
        (16, 16),
        (17, 18),
        (24, 32),
        (40, 128),
        (224, 8 << 27),
        (231, 15 << 27),
    ];
    for (i, k) in known {
        assert_eq!(celt_get_pulses(i), k);
    }
}

#[test]
fn wide_bands_split() {
    assert!(!check_do_split_enc(0, 3, 8, 255 + 12));
    assert!(check_do_split_enc(0, 3, 8, 255 + 13));
    assert!(!check_do_split_enc(0, -1, 8, 10_000));
    assert!(!check_do_split_enc(0, 3, 2, 10_000));
}

#[test]
fn angle_steps() {
    assert_eq!(celt_compute_qn(4, 0, 0, 1000), 1);
    assert_eq!(celt_compute_qn(8, 10_000, 0, 0), 256);
    assert_eq!(celt_compute_qn(1_000_000, 1000, 22, 0), 6);
    assert_eq!(celt_compute_qn(1, 100, 0x10_0000, 0), 256);
    for b in 0..2000 {
        let qn = celt_compute_qn(16, b, 4, 800);
        assert!(qn == 1 || qn % 2 == 0);
        assert!((1..=256).contains(&qn));
    }
}

#[test]
fn allocation_uses_up_the_budget() {
    let cap = celt_init_caps(3);
    let offsets = vec![0; 21];
    for total in [0, 500, 2000, 3500, 8000] {
        let mut enc = RangeEncoder::new();
        let a = celt_compute_allocation_enc(&mut enc, total, &offsets, &cap, 5, 3, 0);
        assert!(a.coded_bands >= 1 && a.coded_bands <= 21);
        let spent: i32 =
            a.pulses.iter().sum::<i32>() + 8 * a.fine_quant.iter().sum::<i32>() + a.balance;
        let flag = if enc.tell() > 1 { 8 } else { 0 };
        assert_eq!(spent, total - flag, "{spent} of {total}");
    }
}

#[test]
fn coarse_energies_go_short_when_bits_do() {
    // With room for the full model.
    let mut enc = RangeEncoder::new();
    celt_quant_coarse_energy_intra_ranged(&[0; 21], 20, 3, 512, &mut enc);
    assert!(enc.tell() > 1);
    // With two bits left, a symbol of a small table.
    let mut short = RangeEncoder::new();
    celt_quant_coarse_energy_intra_ranged(&[-1; 21], 20, 3, 3, &mut short);
    let mut by_hand = RangeEncoder::new();
    by_hand.enc_icdf(1, &[2, 1, 0], 2);
    assert_eq!(short.finish(), by_hand.finish());
    // With one bit left, the sign.
    let mut shorter = RangeEncoder::new();
    celt_quant_coarse_energy_intra_ranged(&[-1; 21], 20, 3, 2, &mut shorter);
    let mut by_hand = RangeEncoder::new();
    by_hand.enc_bit_logp(true, 1);
    assert_eq!(shorter.finish(), by_hand.finish());
    // With none, nothing.
    let mut none = RangeEncoder::new();
    celt_quant_coarse_energy_intra_ranged(&[-1; 21], 20, 3, 1, &mut none);
    assert_eq!(none.tell(), 1);
}

#[test]
fn neutral_resolution_flags() {
    let mut enc = RangeEncoder::new();
    celt_write_tf_neutral_ranged(17, 3, false, 512, &mut enc);
    let mut by_hand = RangeEncoder::new();
    by_hand.enc_bit_logp(false, 4);
    for _ in 0..3 {
        by_hand.enc_bit_logp(false, 5);
    }
    assert_eq!(enc.final_range(), by_hand.final_range());
    let mut full = RangeEncoder::new();
    celt_write_tf_neutral_ranged(0, 3, false, 1, &mut full);
    assert_eq!(full.tell(), 1);
}

#[test]
fn frames_differ_with_their_energies() {
    assert_ne!(celt_frame(&[2; 21]), celt_frame(&[-2; 21]));
    assert_eq!(celt_frame(&[2; 21]), celt_frame(&[2; 21]));
}

#[test]
fn divisions() {
    assert_eq!(div_floor(-7, 2), -4);
    assert_eq!(div_trunc(-7, 2), -3);
    assert_eq!(div_trunc(i32::MIN, 1), i32::MIN);
    assert_eq!(div_floor(7, 2), 3);
    assert_eq!(max_i32(-3, 2), 2);
    assert_eq!(min_i32(-3, 2), -3);
}

/// Larger frames split their bands further, down to halves below the smallest
/// frame size.
#[test]
fn decoders_stay_in_step_at_every_size() {
    for size in [20usize, 33, 50, 80, 100, 160, 250, 400, 1000] {
        for round in 0..6i32 {
            let qi: Vec<i32> = (0..21).map(|i| (i * 7 + round * 3) % 5 - 2).collect();
            let mut enc = RangeEncoder::new();
            let mut body = CeltBody::begin(&qi, 0, true, 8 * size as i32, 3, &mut enc);
            while let Some(want) = body.next_shape(&mut enc) {
                encode_pulses(&mut enc, &spread(want.n, want.k as usize));
            }
            body.end(&mut enc);
            let range = enc.final_range();
            let mut packet = vec![0xF8u8];
            packet.extend(enc.finish_to_size(size));
            assert_eq!(packet.len(), size + 1);
            let mut dec = OpusDecoder::new(48_000, 1).expect("decoder init");
            let mut pcm = vec![0.0f32; 960];
            dec.decode_float(&packet, &mut pcm, false).expect("decode");
            assert_eq!(dec.final_range(), range, "{size} bytes");
        }
    }
}

#[test]
fn frames_keep_to_their_size_at_both_ends() {
    let mut seed: u32 = 99;
    for target in [2i32, 3, 9, 16, 17, 40, 64, 120, 512] {
        for start in [0usize, 17] {
            let qi: Vec<i32> = (0..21)
                .map(|_| {
                    seed = seed.wrapping_mul(1_664_525).wrapping_add(1_013_904_223);
                    (seed >> 27) as i32 - 16
                })
                .collect();
            let mut enc = RangeEncoder::new();
            let body = CeltBody::begin(&qi, start, true, target, 3, &mut enc);
            assert!(enc.tell() <= target, "{} of {target} bits", enc.tell());
            body.end(&mut enc);
            assert!(enc.tell() <= target, "{} of {target} bits", enc.tell());
            let used = enc.tell();
            assert!(8 * enc.finish().len() as i32 >= used - 1);
        }
    }
}

#[test]
fn plain_packets_are_not_empty() {
    let mut enc = RangeEncoder::new();
    encode_celt_bands(&[0], &[vec![0]], &mut enc);
    assert_eq!(enc.tell(), 5);
    assert_eq!(enc.finish(), vec![0]);
}

#[test]
fn shares_are_not_negative() {
    for total in [-5i32, 0, 7, 8, 100, 4095, 60_000] {
        let mut enc = RangeEncoder::new();
        let caps = celt_init_caps(3);
        let r = celt_compute_allocation_enc(&mut enc, total, &[0; 21], &caps, 5, 3, 0);
        assert!(r.pulses.iter().all(|&b| b >= 0));
        assert!(r.fine_quant.iter().all(|&b| b >= 0));
        assert!(r.balance >= 0);
        assert!(total >= 8 || enc.tell() == 1);
    }
}

#[test]
fn two_bands_share_twelve_eighths() {
    let mut enc = RangeEncoder::new();
    let ctx = InterpBitsCtx {
        bits1: &[0, 0],
        bits2: &[0, 0],
        thresh: &[8, 8],
        cap: &[64, 64],
        total: 12,
        skip_rsv: 8,
        intensity_rsv: 0,
        dual_stereo_rsv: 0,
        channels: 1,
        lm: 0,
    };
    let r = interp_bits2pulses_enc(&mut enc, 0, 2, 0, &ctx);
    assert_eq!((r.coded_bands, r.balance), (1, 4));
    assert_eq!(r.pulses, vec![8, 0]);
    assert_eq!(r.fine_quant, vec![1, 0]);
    assert_eq!(r.fine_priority, vec![0, 1]);
    assert_eq!(enc.finish(), RangeEncoder::new().finish());
}

#[test]
fn two_channels_share_with_an_intensity_parameter() {
    let mut enc = RangeEncoder::new();
    let ctx = InterpBitsCtx {
        bits1: &[0; 5],
        bits2: &[40, 40, 30, 20, 10],
        thresh: &[12; 5],
        cap: &[64; 5],
        total: 90,
        skip_rsv: 8,
        intensity_rsv: 21,
        dual_stereo_rsv: 8,
        channels: 2,
        lm: 1,
    };
    let r = interp_bits2pulses_enc(&mut enc, 0, 5, 0, &ctx);
    assert_eq!((r.coded_bands, r.balance), (3, 0));
    assert_eq!(r.pulses, vec![34, 34, 27, 0, 0]);
    assert_eq!(r.fine_quant, vec![0; 5]);
    assert_eq!(r.fine_priority, vec![1; 5]);
    let mut kept = RangeEncoder::new();
    kept.enc_bit_logp(true, 1);
    assert_eq!(enc.finish(), kept.finish());

    // Bands up to the third stay; one dropped band keeps a bit for each channel.
    let ctx = InterpBitsCtx {
        bits1: &[16, 16, 16, 16, 16, 0],
        bits2: &[20; 6],
        thresh: &[24; 6],
        cap: &[300; 6],
        total: 64,
        skip_rsv: 0,
        intensity_rsv: 3,
        dual_stereo_rsv: 0,
        channels: 2,
        lm: 3,
    };
    let r = interp_bits2pulses_enc(&mut RangeEncoder::new(), 1, 6, 2, &ctx);
    assert_eq!((r.coded_bands, r.balance), (3, 0));
    assert_eq!(r.pulses, vec![0, 19, 19, 0, 0, 0]);
    assert_eq!(r.fine_quant, vec![0, 0, 0, 2, 0, 0]);
    assert_eq!(r.fine_priority, vec![0, 1, 1, 0, 1, 1]);
}

#[test]
fn an_intensity_parameter_can_cost_more_than_there_is() {
    let ctx = InterpBitsCtx {
        bits1: &[0; 8],
        bits2: &[1; 8],
        thresh: &[24; 8],
        cap: &[300; 8],
        total: 3,
        skip_rsv: 0,
        intensity_rsv: 1,
        dual_stereo_rsv: 0,
        channels: 2,
        lm: 0,
    };
    let r = interp_bits2pulses_enc(&mut RangeEncoder::new(), 0, 8, 0, &ctx);
    assert_eq!((r.coded_bands, r.balance), (1, 0));
    assert_eq!(r.pulses, vec![-4, 0, 0, 0, 0, 0, 0, 0]);
    assert_eq!(r.fine_quant, vec![0; 8]);
    assert_eq!(r.fine_priority, vec![1; 8]);
}

#[test]
fn bands_take_what_they_write_off_what_remains() {
    // A single coefficient takes its sign bit if there is room for it.
    let mut enc = RangeEncoder::new();
    let mut remaining = 8;
    assert_eq!(encode_band_with_splits(0, 0, 20, &mut remaining, &mut enc, 1), None);
    assert_eq!(remaining, 0);
    let mut remaining = 7;
    assert_eq!(encode_band_with_splits(0, 0, 20, &mut remaining, &mut enc, 1), None);
    assert_eq!(remaining, 7);

    // Pulses are paid for when they are written.
    let mut remaining = 1000;
    let want = encode_band_with_splits(0, 3, 100, &mut remaining, &mut enc, 8);
    assert!(want.is_some());
    assert_eq!(remaining, 1000);
    assert_eq!(encode_band_with_splits(0, 3, 100, &mut remaining, &mut enc, 0), None);
    assert_eq!(remaining, 1000);

    // Every angle of a split is taken off.
    let before = enc.tell_frac();
    let mut remaining = 3000;
    let want = encode_band_with_splits(20, 3, 2500, &mut remaining, &mut enc, 176);
    let (n, _) = want.expect("pulses");
    assert!(n < 176);
    assert!(remaining < 3000);
    assert_eq!(3000 - remaining, enc.tell_frac() - before);
}
