//! The range coder against a plain range decoder.
use oxiaudio_codec::opus_laplace::ec_laplace_encode;
use oxiaudio_codec::opus_pvq::{encode_pulses, icwrs_u64};
use oxiaudio_codec::opus_range::{ec_ilog, RangeEncoder};

const SYM_BITS: u32 = 8;
const CODE_TOP: u32 = 0x8000_0000;
const CODE_BOT: u32 = 0x0080_0000;
const CODE_EXTRA: u32 = 7;

/// Reads what a [`RangeEncoder`] wrote.
struct EcDec<'a> {
    buf: &'a [u8],
    front: usize,
    back: usize,
    end_window: u32,
    nend_bits: u32,
    rng: u32,
    val: u32,
    ext: u32,
    rem: u32,
}

impl<'a> EcDec<'a> {
    fn new(buf: &'a [u8]) -> Self {
        let mut dec = Self {
            buf,
            front: 0,
            back: 0,
            end_window: 0,
            nend_bits: 0,
            rng: 1 << CODE_EXTRA,
            val: 0,
            ext: 0,
            rem: 0,
        };
        dec.rem = dec.read_byte();
        dec.val = dec.rng - 1 - (dec.rem >> (SYM_BITS - CODE_EXTRA));
        dec.normalize();
        dec
    }

    fn final_range(&self) -> u32 {
        self.rng
    }

    fn read_byte(&mut self) -> u32 {
        let b = self.buf.get(self.front).copied().unwrap_or(0);
        self.front += 1;
        u32::from(b)
    }

    fn read_byte_from_end(&mut self) -> u32 {
        if self.back < self.buf.len() {
            self.back += 1;
            u32::from(self.buf[self.buf.len() - self.back])
        } else {
            0
        }
    }

    fn normalize(&mut self) {
        while self.rng <= CODE_BOT {
            self.rng <<= SYM_BITS;
            let high = self.rem;
            self.rem = self.read_byte();
            let sym = ((high << SYM_BITS) | self.rem) >> (SYM_BITS - CODE_EXTRA);
            self.val = ((self.val << SYM_BITS) + (0xFF & !sym)) & (CODE_TOP - 1);
        }
    }

    fn decode(&mut self, ft: u32) -> u32 {
        self.ext = self.rng / ft;
        let s = self.val / self.ext;
        ft - (s + 1).min(ft)
    }

    fn update(&mut self, fl: u32, fh: u32, ft: u32) {
        let s = self.ext * (ft - fh);
        self.val -= s;
        self.rng = if fl > 0 {
            self.ext * (fh - fl)
        } else {
            self.rng - s
        };
        self.normalize();
    }

    fn dec_bit_logp(&mut self, logp: u32) -> bool {
        let s = self.rng >> logp;
        let bit = self.val < s;
        if bit {
            self.rng = s;
        } else {
            self.val -= s;
            self.rng -= s;
        }
        self.normalize();
        bit
    }

    fn dec_uint(&mut self, ft: u32) -> u32 {
        let top = ft - 1;
        let bits = 32 - top.leading_zeros();
        if bits > 8 {
            let low = bits - 8;
            let n = (top >> low) + 1;
            let s = self.decode(n);
            self.update(s, s + 1, n);
            (s << low) | self.dec_bits(low)
        } else {
            let s = self.decode(ft);
            self.update(s, s + 1, ft);
            s
        }
    }

    fn dec_bits(&mut self, bits: u32) -> u32 {
        while self.nend_bits < bits {
            self.end_window |= self.read_byte_from_end() << self.nend_bits;
            self.nend_bits += SYM_BITS;
        }
        let v = self.end_window & ((1 << bits) - 1);
        self.end_window >>= bits;
        self.nend_bits -= bits;
        v
    }
}

fn encode_stream_uint(vals: &[(u32, u32)]) -> (Vec<u8>, u32) {
    let mut enc = RangeEncoder::new();
    for &(v, n) in vals {
        enc.enc_uint(v, n);
    }
    let range = enc.final_range();
    (enc.finish(), range)
}

fn check_stream_uint(vals: &[(u32, u32)]) {
    let (bytes, enc_range) = encode_stream_uint(vals);
    let mut dec = EcDec::new(&bytes);
    for &(v, n) in vals {
        assert_eq!(dec.dec_uint(n), v);
    }
    assert_eq!(enc_range, dec.final_range(), "final_range mismatch");
}

#[test]
fn test_ec_enc_final_range_matches_decoder_short() {
    check_stream_uint(&[(3, 8), (0, 4), (7, 8)]);
}

#[test]
fn test_ec_enc_final_range_matches_decoder_long() {
    check_stream_uint(&[
        (3, 8),
        (0, 4),
        (7, 8),
        (1, 5),
        (15, 16),
        (0, 3),
        (2, 3),
        (100, 256),
        (255, 256),
        (0, 2),
    ]);
}

#[test]
fn test_ec_enc_final_range_20_symbols() {
    let symbols: &[(u32, u32, u32)] = &[
        (0, 1, 4),
        (2, 3, 4),
        (1, 2, 4),
        (3, 4, 4),
        (0, 1, 4),
        (2, 3, 4),
        (1, 2, 4),
        (3, 4, 4),
        (0, 1, 4),
        (1, 2, 4),
        (0, 1, 4),
        (2, 3, 4),
        (1, 2, 4),
        (3, 4, 4),
        (0, 1, 4),
        (2, 3, 4),
        (1, 2, 4),
        (3, 4, 4),
        (0, 1, 4),
        (1, 2, 4),
    ];
    let mut enc = RangeEncoder::new();
    for &(fl, fh, ft) in symbols {
        enc.encode(fl, fh, ft);
    }
    let enc_range = enc.final_range();
    let bytes = enc.finish();
    let mut dec = EcDec::new(&bytes);
    for &(fl, _, ft) in symbols {
        let sym = dec.decode(ft);
        assert_eq!(sym, fl);
        dec.update(sym, sym + 1, ft);
    }
    assert_eq!(enc_range, dec.final_range(), "final_range (20 symbols)");
}

#[test]
fn test_ec_enc_decode_roundtrip_bits() {
    let cases: &[(u32, u32)] = &[(0b1011, 4), (0b101, 3), (0b11, 2), (0b0, 1)];
    let mut enc = RangeEncoder::new();
    for &(val, bits) in cases {
        enc.enc_bits(val, bits);
    }
    let bytes = enc.finish();
    let mut dec = EcDec::new(&bytes);
    for &(val, bits) in cases {
        assert_eq!(dec.dec_bits(bits), val, "dec_bits({bits})");
    }
}

#[test]
fn test_ec_enc_bits_various_widths() {
    let cases: &[(u32, u32)] = &[(0b1111, 4), (0b000, 3), (0b10, 2), (0xFF, 8), (0b10101, 5)];
    for &(val, bits) in cases {
        let mut enc = RangeEncoder::new();
        enc.enc_bits(val, bits);
        let bytes = enc.finish();
        let mut dec = EcDec::new(&bytes);
        assert_eq!(dec.dec_bits(bits), val, "enc_bits({val:#b}, {bits})");
    }
}

#[test]
fn test_ec_enc_empty_finish_valid() {
    let enc = RangeEncoder::new();
    let bytes = enc.finish();
    assert!(bytes.len() <= 1);
}

#[test]
fn test_ec_enc_final_range_matches_uint_and_bits() {
    let mut enc = RangeEncoder::new();
    for _ in 0..8 {
        enc.enc_uint(3, 8);
    }
    enc.enc_bits(0b110, 3);
    enc.enc_bits(0b10101, 5);
    let enc_range = enc.final_range();
    let bytes = enc.finish();
    let mut dec = EcDec::new(&bytes);
    for _ in 0..8 {
        assert_eq!(dec.dec_uint(8), 3);
    }
    assert_eq!(dec.dec_bits(3), 0b110, "bits 3-wide roundtrip");
    assert_eq!(dec.dec_bits(5), 0b10101, "bits 5-wide roundtrip");
    assert_eq!(enc_range, dec.final_range(), "final_range with mixed coding");
}

#[test]
fn test_ec_enc_final_range_uint_long_stream() {
    check_stream_uint(&[
        (0, 1000),
        (999, 1000),
        (500, 1000),
        (0, 256),
        (255, 256),
        (128, 256),
    ]);
}

#[test]
fn test_ec_enc_final_range_repeated_symbols() {
    let base: &[(u32, u32)] = &[
        (0, 4),
        (3, 4),
        (1, 4),
        (2, 4),
        (1, 18),
        (15, 18),
        (0, 8),
        (5, 8),
        (3, 8),
    ];
    let mut all = Vec::new();
    for _ in 0..4 {
        all.extend_from_slice(base);
    }
    check_stream_uint(&all);
}

#[test]
fn bit_lengths() {
    assert_eq!(ec_ilog(0), 0);
    assert_eq!(ec_ilog(1), 1);
    assert_eq!(ec_ilog(255), 8);
    assert_eq!(ec_ilog(256), 9);
    assert_eq!(ec_ilog(u32::MAX), 32);
}

#[test]
fn a_new_coder_has_used_one_bit() {
    let enc = RangeEncoder::default();
    assert_eq!(enc.final_range(), 0x8000_0000);
    assert_eq!(enc.tell(), 1);
    assert_eq!(enc.tell_frac(), 8);
}

#[test]
fn tell_counts_range_bits_and_raw_bits() {
    let mut enc = RangeEncoder::new();
    enc.enc_bits(5, 13);
    assert_eq!(enc.tell(), 14);
    enc.encode(1, 2, 4);
    assert_eq!(enc.tell(), 16);
    for _ in 0..40 {
        enc.enc_bit_logp(false, 1);
    }
    assert_eq!(enc.tell(), 56);
}

#[test]
fn a_run_of_certain_bits_costs_next_to_nothing() {
    let mut enc = RangeEncoder::new();
    for _ in 0..8 {
        enc.enc_bit_logp(false, 15);
    }
    assert_eq!(enc.tell(), 2);
}

/// A set bit keeps the top of the interval, a clear one the rest.
#[test]
fn bits_split_the_interval() {
    let mut set = RangeEncoder::new();
    set.enc_bit_logp(true, 3);
    assert_eq!(set.final_range(), 0x1000_0000);
    assert_eq!(set.finish(), vec![0xE0]);
    let mut clear = RangeEncoder::new();
    clear.enc_bit_logp(false, 3);
    assert_eq!(clear.final_range(), 0x7000_0000);
    assert_eq!(clear.finish(), vec![0x00]);
}

/// Bits of all probabilities are read back.
#[test]
fn bits_are_read_back() {
    for logp in 1..16u32 {
        let mut enc = RangeEncoder::new();
        let bits: Vec<bool> = (0..60u32).map(|i| (i * i + logp) % 5 == 0).collect();
        for &b in &bits {
            enc.enc_bit_logp(b, logp);
        }
        let range = enc.final_range();
        let bytes = enc.finish();
        let mut dec = EcDec::new(&bytes);
        for &b in &bits {
            assert_eq!(dec.dec_bit_logp(logp), b);
        }
        assert_eq!(range, dec.final_range());
    }
}

#[test]
fn table_symbols_are_symbols() {
    let icdf = [25u8, 23, 2, 0];
    let bounds = [(0u32, 7u32), (7, 9), (9, 30), (30, 32)];
    let mut by_table = RangeEncoder::new();
    let mut by_symbol = RangeEncoder::new();
    for s in [0usize, 3, 2, 1, 1, 0, 2, 3] {
        by_table.enc_icdf(s, &icdf, 5);
        by_symbol.encode(bounds[s].0, bounds[s].1, 32);
    }
    let mut other = RangeEncoder::new();
    for s in [0u32, 3, 2, 1, 1, 0, 2, 3] {
        other.encode_icdf(s, &icdf, 5);
    }
    assert_eq!(by_table.final_range(), by_symbol.final_range());
    let bytes = by_table.finish();
    assert_eq!(bytes, by_symbol.finish());
    assert_eq!(bytes, other.finish());
}

/// Symbols at the top of the interval push carries through runs of 0xFF.
#[test]
fn carries_ripple_through() {
    let mut vals: Vec<(u32, u32)> = Vec::new();
    for i in 0..200u32 {
        vals.push((255, 256));
        vals.push((i % 7, 7));
        if i % 11 == 0 {
            vals.push((65_535, 65_536));
        }
    }
    check_stream_uint(&vals);
}

/// Every prefix of a pseudo-random message is read back.
#[test]
fn messages_are_read_back() {
    let mut seed: u32 = 1;
    let mut vals: Vec<(u32, u32)> = Vec::new();
    for _ in 0..120 {
        seed = seed.wrapping_mul(1_664_525).wrapping_add(1_013_904_223);
        let n = 2 + (seed >> 8) % 5000;
        seed = seed.wrapping_mul(1_664_525).wrapping_add(1_013_904_223);
        vals.push(((seed >> 8) % n, n));
        check_stream_uint(&vals);
    }
}

#[test]
fn filled_packets_hold_the_same_message() {
    let mut enc = RangeEncoder::new();
    for v in 0..10 {
        enc.enc_uint(v, 300);
    }
    enc.enc_bits(0x155, 9);
    let bytes = enc.finish_to_size(64);
    assert_eq!(bytes.len(), 64);
    let mut dec = EcDec::new(&bytes);
    for v in 0..10 {
        assert_eq!(dec.dec_uint(300), v);
    }
    // Ten values of 300 take one raw bit each before the nine bits.
    assert_eq!(dec.dec_bits(9), 0x155);
}

/// A frame with no bit to spare: the range bytes and the raw bytes share one.
#[test]
fn messages_that_fit_fill_their_frame() {
    for raw in 0..40u32 {
        for count in 0..12u32 {
            let mut enc = RangeEncoder::new();
            for i in 0..count {
                enc.enc_uint(i % 5, 5);
            }
            for i in 0..raw {
                enc.enc_bits(i % 2, 1);
            }
            let size = (enc.tell() as usize + 7) / 8;
            let range = enc.final_range();
            let bytes = enc.finish_to_size(size);
            assert_eq!(bytes.len(), size, "{count} symbols, {raw} raw bits");
            let mut dec = EcDec::new(&bytes);
            for i in 0..count {
                assert_eq!(dec.dec_uint(5), i % 5);
            }
            for i in 0..raw {
                assert_eq!(dec.dec_bits(1), i % 2);
            }
            assert_eq!(range, dec.final_range());
        }
    }
}

#[test]
fn wide_numbers_match_narrow_ones() {
    let mut wide = RangeEncoder::new();
    let mut narrow = RangeEncoder::new();
    for (v, n) in [(3u32, 8u32), (999, 1000), (70_000, 70_001), (0, 2)] {
        wide.enc_uint_u64(u64::from(v), u64::from(n));
        narrow.enc_uint(v, n);
    }
    assert_eq!(wide.final_range(), narrow.final_range());
    assert_eq!(wide.finish(), narrow.finish());
}

#[test]
fn wide_numbers_are_read_back() {
    let total: u64 = 1 << 40;
    let value: u64 = 0x12_3456_789A;
    let mut enc = RangeEncoder::new();
    enc.enc_uint_u64(value, total);
    let bytes = enc.finish();
    let mut dec = EcDec::new(&bytes);
    // The eight top bits are a symbol, the other 32 raw bits.
    let high = dec.decode(256);
    dec.update(high, high + 1, 256);
    let low = u64::from(dec.dec_bits(16)) | (u64::from(dec.dec_bits(16)) << 16);
    assert_eq!((u64::from(high) << 32) | low, value);
}

#[test]
fn old_names_write_the_same() {
    let mut a = RangeEncoder::new();
    let mut b = RangeEncoder::new();
    a.encode_uint(5, 16);
    b.enc_uint(5, 16);
    a.encode_bits_raw(0x2A, 6);
    b.enc_bits(0x2A, 6);
    assert_eq!(a.finish(), b.finish());
}

/// What a decoder takes a Laplace symbol for.
fn laplace_decode(dec: &mut EcDec<'_>, fs: u32, decay: u32) -> i32 {
    let fm = dec.decode(32_768);
    let (mut fl, mut width, mut value) = (0, fs, 0i32);
    if fm >= fs {
        let mut m = 1;
        fl = fs;
        let mut f = ((32_736 - fs) * (16_384 - decay)) / 32_768 + 1;
        while f > 1 && fm >= fl + 2 * f {
            f *= 2;
            fl += f;
            f = ((f - 2) * decay) / 32_768 + 1;
            m += 1;
        }
        if f <= 1 {
            let d = (fm - fl) / 2;
            m += d as i32;
            fl += 2 * d;
        }
        width = f;
        value = if fm < fl + f {
            -m
        } else {
            fl += f;
            m
        };
    }
    dec.update(fl, (fl + width).min(32_768), 32_768);
    value
}

#[test]
fn laplace_values_are_read_back() {
    for (p, d) in [(24u32, 179u32), (48, 138), (54, 135), (157, 32), (77, 40)] {
        let (fs, decay) = (p * 128, d * 64);
        let mut enc = RangeEncoder::new();
        for v in -6..=6 {
            ec_laplace_encode(&mut enc, v, fs, decay);
        }
        let range = enc.final_range();
        let bytes = enc.finish();
        let mut dec = EcDec::new(&bytes);
        for v in -6..=6 {
            assert_eq!(laplace_decode(&mut dec, fs, decay), v, "model {p} {d}");
        }
        assert_eq!(range, dec.final_range());
    }
}

/// A value there is no room for becomes the nearest there is.
#[test]
fn laplace_values_out_of_room_are_cut() {
    let (fs, decay) = (157 * 128, 32 * 64);
    let mut enc = RangeEncoder::new();
    ec_laplace_encode(&mut enc, 1_000_000, fs, decay);
    ec_laplace_encode(&mut enc, -1_000_000, fs, decay);
    let bytes = enc.finish();
    let mut dec = EcDec::new(&bytes);
    let high = laplace_decode(&mut dec, fs, decay);
    let low = laplace_decode(&mut dec, fs, decay);
    assert!(high > 10 && high < 1000);
    assert!(low < -10 && low > -1000);
}

#[test]
fn pulse_vectors_have_distinct_indices() {
    // All vectors of three entries and two pulses.
    let mut seen = Vec::new();
    for a in -2i32..=2 {
        for b in -2i32..=2 {
            for c in -2i32..=2 {
                if a.abs() + b.abs() + c.abs() == 2 {
                    let (i, total) = icwrs_u64(&[a, b, c]).expect("small");
                    assert_eq!(total, 18);
                    assert!(i < total);
                    assert!(!seen.contains(&i));
                    seen.push(i);
                }
            }
        }
    }
    assert_eq!(seen.len(), 18);
}

#[test]
fn pulse_vector_values() {
    assert_eq!(icwrs_u64(&[3]), Some((0, 2)));
    assert_eq!(icwrs_u64(&[-3]), Some((1, 2)));
    assert_eq!(icwrs_u64(&[1, 0]), Some((0, 4)));
    // More vectors than 64 bits count.
    assert_eq!(icwrs_u64(&[1; 176]), None);
}

#[test]
fn pulse_vectors_are_written_as_their_index() {
    let y = [2, 0, -1, 3];
    let (i, total) = icwrs_u64(&y).expect("small");
    let mut by_vector = RangeEncoder::new();
    encode_pulses(&mut by_vector, &y);
    let mut by_index = RangeEncoder::new();
    by_index.enc_uint_u64(i, total);
    assert_eq!(by_vector.finish(), by_index.finish());
}

#[test]
fn no_pulses_write_nothing() {
    let mut enc = RangeEncoder::new();
    encode_pulses(&mut enc, &[0, 0, 0]);
    encode_pulses(&mut enc, &[]);
    assert_eq!(enc.tell(), 1);
}

/// The number of vectors of `n` entries and `k` pulses with a positive start.
fn positive_starts(n: usize, k: usize) -> u64 {
    if n == 0 || k == 0 {
        0
    } else if n == 1 || k == 1 {
        1
    } else {
        positive_starts(n - 1, k) + positive_starts(n, k - 1) + positive_starts(n - 1, k - 1)
    }
}

/// The vector of an index, entry by entry.
fn vector_of(mut n: usize, mut k: usize, mut i: u64) -> Vec<i32> {
    let mut y = Vec::new();
    while n > 0 {
        let top = positive_starts(n, k + 1);
        let negative = i >= top;
        if negative {
            i -= top;
        }
        let before = k;
        while positive_starts(n, k) > i {
            k -= 1;
        }
        i -= positive_starts(n, k);
        let m = (before - k) as i32;
        y.push(if negative { -m } else { m });
        n -= 1;
    }
    y
}

#[test]
fn every_index_has_its_vector() {
    for n in 1..=5 {
        for k in 1..=4 {
            let total = positive_starts(n, k) + positive_starts(n, k + 1);
            for i in 0..total {
                let y = vector_of(n, k, i);
                assert_eq!(icwrs_u64(&y), Some((i, total)), "{y:?}");
            }
        }
    }
}
