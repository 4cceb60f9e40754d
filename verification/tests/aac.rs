//! ADTS frames and the syntax elements in them.
use oxiaudio_codec::aac_bits::{AacError, BitReader};
use oxiaudio_codec::aac_decoder::{
    decode_aac, decode_escape_value, decode_scale_factors, decode_sce, decode_sf_huffman,
    decode_spectral_cb11, decode_spectral_data, find_adts_sync, parse_adts_header, parse_ics_info,
    sfb_offsets_long, AacDecoder, IcsInfo,
};

/// A header of seven bytes without payload: AAC-LC, 44.1 kHz, stereo.
fn minimal_adts_header() -> Vec<u8> {
    vec![0xFF, 0xF1, 0x50, 0x80, 0x00, 0xE0, 0x00]
}

/// Bits, most significant first.
struct Bits {
    bytes: Vec<u8>,
    used: usize,
}

impl Bits {
    fn new() -> Self {
        Bits {
            bytes: Vec::new(),
            used: 0,
        }
    }

    fn put(&mut self, value: u32, n: u32) -> &mut Self {
        for k in (0..n).rev() {
            if self.used % 8 == 0 {
                self.bytes.push(0);
            }
            let last = self.bytes.len() - 1;
            self.bytes[last] |= (((value >> k) & 1) as u8) << (7 - self.used % 8);
            self.used += 1;
        }
        self
    }
}

/// A frame with `payload` behind a header of seven bytes.
fn frame_of(payload: &[u8]) -> Vec<u8> {
    let n = payload.len() + 7;
    let mut out = vec![
        0xFF,
        0xF1,
        0x50,
        0x40 | (n >> 11) as u8,
        ((n >> 3) & 0xFF) as u8,
        ((n & 7) << 5) as u8,
        0x00,
    ];
    out.extend_from_slice(payload);
    out
}

/// One channel without scale-factor bands.
fn empty_channel(bits: &mut Bits) {
    bits.put(0, 4).put(100, 8); // tag, gain
    bits.put(0, 1).put(0, 2).put(0, 1).put(0, 6); // long window, no bands
    bits.put(0, 1).put(0, 1).put(0, 1); // no pulses, no TNS, no gain control
}

#[test]
fn test_adts_parse_valid_header() {
    let data = minimal_adts_header();
    let frame = parse_adts_header(&data).expect("parse minimal ADTS header");
    assert_eq!(frame.channels, 2, "stereo");
    assert_eq!(frame.sample_rate, 44100);
    assert_eq!(frame.pcm_samples, 1024);
    assert_eq!(frame.payload.len(), 0, "payload empty for frame_length=7");
}

#[test]
fn test_adts_reject_short_data() {
    let result = parse_adts_header(&[0xFF, 0xF1]);
    assert!(result.is_err(), "too-short data should fail");
}

#[test]
fn test_adts_reject_bad_sync() {
    let mut data = minimal_adts_header();
    data[0] = 0x00;
    let result = parse_adts_header(&data);
    assert!(result.is_err(), "bad sync should fail");
}

#[test]
fn test_bitreader_basic() {
    let data = [0b1011_0100u8, 0b1100_1010u8];
    let mut br = BitReader::new(&data);
    assert_eq!(br.read_bits(4).expect("read 4 bits"), 0b1011);
    assert_eq!(br.read_bits(4).expect("read 4 bits"), 0b0100);
    assert_eq!(br.read_bits(4).expect("read 4 bits"), 0b1100);
}

#[test]
fn test_bitreader_bool() {
    let data = [0b1000_0000u8];
    let mut br = BitReader::new(&data);
    assert!(br.read_bool().expect("read bool"));
    assert!(!br.read_bool().expect("read bool"));
}

#[test]
fn test_bitreader_exhaustion() {
    let data = [0xFFu8];
    let mut br = BitReader::new(&data);
    br.read_bits(8).expect("read 8 bits");
    assert!(
        br.read_bits(1).is_err(),
        "reading past end should return Err"
    );
}

#[test]
fn test_bytes_remaining() {
    let data = [0x00u8; 4];
    let mut br = BitReader::new(&data);
    assert_eq!(br.bytes_remaining(), 4);
    br.read_bits(8).expect("read byte");
    assert_eq!(br.bytes_remaining(), 3);
}

#[test]
fn test_sfb_offsets_known_rates() {
    let o44 = sfb_offsets_long(44100);
    assert_eq!(*o44.last().expect("last entry"), 1024);
    let o48 = sfb_offsets_long(48000);
    assert_eq!(*o48.last().expect("last entry"), 1024);
    let o32 = sfb_offsets_long(32000);
    assert_eq!(*o32.last().expect("last entry"), 1024);
}

#[test]
fn test_aac_decoder_new() {
    let dec = AacDecoder::new();
    assert!(
        dec.sample_rate().is_none(),
        "no sample rate before first frame"
    );
    assert!(dec.channels().is_none(), "no channels before first frame");
}

#[test]
fn test_aac_decoder_default() {
    let dec = AacDecoder::default();
    assert!(dec.sample_rate().is_none());
    assert!(dec.channels().is_none());
}

#[test]
fn test_decode_aac_empty_returns_error() {
    let result = decode_aac(&[]);
    assert!(result.is_err(), "empty input should be an error");
}

#[test]
fn test_decode_aac_invalid_sync() {
    let data = [0x00u8; 20];
    let result = decode_aac(&data);
    assert!(result.is_err(), "no sync word should be an error");
}

#[test]
fn test_find_adts_sync_present() {
    let data = [0x00, 0x00, 0xFF, 0xF1, 0x00];
    let pos = find_adts_sync(&data);
    assert_eq!(pos, Some(2));
}

#[test]
fn test_find_adts_sync_absent() {
    let data = [0x00u8; 10];
    let pos = find_adts_sync(&data);
    assert!(pos.is_none());
}

#[test]
fn test_sf_huffman_decode_zero_delta() {
    let data = [0b1000_0000u8];
    let mut br = BitReader::new(&data);
    let delta = decode_sf_huffman(&mut br).expect("decode SF Huffman");
    assert_eq!(delta, 0);
}

#[test]
fn test_decode_escape_value_below_16() {
    let data = [0u8; 4];
    let mut br = BitReader::new(&data);
    let v = decode_escape_value(&mut br, 5).expect("escape value below 16");
    assert_eq!(v, 5);
}

#[test]
fn every_header_error() {
    let good = minimal_adts_header();
    let with = |i: usize, b: u8| {
        let mut data = good.clone();
        data[i] = b;
        parse_adts_header(&data).map(|f| f.channels)
    };
    assert_eq!(
        parse_adts_header(&good[..6]).map(|f| f.channels),
        Err(AacError::HeaderTooShort)
    );
    assert_eq!(with(0, 0xFE), Err(AacError::BadSync(0xFEF)));
    assert_eq!(with(2, 0xD0), Err(AacError::ReservedProfile));
    assert_eq!(with(2, 0x74), Err(AacError::BadSamplingIndex(13)));
    assert_eq!(
        with(1, 0xF0),
        Err(AacError::FrameBelowHeader {
            length: 7,
            header: 9
        })
    );
    assert_eq!(
        with(4, 1),
        Err(AacError::FrameBeyondData {
            length: 15,
            available: 7
        })
    );
    assert_eq!(with(6, 2), Err(AacError::MultipleBlocks(2)));
}

#[test]
fn channel_configurations() {
    for (config, channels) in [(0u8, 2u8), (1, 1), (2, 2), (6, 6), (7, 8)] {
        let mut data = minimal_adts_header();
        data[2] = 0x50 | (config >> 2);
        data[3] = (config & 3) << 6;
        let frame = parse_adts_header(&data).expect("header");
        assert_eq!(frame.channels, channels);
    }
}

#[test]
fn a_checksum_makes_the_header_longer() {
    let mut data = minimal_adts_header();
    data[1] = 0xF0;
    data.extend_from_slice(&[0xAA, 0xBB, 0xCC]);
    data[4] = 10 >> 3;
    data[5] = (10 & 7) << 5;
    let frame = parse_adts_header(&data).expect("header");
    assert_eq!(frame.payload, &[0xCC]);
}

#[test]
fn reading_in_parts_gives_the_whole() {
    let data = [0x12u8, 0x34, 0x56, 0x78, 0x9A];
    let mut whole = BitReader::new(&data);
    let all = whole.read_bits(29).expect("29 bits");
    let mut parts = BitReader::new(&data);
    let high = parts.read_bits(11).expect("11 bits");
    let low = parts.read_bits(18).expect("18 bits");
    assert_eq!(all, 0x1234_5678 >> 3);
    assert_eq!(all, (high << 18) | low);
    let mut bytes = BitReader::new(&data);
    for &b in &data {
        assert_eq!(bytes.read_bits(8), Ok(u32::from(b)));
    }
    assert_eq!(bytes.read_bits(0), Ok(0));
    assert_eq!(bytes.read_bool(), Err(AacError::OutOfBits));
}

#[test]
fn a_failed_read_uses_up_the_bits() {
    let data = [0xFFu8, 0xFF];
    let mut br = BitReader::new(&data);
    assert_eq!(br.read_bits(17), Err(AacError::OutOfBits));
    assert_eq!(br.bytes_remaining(), 0);
}

#[test]
fn escapes() {
    // Two ones and a zero, then six bits.
    let mut bits = Bits::new();
    bits.put(0b110, 3).put(0b10_1010, 6);
    let mut br = BitReader::new(&bits.bytes);
    assert_eq!(decode_escape_value(&mut br, 16), Ok(64 + 42));
    // A zero at once, then four bits.
    let mut bits = Bits::new();
    bits.put(0, 1).put(9, 4);
    let mut br = BitReader::new(&bits.bytes);
    assert_eq!(decode_escape_value(&mut br, 16), Ok(25));
    let mut br = BitReader::new(&[0xFF]);
    assert_eq!(decode_escape_value(&mut br, 16), Err(AacError::OutOfBits));
}

#[test]
fn short_windows_are_grouped() {
    let mut bits = Bits::new();
    bits.put(0, 1).put(2, 2).put(1, 1).put(5, 4).put(0b110_1001, 7);
    let mut br = BitReader::new(&bits.bytes);
    let ics = parse_ics_info(&mut br).expect("header");
    assert_eq!(ics.window_sequence, 2);
    assert_eq!(ics.window_shape, 1);
    assert_eq!(ics.max_sfb, 5);
    assert_eq!(ics.num_windows, 8);
    assert_eq!(ics.window_group_length.iter().sum::<usize>(), 8);
    assert_eq!(ics.num_window_groups, ics.window_group_length.len());
}

#[test]
fn long_windows_have_one_group() {
    let mut bits = Bits::new();
    bits.put(0, 1).put(0, 2).put(0, 1).put(40, 6);
    let mut br = BitReader::new(&bits.bytes);
    let ics = parse_ics_info(&mut br).expect("header");
    assert_eq!(ics.max_sfb, 40);
    assert_eq!(ics.num_windows, 1);
    assert_eq!(ics.window_group_length, vec![1]);
    let mut br = BitReader::new(&[]);
    assert!(parse_ics_info(&mut br).is_err());
}

#[test]
fn scale_factors_start_at_the_gain() {
    let mut bits = Bits::new();
    bits.put(0, 1).put(0, 2).put(0, 1).put(3, 6);
    bits.put(0b111, 3); // three deltas of zero
    let mut br = BitReader::new(&bits.bytes);
    let ics = parse_ics_info(&mut br).expect("header");
    let factors = decode_scale_factors(&mut br, &ics, 123).expect("factors");
    assert_eq!(factors, vec![123, 123, 123]);
}

#[test]
fn coefficients_are_padded_to_a_frame() {
    let mut bits = Bits::new();
    bits.put(0, 1).put(0, 2).put(0, 1).put(0, 6);
    let mut br = BitReader::new(&bits.bytes);
    let ics = parse_ics_info(&mut br).expect("header");
    let coeffs = decode_spectral_data(&mut br, &ics, &[0, 4, 8]).expect("coefficients");
    assert_eq!(coeffs, vec![0; 1024]);
    assert_eq!(decode_spectral_cb11(&mut br, 0), Ok(vec![]));
}

#[test]
fn a_channel_without_bands_is_silent() {
    let mut bits = Bits::new();
    empty_channel(&mut bits);
    let mut br = BitReader::new(&bits.bytes);
    let channel = decode_sce(&mut br, 44_100).expect("channel");
    assert!(channel.scale_factors.is_empty());
    assert_eq!(channel.coeffs, vec![0; 1024]);
}

#[test]
fn gain_control_is_refused() {
    let mut bits = Bits::new();
    bits.put(0, 4).put(100, 8);
    bits.put(0, 1).put(0, 2).put(0, 1).put(0, 6);
    bits.put(0, 1).put(0, 1).put(1, 1);
    let mut br = BitReader::new(&bits.bytes);
    assert_eq!(
        decode_sce(&mut br, 44_100).map(|c| c.coeffs.len()),
        Err(AacError::GainControl)
    );
}

#[test]
fn frames_of_one_channel_and_of_two() {
    let mut one = Bits::new();
    one.put(0, 3);
    empty_channel(&mut one);
    let mut two = Bits::new();
    two.put(1, 3);
    empty_channel(&mut two);
    empty_channel(&mut two);
    let mut dec = AacDecoder::new();
    let mono = dec.decode_frame(&frame_of(&one.bytes));
    assert_eq!(mono.error, None);
    assert_eq!(mono.channels.len(), 1);
    let pair = dec.decode_frame(&frame_of(&two.bytes));
    assert_eq!(pair.error, None);
    assert_eq!(pair.channels.len(), 2);
    assert_eq!(dec.sample_rate(), Some(44_100));
    assert_eq!(dec.channels(), Some(1));
}

#[test]
fn a_broken_pair_keeps_its_first_channel() {
    let mut two = Bits::new();
    two.put(1, 3);
    empty_channel(&mut two);
    let mut dec = AacDecoder::new();
    let pair = dec.decode_frame(&frame_of(&two.bytes));
    assert_eq!(pair.error, Some(AacError::OutOfBits));
    assert_eq!(pair.channels.len(), 1);
}

#[test]
fn other_elements_are_refused() {
    let mut dec = AacDecoder::new();
    let frame = dec.decode_frame(&frame_of(&[0b0110_0000]));
    assert_eq!(frame.error, Some(AacError::ElementType(3)));
    assert!(frame.channels.is_empty());
    let frame = dec.decode_frame(&frame_of(&[]));
    assert_eq!(frame.error, Some(AacError::OutOfBits));
}

#[test]
fn streams() {
    let mut one = Bits::new();
    one.put(0, 3);
    empty_channel(&mut one);
    let frame = frame_of(&one.bytes);
    let mut data = vec![0, 1, 2];
    data.extend_from_slice(&frame);
    data.extend_from_slice(&[9, 9]);
    data.extend_from_slice(&frame);
    let stream = decode_aac(&data).expect("two frames");
    assert_eq!(stream.frames.len(), 2);
    assert!(stream.frames.iter().all(|f| f.error.is_none()));
    assert_eq!(stream.sample_rate, 44_100);
    assert_eq!(stream.channels, 1);

    assert_eq!(
        decode_aac(&[]).map(|s| s.channels),
        Err(AacError::EmptyInput)
    );
    assert_eq!(
        decode_aac(&[0; 20]).map(|s| s.channels),
        Err(AacError::NoSync)
    );
    assert_eq!(
        decode_aac(&frame_of(&[0b0110_0000])).map(|s| s.channels),
        Err(AacError::NoFrames)
    );
}

#[test]
fn only_whole_bytes_remain() {
    let data = [0u8; 4];
    let mut br = BitReader::new(&data);
    assert_eq!(br.read_bits(1), Ok(0));
    assert_eq!(br.bytes_remaining(), 3);
    assert_eq!(br.read_bits(30), Ok(0));
    assert_eq!(br.bytes_remaining(), 0);
    assert!(br.has_bits());
    assert_eq!(br.read_bits(1), Ok(0));
    assert!(!br.has_bits());
}

#[test]
fn coefficients_are_read_from_part_of_a_byte() {
    // The rest of the last byte is too short for the pairs of one band: it is
    // read all the same, and runs out.
    let mut info = Bits::new();
    info.put(0, 1).put(0, 2).put(0, 1).put(1, 6);
    let mut br = BitReader::new(&info.bytes);
    let ics = parse_ics_info(&mut br).expect("info");
    let data = [0xFFu8];
    let mut br = BitReader::new(&data);
    assert_eq!(br.read_bits(7), Ok(0x7F));
    let edges = sfb_offsets_long(44_100);
    assert_eq!(
        decode_spectral_data(&mut br, &ics, edges),
        Err(AacError::OutOfBits)
    );
    assert_eq!(decode_spectral_data(&mut br, &ics, edges), Ok(vec![0; 1024]));
}

#[test]
fn short_windows_have_128_coefficients_each() {
    let mut ics = IcsInfo {
        window_sequence: 2,
        window_shape: 0,
        max_sfb: 1,
        scale_factor_grouping: 0,
        num_windows: 3,
        num_window_groups: 3,
        window_group_length: vec![1, 1, 1],
    };
    let mut br = BitReader::new(&[]);
    assert_eq!(decode_spectral_data(&mut br, &ics, &[0, 4]), Ok(vec![0; 384]));
    // No coefficients: no bits are read, whatever the bands say.
    ics.num_windows = 0;
    let data = [0xFFu8];
    let mut br = BitReader::new(&data);
    assert_eq!(decode_spectral_data(&mut br, &ics, &[0, 2000]), Ok(vec![]));
    assert_eq!(br.read_bits(8), Ok(0xFF));
    // The number of windows does not matter to a long one.
    ics.window_sequence = 0;
    let mut br = BitReader::new(&[]);
    assert_eq!(decode_spectral_data(&mut br, &ics, &[0, 4]), Ok(vec![0; 1024]));
}
