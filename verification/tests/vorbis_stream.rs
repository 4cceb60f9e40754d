//! Vorbis packets and streams.
use oxiaudio_codec::ogg_reader::OggReader;
use oxiaudio_codec::vorbis::{
    block_count, block_plan, check_vorbis_input, encode_audio_packet, ilog, mux_vorbis,
    pack_vorbis_float32, write_ident_header, write_setup_header, BitWriter, ChannelBlock,
    VorbisEncodeError, RESIDUE_MINIMUM, RESIDUE_STEP,
};

fn contains(bytes: &[u8], magic: &[u8]) -> bool {
    bytes.windows(magic.len()).any(|w| w == magic)
}

fn silence(channels: usize) -> Vec<ChannelBlock> {
    (0..channels)
        .map(|_| ChannelBlock {
            floor: None,
            residue: vec![],
        })
        .collect()
}

/// All blocks of `samples` samples of silence.
fn silent_packets(channels: usize, samples: usize) -> Vec<Vec<u8>> {
    (0..block_count(samples))
        .map(|i| {
            let plan = block_plan(samples, i);
            encode_audio_packet(plan.prev_long, plan.next_long, &silence(channels))
        })
        .collect()
}

#[test]
fn test_encode_vorbis_produces_ogg_output() {
    let bytes =
        mux_vorbis(1, 44_100, &silent_packets(1, 4096)).expect("encode_vorbis must succeed");
    assert_eq!(
        &bytes[..4],
        b"OggS",
        "output must start with OGG capture pattern"
    );
}

#[test]
fn test_encode_vorbis_has_vorbis_magic() {
    let bytes =
        mux_vorbis(2, 48_000, &silent_packets(2, 4096)).expect("encode_vorbis must succeed");
    assert!(
        contains(&bytes, b"\x01vorbis"),
        "output must contain Vorbis identification header magic"
    );
}

#[test]
fn test_encode_vorbis_rejects_high_channel_count() {
    let result = mux_vorbis(3, 44_100, &silent_packets(3, 1024));
    assert_eq!(result, Err(VorbisEncodeError::UnsupportedChannels(3)));
}

#[test]
fn test_encode_vorbis_rejects_invalid_sample_rate() {
    let result = mux_vorbis(1, 22_050, &silent_packets(1, 1024));
    assert_eq!(result, Err(VorbisEncodeError::UnsupportedSampleRate(22_050)));
}

#[test]
fn test_encode_vorbis_sine_produces_nonzero_bytes() {
    let loud = vec![ChannelBlock {
        floor: Some((120, 90)),
        residue: (0..128).map(|i| (i * 5) as u8).collect(),
    }];
    let sine = encode_audio_packet(false, true, &loud);
    let quiet = encode_audio_packet(false, true, &silence(1));
    assert_ne!(sine, quiet, "audio and silence must differ");
    assert_eq!(sine.len(), (3 + 17 + 3 + 128 * 8 + 7) / 8);
}

#[test]
fn test_encode_vorbis_round_trip_decode() {
    let bytes = mux_vorbis(1, 44_100, &silent_packets(1, 8192)).expect("stream");
    assert_eq!(
        &bytes[..4],
        b"OggS",
        "output must start with OGG capture pattern"
    );
    assert!(contains(&bytes, b"\x01vorbis"));
    assert!(contains(&bytes, b"\x03vorbis"));
    assert!(contains(&bytes, b"\x05vorbis"));
    assert!(bytes.len() > 100);
}

#[test]
fn bits_fill_bytes_from_the_bottom() {
    let mut bw = BitWriter::new();
    bw.write_bits(0b101, 3);
    bw.write_bit(true);
    bw.write_bits(0x1FF, 9);
    bw.write_bits(0xFF, 0);
    assert_eq!(bw.finalize(), vec![0b1111_1101, 0b0001_1111]);
}

#[test]
fn wide_fields_keep_all_bits() {
    let mut bw = BitWriter::new();
    bw.write_bit(false);
    bw.write_bits(u64::MAX, 64);
    let bytes = bw.finalize();
    assert_eq!(bytes.len(), 9);
    assert_eq!(bytes[0], 0xFE);
    assert_eq!(bytes[8], 0x01);
    assert_eq!(BitWriter::new().finalize(), Vec::<u8>::new());
}

/// A field of `n` bits at bit `at`.
fn field(bytes: &[u8], at: usize, n: usize) -> u64 {
    (0..n)
        .map(|i| u64::from((bytes[(at + i) / 8] >> ((at + i) % 8)) & 1) << i)
        .sum()
}

#[test]
fn fields_are_read_back() {
    let fields: [(u64, u8); 6] = [(5, 3), (0, 1), (1000, 10), (77, 7), (u64::MAX, 64), (1, 33)];
    let mut bw = BitWriter::new();
    for &(v, n) in &fields {
        bw.write_bits(v, n);
    }
    let bytes = bw.finalize();
    let mut at = 0;
    for &(v, n) in &fields {
        assert_eq!(field(&bytes, at, n as usize), v);
        at += n as usize;
    }
}

#[test]
fn number_lengths() {
    assert_eq!(ilog(0), 0);
    assert_eq!(ilog(1), 1);
    assert_eq!(ilog(7), 3);
    assert_eq!(ilog(8), 4);
    assert_eq!(ilog(u32::MAX), 32);
}

#[test]
fn the_vorbis_header() {
    let head = write_ident_header(2, 44_100);
    assert_eq!(head.len(), 30);
    assert_eq!(&head[..7], b"\x01vorbis");
    assert_eq!(&head[7..11], &[0; 4]);
    assert_eq!(head[11], 2);
    assert_eq!(&head[12..16], &44_100u32.to_le_bytes());
    assert_eq!(&head[16..28], &[0; 12]);
    assert_eq!(&head[28..], &[0xB8, 1]);
}

#[test]
fn the_setup_header() {
    let setup = write_setup_header();
    assert_eq!(&setup[..7], b"\x05vorbis");
    let body = &setup[7..];
    assert_eq!(field(body, 0, 8), 1);
    assert_eq!(field(body, 8, 24), 0x56_4342);
    assert_eq!(field(body, 32, 16), 1);
    assert_eq!(field(body, 48, 24), 8);
    // Past the first book's flags, lengths and lookup type.
    let second = 74 + 8 * 5 + 4;
    assert_eq!(field(body, second, 24), 0x56_4342);
    assert_eq!(field(body, second + 40, 24), 256);
    let values = second + 66 + 256 * 5;
    assert_eq!(field(body, values, 4), 1);
    assert_eq!(field(body, values + 4, 32), 0xE2F8_0000);
    assert_eq!(field(body, values + 36, 32), 0x6218_1818);
    assert_eq!(field(body, values + 68, 4), 7);
    for i in 0..256 {
        assert_eq!(field(body, values + 73 + 8 * i, 8), i as u64);
    }
    let time = values + 73 + 2048;
    let floor = time + 22;
    assert_eq!(field(body, floor + 6, 16), 1);
    assert_eq!(field(body, floor + 43, 10), 341);
    assert_eq!(field(body, floor + 53, 10), 682);
    let residue = floor + 63;
    assert_eq!(field(body, residue + 46, 24), 128);
    assert_eq!(field(body, residue + 70, 24), 31);
    let mode = residue + 120 + 50;
    assert_eq!(field(body, mode + 6, 1), 1);
    assert_eq!(field(body, mode + 47, 1), 1);
    assert_eq!(body.len(), (mode + 48 + 7) / 8);
}

fn unpack(packed: u32) -> f64 {
    let mantissa = f64::from(packed & 0x1F_FFFF);
    let exponent = ((packed >> 21) & 0x3FF) as i32;
    let value = mantissa * 2f64.powi(exponent - 788 - 21);
    if packed >> 31 == 1 {
        -value
    } else {
        value
    }
}

#[test]
fn test_pack_vorbis_float32_roundtrip() {
    for &v in &[-6.0f32, -1.0, 0.0, 0.04706, 0.5, 1.0, 6.0] {
        let packed = pack_vorbis_float32(v.to_bits());
        let err = (unpack(packed) - f64::from(v)).abs();
        assert!(
            err < 0.001 || v == 0.0,
            "pack_vorbis_float32({v}) -> {packed:#010X}, error={err}"
        );
    }
}

#[test]
fn packed_floats() {
    assert_eq!(pack_vorbis_float32(1.0f32.to_bits()), 0x62B0_0000);
    assert_eq!(pack_vorbis_float32((-1.0f32).to_bits()), 0xE2B0_0000);
    assert_eq!(pack_vorbis_float32(0.0f32.to_bits()), 0);
    assert_eq!(pack_vorbis_float32((-0.0f32).to_bits()), 0);
    // The mantissa does not round up to another power of two.
    assert_eq!(pack_vorbis_float32(0x3FFF_FFFF) & 0x1F_FFFF, 0x1F_FFFF);
    for bits in [1u32, 0x7F_FFFF, 0x80_0000, 0x7F7F_FFFF, 0x1234_5678] {
        let v = f64::from(f32::from_bits(bits));
        assert!((unpack(pack_vorbis_float32(bits)) / v - 1.0).abs() < 1e-6);
    }
}

#[test]
fn packed_floats_of_the_residue_book() {
    assert_eq!(f32::from_bits(RESIDUE_MINIMUM), -6.0);
    assert_eq!(f32::from_bits(RESIDUE_STEP), 12.0 / 255.0);
    let low = unpack(pack_vorbis_float32(RESIDUE_MINIMUM));
    let step = unpack(pack_vorbis_float32(RESIDUE_STEP));
    assert_eq!(low, -6.0);
    assert!((low + 255.0 * step - 6.0).abs() < 1e-5);
}

#[test]
fn silence_takes_one_byte() {
    assert_eq!(encode_audio_packet(false, false, &silence(1)), vec![0]);
    assert_eq!(encode_audio_packet(true, false, &silence(1)), vec![2]);
    assert_eq!(encode_audio_packet(true, true, &silence(2)), vec![6]);
}

#[test]
fn a_silent_channel_beside_another_has_zeros() {
    let blocks = vec![
        ChannelBlock {
            floor: None,
            residue: vec![],
        },
        ChannelBlock {
            floor: Some((200, 100)),
            residue: vec![0xFF; 128],
        },
    ];
    let packet = encode_audio_packet(true, true, &blocks);
    assert_eq!(field(&packet, 0, 3), 0b110);
    assert_eq!(field(&packet, 3, 1), 0);
    assert_eq!(field(&packet, 4, 1), 1);
    assert_eq!(field(&packet, 5, 8), 200);
    assert_eq!(field(&packet, 13, 8), 100);
    for i in 0..128 {
        assert_eq!(field(&packet, 24 + 8 * i, 8), 0);
        assert_eq!(field(&packet, 24 + 1027 + 8 * i, 8), 0xFF);
    }
    assert_eq!(packet.len(), (21 + 2 * 1027 + 7) / 8);
}

#[test]
fn a_floor_that_starts_at_zero_has_zeros() {
    let blocks = vec![ChannelBlock {
        floor: Some((0, 50)),
        residue: vec![],
    }];
    let packet = encode_audio_packet(false, false, &blocks);
    assert_eq!(field(&packet, 3, 1), 1);
    assert_eq!(field(&packet, 12, 8), 50);
    assert_eq!(packet.len(), (20 + 1027 + 7) / 8);
    assert!(packet[3..].iter().all(|&b| b == 0));
}

#[test]
fn vorbis_inputs() {
    assert_eq!(check_vorbis_input(1, 44_100), Ok(()));
    assert_eq!(check_vorbis_input(2, 48_000), Ok(()));
    assert_eq!(
        check_vorbis_input(0, 8_000),
        Err(VorbisEncodeError::UnsupportedChannels(0))
    );
    assert_eq!(
        check_vorbis_input(2, 8_000),
        Err(VorbisEncodeError::UnsupportedSampleRate(8_000))
    );
}

#[test]
fn blocks_overlap_by_half() {
    assert_eq!(block_count(0), 1);
    assert_eq!(block_count(1023), 1);
    assert_eq!(block_count(2047), 1);
    assert_eq!(block_count(4096), 4);
    let first = block_plan(4096, 0);
    assert_eq!((first.start, first.end), (0, 2048));
    assert!(!first.prev_long && first.next_long);
    let last = block_plan(4096, 3);
    assert_eq!((last.start, last.end), (3072, 4096));
    assert!(last.prev_long && !last.next_long);
    let only = block_plan(10, 0);
    assert_eq!((only.start, only.end), (0, 10));
    assert!(!only.prev_long && !only.next_long);
}

#[test]
fn vorbis_streams_are_read_back() {
    let packets = silent_packets(2, 5000);
    let bytes = mux_vorbis(2, 44_100, &packets).expect("stream");
    let mut reader = OggReader::new(bytes);
    let ident = reader.read_packet().expect("page").expect("header");
    assert_eq!(ident, write_ident_header(2, 44_100));
    let comments = reader.read_packet().expect("page").expect("header");
    assert_eq!(&comments[..7], b"\x03vorbis");
    assert_eq!(&comments[7..11], &29u32.to_le_bytes());
    assert_eq!(&comments[11..40], b"OxiAudio 0.1.0 Vorbis encoder");
    assert_eq!(&comments[40..], &[0, 0, 0, 0, 1]);
    let setup = reader.read_packet().expect("page").expect("header");
    assert_eq!(setup, write_setup_header());
    for p in &packets {
        assert_eq!(reader.read_packet().expect("page").as_ref(), Some(p));
    }
    assert_eq!(reader.read_packet(), Ok(None));
}
