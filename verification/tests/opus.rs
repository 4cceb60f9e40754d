//! Opus headers and streams.
use oxiaudio_codec::celt_budget::compute_k_pulses;
use oxiaudio_codec::ogg_reader::OggReader;
use oxiaudio_codec::opus_celt::{encode_celt_bands, BAND_BINS, NUM_BANDS};
use oxiaudio_codec::opus_encoder::{
    celt_frame_packet, check_opus_input, encode_opus, frame_count, mux_opus, write_opus_head,
    write_vorbis_comment_packet, OpusConformantMode, OpusEncodeConfig, OpusEncodeError,
    OpusStreamEncoder, FRAME_SIZE,
};
use oxiaudio_codec::opus_range::RangeEncoder;

/// The frame of a silent 20 ms: no energy, and all pulses on the first entry.
fn silent_frame(bits: u32) -> Vec<u8> {
    let shapes: Vec<Vec<i32>> = (0..NUM_BANDS)
        .map(|b| {
            let n = BAND_BINS[b + 1] - BAND_BINS[b];
            let mut y = vec![0i32; n];
            y[0] = compute_k_pulses(n, bits) as i32;
            y
        })
        .collect();
    let mut enc = RangeEncoder::new();
    encode_celt_bands(&[0; NUM_BANDS], &shapes, &mut enc);
    enc.finish()
}

/// A stream of `frames` silent frames.
fn silent_stream(channels: usize, frames: usize, kbps: u32) -> Vec<u8> {
    let samples = FRAME_SIZE * channels * frames;
    let coded = vec![silent_frame(8); frame_count(samples, channels)];
    encode_opus(samples, channels, 48_000, &coded, kbps).expect("stream")
}

fn contains(bytes: &[u8], magic: &[u8]) -> bool {
    bytes.windows(magic.len()).any(|w| w == magic)
}

#[test]
fn test_encode_opus_produces_valid_ogg_output() {
    let bytes = silent_stream(2, 1, 128);
    assert!(!bytes.is_empty(), "output must not be empty");
    assert_eq!(&bytes[..4], b"OggS", "output must start with OggS magic");
}

#[test]
fn test_encode_opus_head_has_correct_magic() {
    let bytes = silent_stream(1, 1, 64);
    assert!(
        contains(&bytes, b"OpusHead"),
        "OpusHead magic must appear in the first page"
    );
}

#[test]
fn test_encode_opus_tags_present() {
    let bytes = silent_stream(1, 1, 64);
    assert!(
        contains(&bytes, b"OpusTags"),
        "OpusTags magic must appear in output"
    );
}

#[test]
fn test_encode_opus_rejects_wrong_sample_rate() {
    let result = mux_opus(1, 44_100, &[]);
    assert!(result.is_err(), "encode_opus must reject non-48 kHz input");
}

#[test]
fn test_encode_opus_rejects_zero_channels() {
    assert!(mux_opus(1, 48_000, &[silent_frame(8)]).is_ok());
    assert!(mux_opus(2, 48_000, &[silent_frame(8)]).is_ok());
    assert_eq!(
        mux_opus(0, 48_000, &[]),
        Err(OpusEncodeError::UnsupportedChannels(0))
    );
}

#[test]
fn test_encode_opus_empty_buffer_produces_header_only() {
    let bytes = silent_stream(1, 0, 64);
    assert!(!bytes.is_empty());
    assert_eq!(&bytes[..4], b"OggS");
}

#[test]
fn test_encode_opus_multiple_frames() {
    let bytes = silent_stream(1, 3, 64);
    assert!(!bytes.is_empty());
    let page_count = bytes.windows(4).filter(|w| *w == b"OggS").count();
    assert!(
        page_count >= 3,
        "expected at least 3 OGG pages, got {page_count}"
    );
}

#[test]
fn test_opus_config_default() {
    let cfg = OpusEncodeConfig::default();
    assert_eq!(cfg.target_bitrate_kbps, 128);
    assert_eq!(cfg.frame_size, FRAME_SIZE);
}

#[test]
fn test_opus_config_with_bitrate() {
    let cfg = OpusEncodeConfig::with_bitrate(320);
    assert_eq!(cfg.target_bitrate_kbps, 320);
    assert_eq!(cfg.frame_size, FRAME_SIZE);
}

#[test]
fn test_opus_stream_encoder_produces_ogg_output() {
    let mut enc = OpusStreamEncoder::new(2, 0x1234).expect("new");
    enc.encode_frame(FRAME_SIZE * 2, &silent_frame(8))
        .expect("encode_frame");
    let bytes = enc.finalize();
    assert!(contains(&bytes, b"OggS"), "must contain OGG pages");
}

#[test]
fn test_opus_stream_encoder_rejects_wrong_frame_size() {
    let mut enc = OpusStreamEncoder::new(1, 0x5678).expect("new");
    assert!(
        enc.encode_frame(FRAME_SIZE - 1, &silent_frame(8)).is_err(),
        "must reject wrong frame size"
    );
    let _ = enc.finalize();
}

#[test]
fn test_opus_stream_encoder_frame_count() {
    let mut enc = OpusStreamEncoder::new(1, 0xABCD).expect("new");
    for _ in 0..3 {
        enc.encode_frame(FRAME_SIZE, &silent_frame(8)).expect("frame");
    }
    assert_eq!(enc.frames_encoded(), 3);
    assert_eq!(enc.granule_pos(), 2880);
    let _ = enc.finalize();
}

#[test]
fn encode_opus_unchanged_structure() {
    let bytes = silent_stream(1, 1, 128);
    assert_eq!(&bytes[..4], b"OggS", "must start with OggS magic");
    assert!(contains(&bytes, b"OpusHead"), "OpusHead magic must appear");
    assert!(contains(&bytes, b"OpusTags"), "OpusTags magic must appear");
    let mut reader = OggReader::new(bytes);
    let _ = reader.read_packet();
    let _ = reader.read_packet();
    let first = reader
        .read_packet()
        .expect("page")
        .expect("at least one audio packet");
    assert_eq!(
        first[0], 0xE0,
        "mono encode_opus TOC must be 0xE0 ((28 << 3) | 0x00)"
    );
}

#[test]
fn the_opus_header() {
    let head = write_opus_head(2, 3840, 48_000);
    let mut expected = b"OpusHead".to_vec();
    expected.extend_from_slice(&[1, 2, 0x00, 0x0F, 0x80, 0xBB, 0, 0, 0, 0, 0]);
    assert_eq!(head, expected);
}

#[test]
fn comment_headers() {
    let opus = write_vorbis_comment_packet(b"me", &[b"A=1".to_vec()], true);
    let mut expected = b"OpusTags".to_vec();
    expected.extend_from_slice(&[2, 0, 0, 0, b'm', b'e', 1, 0, 0, 0, 3, 0, 0, 0]);
    expected.extend_from_slice(b"A=1");
    assert_eq!(opus, expected);
    let vorbis = write_vorbis_comment_packet(b"", &[], false);
    let mut expected = b"\x03vorbis".to_vec();
    expected.extend_from_slice(&[0, 0, 0, 0, 0, 0, 0, 0, 1]);
    assert_eq!(vorbis, expected);
}

#[test]
fn opus_inputs() {
    assert_eq!(check_opus_input(1, 48_000), Ok(()));
    assert_eq!(check_opus_input(2, 48_000), Ok(()));
    assert_eq!(
        check_opus_input(3, 44_100),
        Err(OpusEncodeError::UnsupportedChannels(3))
    );
    assert_eq!(
        check_opus_input(2, 44_100),
        Err(OpusEncodeError::UnsupportedSampleRate(44_100))
    );
    assert!(OpusStreamEncoder::new(3, 1).is_err());
    assert_eq!(frame_count(2000, 1), 2);
    assert_eq!(frame_count(2000, 2), 1);
    assert_eq!(frame_count(2000, 0), 0);
    assert_ne!(OpusConformantMode::Celt, OpusConformantMode::Hybrid);
}

#[test]
fn stereo_has_its_own_byte() {
    assert_eq!(celt_frame_packet(1, &[9]), vec![0xE0, 9]);
    assert_eq!(celt_frame_packet(2, &[9]), vec![0xEC, 9]);
}

#[test]
fn opus_streams_are_read_back() {
    let packets = vec![vec![1u8; 300], vec![], vec![2u8; 5]];
    for count in 0..=3 {
        let bytes = mux_opus(2, 48_000, &packets[..count]).expect("stream");
        let mut reader = OggReader::new(bytes);
        let head = reader.read_packet().expect("page").expect("header");
        assert_eq!(head, write_opus_head(2, 3840, 48_000));
        let tags = reader.read_packet().expect("page").expect("header");
        assert_eq!(&tags[..8], b"OpusTags");
        assert_eq!(&tags[12..26], b"OxiAudio 0.1.0");
        for p in &packets[..count] {
            assert_eq!(reader.read_packet().expect("page").as_ref(), Some(p));
        }
        assert_eq!(reader.read_packet(), Ok(None));
    }
}

#[test]
fn streaming_gives_the_same_packets() {
    let mut enc = OpusStreamEncoder::new(1, 77).expect("new");
    let mut bytes = enc.take_bytes();
    for i in 0..4u8 {
        enc.encode_frame(FRAME_SIZE, &[i; 10]).expect("frame");
        bytes.extend(enc.take_bytes());
    }
    bytes.extend(enc.finalize());
    let mut reader = OggReader::new(bytes);
    let _ = reader.read_packet();
    let _ = reader.read_packet();
    for i in 0..4u8 {
        let packet = reader.read_packet().expect("page").expect("packet");
        assert_eq!(packet[0], 0xE0);
        assert_eq!(&packet[1..], &[i; 10]);
    }
    assert_eq!(reader.read_packet(), Ok(None));
}

#[test]
fn stereo_streams_have_the_stereo_configuration() {
    let frames = vec![vec![7u8; 3]];
    let bytes = encode_opus(1920, 2, 48_000, &frames, 64).expect("stream");
    let mut reader = OggReader::new(bytes);
    let _ = reader.read_packet();
    let _ = reader.read_packet();
    let packet = reader.read_packet().expect("page").expect("packet");
    assert_eq!(packet, vec![0xEC, 7, 7, 7]);
    assert_eq!(packet[0] >> 3, 29);
    assert_eq!(reader.read_packet(), Ok(None));
}

#[test]
fn neither_bit_rate_nor_incomplete_frames_change_a_stream() {
    let frames = vec![vec![1u8; 9], vec![2u8; 4]];
    let whole = encode_opus(1920, 1, 48_000, &frames, 64).expect("stream");
    for extra in [0, 1, 959] {
        for kbps in [0, 128, u32::MAX] {
            let other = encode_opus(1920 + extra, 1, 48_000, &frames, kbps).expect("stream");
            assert_eq!(other, whole);
        }
    }
    assert_ne!(
        encode_opus(1919, 1, 48_000, &frames, 64).expect("stream"),
        whole
    );
    assert_eq!(
        encode_opus(1920, 3, 48_000, &frames, 64),
        Err(OpusEncodeError::UnsupportedChannels(3))
    );
    assert_eq!(
        encode_opus(1920, 1, 8_000, &frames, 64),
        Err(OpusEncodeError::UnsupportedSampleRate(8_000))
    );
}
