//! Pages, packets and whole Ogg streams.
use oxiaudio_codec::ogg::{push_le32, push_le64, OggStream};
use oxiaudio_codec::ogg_reader::{
    is_capture_pattern, ogg_crc32, page_from_parts, page_in_parts, parse_page, segment_total,
    FoundPage, OggError, OggReader, PacketAssembler, PartialPage, Step,
};

/// A page with one segment for each chunk of up to 255 bytes.
fn build_ogg_page(header_type: u8, payload: &[u8]) -> Vec<u8> {
    let mut page = Vec::new();
    page.extend_from_slice(b"OggS");
    page.push(0);
    page.push(header_type);
    page.extend_from_slice(&0i64.to_le_bytes());
    page.extend_from_slice(&1u32.to_le_bytes());
    page.extend_from_slice(&0u32.to_le_bytes());
    page.extend_from_slice(&0u32.to_le_bytes());
    let chunks: Vec<&[u8]> = payload.chunks(255).collect();
    page.push(chunks.len() as u8);
    for chunk in &chunks {
        page.push(chunk.len() as u8);
    }
    for chunk in &chunks {
        page.extend_from_slice(chunk);
    }
    page
}

#[test]
fn test_empty_stream_returns_none() {
    let mut reader = OggReader::new(vec![]);
    let result = reader.read_packet().expect("no error on empty stream");
    assert!(result.is_none(), "empty stream must return None");
}

#[test]
fn test_single_packet_in_one_page() {
    let page = build_ogg_page(0x02, b"ABC");
    let mut reader = OggReader::new(page);
    let pkt = reader
        .read_packet()
        .expect("no error")
        .expect("must have packet");
    assert_eq!(&pkt, b"ABC");
}

#[test]
fn test_multiple_packets_in_one_page() {
    let mut page = Vec::new();
    page.extend_from_slice(b"OggS");
    page.push(0);
    page.push(0x02);
    page.extend_from_slice(&0i64.to_le_bytes());
    page.extend_from_slice(&1u32.to_le_bytes());
    page.extend_from_slice(&0u32.to_le_bytes());
    page.extend_from_slice(&0u32.to_le_bytes());
    page.push(2);
    page.push(2);
    page.push(2);
    page.extend_from_slice(b"ABCD");

    let mut reader = OggReader::new(page);
    let pkt1 = reader.read_packet().expect("no error").expect("packet 1");
    assert_eq!(&pkt1, b"AB");
    let pkt2 = reader.read_packet().expect("no error").expect("packet 2");
    assert_eq!(&pkt2, b"CD");
    let none = reader.read_packet().expect("no error");
    assert!(none.is_none());
}

#[test]
fn test_ogg_crc32_known_value() {
    assert_eq!(ogg_crc32(&[]), 0);
}

#[test]
fn checksums_of_short_strings() {
    assert_eq!(ogg_crc32(&[0]), 0);
    assert_eq!(ogg_crc32(&[1]), 0x04C1_1DB7);
    assert_eq!(ogg_crc32(&[0, 1]), 0x04C1_1DB7);
    assert_eq!(ogg_crc32(&[1, 0x04, 0xC1, 0x1D, 0xB7]), 0);
}

#[test]
fn a_packet_runs_over_pages() {
    let mut stream = build_ogg_page(0x02, &[7u8; 255]);
    stream.extend(build_ogg_page(0x05, &[8u8; 3]));
    let mut reader = OggReader::new(stream);
    let pkt = reader.read_packet().expect("no error").expect("packet");
    assert_eq!(pkt.len(), 258);
    assert_eq!(pkt[254], 7);
    assert_eq!(pkt[255], 8);
    assert!(reader.read_packet().expect("no error").is_none());
}

#[test]
fn an_unfinished_packet_comes_out_at_the_end() {
    let stream = build_ogg_page(0x02, &[7u8; 255]);
    let mut reader = OggReader::new(stream);
    let pkt = reader.read_packet().expect("no error").expect("packet");
    assert_eq!(pkt, vec![7u8; 255]);
    assert!(reader.read_packet().expect("no error").is_none());
}

#[test]
fn nothing_is_read_behind_the_last_page() {
    let mut stream = build_ogg_page(0x04, b"AB");
    stream.extend(build_ogg_page(0x00, b"CD"));
    let mut reader = OggReader::new(stream);
    assert_eq!(
        reader.read_packet().expect("no error"),
        Some(b"AB".to_vec())
    );
    assert!(reader.read_packet().expect("no error").is_none());
}

#[test]
fn another_capture_pattern_is_an_error() {
    let mut reader = OggReader::new(b"RIFF....".to_vec());
    assert_eq!(reader.read_packet(), Err(OggError::SyncLost));
}

#[test]
fn another_version_is_an_error() {
    let mut page = build_ogg_page(0x02, b"ABC");
    page[4] = 9;
    let mut reader = OggReader::new(page);
    assert_eq!(reader.read_packet(), Err(OggError::Version(9)));
}

#[test]
fn a_page_that_is_cut_off_is_an_error() {
    let page = build_ogg_page(0x02, b"ABC");
    for n in 4..page.len() {
        let mut reader = OggReader::new(page[..n].to_vec());
        assert_eq!(reader.read_packet(), Err(OggError::Truncated), "{n} bytes");
    }
    for n in 0..4 {
        let mut reader = OggReader::new(page[..n].to_vec());
        assert_eq!(reader.read_packet(), Ok(None), "{n} bytes");
    }
}

#[test]
fn page_fields() {
    let mut stream = vec![0xAA];
    stream.extend(build_ogg_page(0x06, &[1, 2, 3]));
    match parse_page(&stream, 1) {
        FoundPage::Page(page, next) => {
            assert_eq!(page.header_type, 6);
            assert_eq!(page.granule_pos, 0);
            assert_eq!(page.serial, 1);
            assert_eq!(page.seq_num, 0);
            assert_eq!(page.segment_table, vec![3]);
            assert_eq!(page.data, vec![1, 2, 3]);
            assert!(page.last_segment_terminates_packet());
            assert_eq!(next, stream.len());
        }
        _ => panic!("a page was expected"),
    }
}

#[test]
fn parts_make_a_page() {
    let whole = build_ogg_page(0x01, &[5u8; 255]);
    assert!(is_capture_pattern(whole[0], whole[1], whole[2], whole[3]));
    assert!(!is_capture_pattern(b'O', b'g', b'g', b's'));
    let page = page_from_parts(&whole[..27], vec![255], vec![5u8; 255]);
    assert_eq!(page.header_type, 1);
    assert_eq!(page.serial, 1);
    assert!(!page.last_segment_terminates_packet());
    assert_eq!(segment_total(&[255, 255, 10]), 520);
}

#[test]
fn an_assembler_joins_segments() {
    let mut assembler = PacketAssembler::new();
    assert!(assembler.take_packet().is_none());
    let whole = build_ogg_page(0x00, &[5u8; 255]);
    assembler.feed(page_from_parts(&whole[..27], vec![255], vec![5u8; 255]));
    assert!(assembler.take_packet().is_none());
    assert!(!assembler.is_at_end());
    let last = build_ogg_page(0x04, &[6]);
    assembler.feed(page_from_parts(&last[..27], vec![1, 0], vec![6]));
    assert!(assembler.is_at_end());
    assert_eq!(assembler.take_packet().map(|p| p.len()), Some(256));
    assert_eq!(assembler.take_packet(), Some(vec![]));
    assert_eq!(assembler.take_packet(), None);
    assert_eq!(assembler.flush(), None);
}

#[test]
fn a_written_page_byte_by_byte() {
    let mut stream = OggStream::new(0x0102_0304);
    stream.write_packet(&[0xAB, 0xCD], 960, true);
    let bytes = stream.take_bytes();
    assert_eq!(bytes.len(), 30);
    assert_eq!(&bytes[..4], b"OggS");
    assert_eq!(&bytes[4..6], &[0, 6]);
    assert_eq!(&bytes[6..14], &960i64.to_le_bytes());
    assert_eq!(&bytes[14..18], &[4, 3, 2, 1]);
    assert_eq!(&bytes[18..22], &[0, 0, 0, 0]);
    assert_eq!(&bytes[26..], &[1, 2, 0xAB, 0xCD]);
    let mut zeroed = bytes.clone();
    zeroed[22..26].fill(0);
    assert_eq!(&bytes[22..26], &ogg_crc32(&zeroed).to_le_bytes());
    assert!(stream.take_bytes().is_empty());
}

#[test]
fn finishing_twice_writes_one_page() {
    let mut stream = OggStream::new(7);
    stream.write_packet(b"x", 0, false);
    stream.finish();
    stream.finish();
    let bytes = stream.take_bytes();
    assert_eq!(bytes.windows(4).filter(|w| *w == b"OggS").count(), 2);
    assert_eq!(bytes[28 + 1 + 5], 4);
}

#[test]
fn written_packets_are_read_back() {
    let packets: Vec<Vec<u8>> = [0usize, 1, 254, 255, 256, 510, 65_024, 65_025, 65_026, 140_000]
        .iter()
        .map(|&n| (0..n).map(|i| (i * 7 + n) as u8).collect())
        .collect();
    for close in [false, true] {
        let mut stream = OggStream::new(99);
        for (i, p) in packets.iter().enumerate() {
            stream.write_packet(p, 960, close && i + 1 == packets.len());
        }
        stream.finish();
        let mut reader = OggReader::new(stream.take_bytes());
        for p in &packets {
            assert_eq!(reader.read_packet().expect("no error").as_ref(), Some(p));
        }
        assert_eq!(reader.read_packet(), Ok(None));
    }
}

#[test]
fn little_endian_numbers() {
    let mut out = vec![1];
    push_le32(&mut out, 0x1234_5678);
    push_le64(&mut out, 0x0102_0304_0506_0708);
    assert_eq!(
        out,
        vec![1, 0x78, 0x56, 0x34, 0x12, 8, 7, 6, 5, 4, 3, 2, 1]
    );
}

/// All packets of a stream up to its end.
fn packets_of(stream: Vec<u8>) -> Vec<Vec<u8>> {
    let mut reader = OggReader::new(stream);
    let mut all = Vec::new();
    while let Some(packet) = reader.read_packet().expect("page") {
        all.push(packet);
    }
    assert_eq!(reader.read_packet(), Ok(None));
    all
}

/// A page with the given lacing values and a body that counts up from `first`.
fn laced_page(header_type: u8, lacing: &[u8], first: u8) -> (Vec<u8>, Vec<u8>) {
    let total: usize = lacing.iter().map(|&l| usize::from(l)).sum();
    let body: Vec<u8> = (0..total).map(|i| first.wrapping_add(i as u8)).collect();
    let mut page = b"OggS".to_vec();
    page.push(0);
    page.push(header_type);
    page.extend_from_slice(&[0; 20]);
    page.push(lacing.len() as u8);
    page.extend_from_slice(lacing);
    page.extend_from_slice(&body);
    (page, body)
}

#[test]
fn packets_are_runs_of_segments() {
    let (a, body_a) = laced_page(2, &[255, 0, 0, 3, 255], 7);
    let (b, body_b) = laced_page(1, &[255, 10, 255], 90);
    let packets = packets_of([a, b].concat());
    let lengths: Vec<usize> = packets.iter().map(Vec::len).collect();
    assert_eq!(lengths, vec![255, 0, 3, 520, 255]);
    assert_eq!(packets.concat(), [body_a, body_b].concat());
}

#[test]
fn bytes_behind_the_last_page_change_nothing() {
    let (a, _) = laced_page(2, &[4], 1);
    let (b, _) = laced_page(4, &[9, 255], 2);
    let stream = [a, b].concat();
    let packets = packets_of(stream.clone());
    assert_eq!(packets.len(), 3);
    for tail in [&b"garbage"[..], b"Ogg", b"OggS\x07", &[0; 40]] {
        assert_eq!(packets_of([&stream[..], tail].concat()), packets);
    }
}

#[test]
fn page_fields_do_not_change_packets() {
    let (a, _) = laced_page(2, &[4, 255], 1);
    let (b, _) = laced_page(4, &[9], 2);
    let packets = packets_of([&a[..], &b[..]].concat());
    for i in 6..26 {
        let (mut x, mut y) = (a.clone(), b.clone());
        x[i] ^= 0xA5;
        y[i] = y[i].wrapping_add(77);
        assert_eq!(packets_of([x, y].concat()), packets);
    }
}

#[test]
fn a_page_says_what_it_lacks() {
    let page = build_ogg_page(0x04, &[9u8; 300]);
    let mut have = 0;
    let mut pieces = vec![];
    let whole = loop {
        match page_in_parts(&page[..have]) {
            PartialPage::More(n) => {
                pieces.push(n);
                have += n;
            }
            PartialPage::Whole(page) => break page,
            PartialPage::Broken(_) => panic!("a good page"),
        }
    };
    assert_eq!(have, page.len());
    assert_eq!(pieces, vec![4, 1, 22, 2, 300]);
    assert_eq!(whole.segment_table, vec![255, 45]);
    assert_eq!(whole.data, vec![9u8; 300]);
    assert!(matches!(page_in_parts(&page[..2]), PartialPage::More(2)));
    assert!(matches!(page_in_parts(&page[..10]), PartialPage::More(17)));
    assert!(matches!(
        page_in_parts(b"RIFF"),
        PartialPage::Broken(OggError::SyncLost)
    ));
    assert!(matches!(
        page_in_parts(b"OggS\x01"),
        PartialPage::Broken(OggError::Version(1))
    ));
}

#[test]
fn an_assembler_says_what_comes_next() {
    let mut assembler = PacketAssembler::new();
    assert!(matches!(assembler.next_step(), Step::Page));
    let last = build_ogg_page(0x04, &[6]);
    assembler.feed(page_from_parts(&last[..27], vec![1, 255], vec![7; 256]));
    assert!(matches!(assembler.next_step(), Step::Packet(p) if p == vec![7]));
    assert!(matches!(assembler.next_step(), Step::Packet(p) if p == vec![7; 255]));
    assert!(matches!(assembler.next_step(), Step::End));
    assert!(matches!(assembler.next_step(), Step::End));
}
