use gridpulse::crc::{crc16_gridpulse, folded_checksum};
use gridpulse::cursor::ByteCursor;
use gridpulse::frame::{encode_seed_frame, parse_one_frame, FrameKind, FLAG_CRC_PRESENT, FLAG_FRAGMENT};
use gridpulse::GridError;

#[test]
fn crc_known_values() {
    assert_eq!(crc16_gridpulse(b""), 0x6d0f);
    assert_eq!(crc16_gridpulse(b"123456789"), 0xfabb);
    assert_eq!(crc16_gridpulse(&[1, 2, 3]), 0x320c);
}

#[test]
fn folded_checksum_known_values() {
    assert_eq!(folded_checksum(b""), 0x9e37_79b9);
    assert_eq!(folded_checksum(b"abcd"), 0x9840_5d46);
    assert_eq!(folded_checksum(b"abcdefg"), 0xafa8_0212);
}

#[test]
fn kind_bytes_round_trip() {
    for b in 0..=255u8 {
        assert_eq!(FrameKind::from_byte(b).as_byte(), b);
    }
    assert_eq!(FrameKind::from_byte(3), FrameKind::Reading);
    assert_eq!(FrameKind::from_byte(0x42), FrameKind::Unknown(0x42));
    assert_eq!(FrameKind::from_byte(FrameKind::Unknown(2).as_byte()), FrameKind::Template);
}

#[test]
fn seed_frame_layout() {
    let bytes = encode_seed_frame(FrameKind::Route, 0x0201, 0x0403, FLAG_CRC_PRESENT, &[9, 8]);
    let crc = crc16_gridpulse(&[9, 8]);
    assert_eq!(
        bytes,
        vec![b'G', b'P', 1, 1, 0x01, 0x02, 0x03, 0x04, 0, 1, 4, 2, 0, (crc & 0xff) as u8, (crc >> 8) as u8, 9, 8]
    );
}

#[test]
fn seed_frames_parse_back() {
    for flags in [0u8, FLAG_CRC_PRESENT, FLAG_FRAGMENT, FLAG_CRC_PRESENT | FLAG_FRAGMENT] {
        let payload = [5u8, 6, 7];
        let bytes = encode_seed_frame(FrameKind::Script, 77, 88, flags, &payload);
        let frames = gridpulse::parse_frames(&bytes).unwrap();
        assert_eq!(frames.len(), 1);
        let f = &frames[0];
        assert_eq!(f.kind, FrameKind::Script);
        assert_eq!(f.session_id, 77);
        assert_eq!(f.sequence, 88);
        assert_eq!(f.flags, flags);
        assert_eq!(f.fragment_index, 0);
        assert_eq!(f.fragment_count, 1);
        assert_eq!(f.payload, payload.to_vec());
        assert_eq!(f.offset, 0);
        let expected_crc = if flags & FLAG_CRC_PRESENT != 0 { Some(crc16_gridpulse(&payload)) } else { None };
        assert_eq!(f.header_crc, expected_crc);
        assert_eq!(f.is_fragmented(), flags & FLAG_FRAGMENT != 0);
    }
}

#[test]
fn junk_before_a_frame_is_skipped() {
    let mut bytes = vec![0x00, 0x11];
    bytes.extend(encode_seed_frame(FrameKind::Ack, 1, 2, 0, &[]));
    let frames = gridpulse::parse_frames(&bytes).unwrap();
    assert_eq!(frames.len(), 1);
    assert_eq!(frames[0].offset, 2);
}

#[test]
fn a_bad_magic_at_the_cursor_is_reported() {
    let bytes = [b'X', b'P', 1, 0];
    let mut c = ByteCursor::new(&bytes);
    assert_eq!(parse_one_frame(&mut c).unwrap_err(), GridError::InvalidMagic { offset: 0 });
    assert_eq!(c.position(), 1);
    let bytes = [b'G', b'X', 1, 0];
    let mut c = ByteCursor::new(&bytes);
    assert_eq!(parse_one_frame(&mut c).unwrap_err(), GridError::InvalidMagic { offset: 0 });
    assert_eq!(c.position(), 2);
}

#[test]
fn crc_mismatch_is_refused() {
    let mut bytes = encode_seed_frame(FrameKind::Ack, 1, 2, FLAG_CRC_PRESENT, &[1, 2, 3]);
    let last = bytes.len() - 1;
    bytes[last] ^= 0xff;
    let actual = crc16_gridpulse(&[1, 2, 0xfc]);
    assert_eq!(
        gridpulse::parse_frames(&bytes).unwrap_err(),
        GridError::CrcMismatch { expected: 0x320c, actual }
    );
}

#[test]
fn wrong_version_is_refused() {
    let mut bytes = encode_seed_frame(FrameKind::Ack, 1, 2, 0, &[]);
    bytes[2] = 2;
    assert_eq!(gridpulse::parse_frames(&bytes).unwrap_err(), GridError::InvalidVersion(2));
}

#[test]
fn oversized_payload_is_refused() {
    let mut bytes = encode_seed_frame(FrameKind::Ack, 1, 2, 0, &[]);
    bytes[11] = 0x01;
    bytes[12] = 0x10;
    assert_eq!(
        gridpulse::parse_frames(&bytes).unwrap_err(),
        GridError::InvalidLength { declared: 4097, available: 4096, context: "frame payload" }
    );
}

#[test]
fn fragment_numbering_is_checked() {
    let mut bytes = encode_seed_frame(FrameKind::Ack, 1, 2, 0, &[]);
    bytes[8] = 2;
    bytes[9] = 2;
    assert_eq!(
        gridpulse::parse_frames(&bytes).unwrap_err(),
        GridError::InvalidLength { declared: 2, available: 2, context: "fragment header" }
    );
}

#[test]
fn a_truncated_frame_ends_the_stream() {
    let mut bytes = encode_seed_frame(FrameKind::Ack, 1, 2, 0, &[1, 2, 3]);
    let whole = bytes.clone();
    bytes.extend(&whole[..whole.len() - 1]);
    let frames = gridpulse::parse_frames(&bytes).unwrap();
    assert_eq!(frames.len(), 1);
    assert!(gridpulse::parse_frames(&[b'G', b'P', 1]).unwrap().is_empty());
}

#[test]
fn with_payload_makes_a_whole_frame() {
    let bytes = encode_seed_frame(FrameKind::Ack, 1, 2, FLAG_FRAGMENT | FLAG_CRC_PRESENT, &[1]);
    let f = gridpulse::parse_frames(&bytes).unwrap().remove(0);
    assert!(f.is_fragmented());
    let g = f.with_payload(vec![4, 5, 6]);
    assert!(!g.is_fragmented());
    assert_eq!(g.flags, FLAG_CRC_PRESENT);
    assert_eq!(g.summary_payload_len(), 3);
}

#[test]
fn a_frame_after_one_stray_byte_is_found() {
    let data = [vec![0x00u8], encode_seed_frame(FrameKind::Ack, 1, 1, 0, &[])].concat();
    let frames = gridpulse::parse_frames(&data).unwrap();
    assert_eq!(frames.len(), 1);
    assert_eq!(frames[0].offset, 1);
    assert_eq!(frames[0].kind, FrameKind::Ack);
    assert_eq!((frames[0].session_id, frames[0].sequence), (1, 1));
    let data = [vec![b'G'], encode_seed_frame(FrameKind::Clock, 2, 3, 0, &[9])].concat();
    let frames = gridpulse::parse_frames(&data).unwrap();
    assert_eq!(frames.len(), 1);
    assert_eq!(frames[0].offset, 1);
}

#[test]
fn crc_over_data_and_its_crc_is_zero() {
    for data in [&b""[..], &b"123456789"[..], &[1u8, 2, 3][..], &[0xffu8; 17][..]] {
        let c = crc16_gridpulse(data);
        let mut all = data.to_vec();
        all.extend(c.to_le_bytes());
        assert_eq!(crc16_gridpulse(&all), 0);
    }
}

#[test]
fn zero_padding_keeps_the_folded_checksum() {
    for data in [&b"a"[..], &b"abcde"[..], &b"abcdefg"[..]] {
        let mut padded = data.to_vec();
        padded.extend(vec![0u8; 4 - data.len() % 4]);
        assert_eq!(folded_checksum(data), folded_checksum(&padded));
    }
}
