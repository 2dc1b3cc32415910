use asar::error::Error;
use asar::frame::{read_frame, read_u32_le, write_archive};

#[test]
fn frame_layout_pads_payload_to_four_bytes() {
    let json = b"{\"files\":{}}x"; // 13 bytes
    let archive = write_archive(json, b"CONTENT");
    assert_eq!(&archive[0..4], &[4, 0, 0, 0]);
    assert_eq!(&archive[4..8], &[24, 0, 0, 0]);
    assert_eq!(&archive[8..12], &[20, 0, 0, 0]);
    assert_eq!(&archive[12..16], &[13, 0, 0, 0]);
    assert_eq!(&archive[16..29], json);
    assert_eq!(&archive[29..32], &[0, 0, 0]);
    assert_eq!(&archive[32..], b"CONTENT");
}

#[test]
fn frame_round_trip() {
    for len in 0..9usize {
        let json: Vec<u8> = vec![b'a'; len];
        let archive = write_archive(&json, b"xyz");
        let (payload, offset) = read_frame(&archive).expect("frame should decode");
        assert_eq!(payload, json);
        assert_eq!(offset % 4, 0);
        assert_eq!(&archive[offset..], b"xyz");
    }
}

#[test]
fn frame_shorter_than_prefix_is_truncated() {
    assert!(matches!(read_frame(&[4, 0, 0, 0, 8, 0]), Err(Error::Truncated)));
    assert!(matches!(read_frame(&[]), Err(Error::Truncated)));
}

#[test]
fn frame_with_short_payload_is_truncated() {
    let mut archive = write_archive(b"{\"files\":{}}", b"");
    archive.truncate(20);
    assert!(matches!(read_frame(&archive), Err(Error::Truncated)));
}

#[test]
fn reads_little_endian_integers() {
    assert_eq!(read_u32_le(&[0x78, 0x56, 0x34, 0x12], 0), 0x12345678);
    assert_eq!(read_u32_le(&[0, 0xff, 0xff, 0xff, 0xff], 1), u32::MAX);
}
