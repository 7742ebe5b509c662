use minigit::errors::GitError;
use minigit::util::{high_bit, parse_packet_lines, parse_size, read_vlq_full7};

#[test]
fn test_parse_packet_lines() {
    let data = b"001e# service=git-upload-pack\n0000";
    let (rest, lines) = parse_packet_lines(data).unwrap();
    assert!(rest == data.len());
    assert_eq!(lines.len(), 1);
    assert_eq!(
        std::str::from_utf8(&lines[0]).unwrap(),
        "# service=git-upload-pack"
    );
}

#[test]
fn test_packet_line_embedded_pack() {
    let data = b"0009done\nPACKrest-of-stream";
    let (used, lines) = parse_packet_lines(data).unwrap();
    assert_eq!(used, data.len());
    assert_eq!(lines.len(), 2);
    assert_eq!(&lines[0], b"done");
    assert_eq!(&lines[1], b"PACKrest-of-stream");
}

#[test]
fn test_packet_line_errors() {
    assert_eq!(parse_packet_lines(b"00"), Err(GitError::BadPktLine));
    assert_eq!(parse_packet_lines(b"00zz"), Err(GitError::BadPktLine));
    assert_eq!(parse_packet_lines(b"0003"), Err(GitError::BadPktLine));
    assert_eq!(parse_packet_lines(b"0040abc"), Err(GitError::BadPktLine));
}

#[test]
fn test_packet_line_without_trailing_newline() {
    // 0008 frames four payload bytes with no newline to trim.
    let data = b"0008NAK\n0007abc0000";
    let (used, lines) = parse_packet_lines(data).unwrap();
    assert_eq!(used, data.len());
    assert_eq!(lines.len(), 2);
    assert_eq!(&lines[0], b"NAK");
    assert_eq!(&lines[1], b"abc");
}

#[test]
fn test_parse_size_one_byte() {
    let (used, value) = parse_size(&[0x05]).unwrap();
    assert_eq!((used, value), (1, 5));
}

#[test]
fn test_parse_size_two_bytes() {
    let (used, value) = parse_size(&[0x85, 0x03]).unwrap();
    assert_eq!((used, value), (2, 5 + 16 * 3));
}

#[test]
fn test_parse_size_three_bytes() {
    let (used, value) = parse_size(&[0x85, 0x83, 0x02]).unwrap();
    assert_eq!((used, value), (3, 5 + 16 * (3 + 128 * 2)));
}

#[test]
fn test_vlq_full7_one_byte() {
    let (used, value) = read_vlq_full7(&[0x7f]).unwrap();
    assert_eq!((used, value), (1, 127));
}

#[test]
fn test_vlq_full7_two_bytes() {
    let (used, value) = read_vlq_full7(&[0x80, 0x01]).unwrap();
    assert_eq!((used, value), (2, 128));
}

#[test]
fn test_vlq_full7_three_bytes() {
    let (used, value) = read_vlq_full7(&[0xff, 0x80, 0x01]).unwrap();
    assert_eq!((used, value), (3, 127 + 128 * 128));
}

#[test]
fn test_varint_truncated() {
    assert_eq!(parse_size(&[0x80]), Err(GitError::TruncatedVarint));
    assert_eq!(parse_size(&[]), Err(GitError::TruncatedVarint));
    assert_eq!(read_vlq_full7(&[0xff, 0xff]), Err(GitError::TruncatedVarint));
    // Truncation is reported however long the run of continuation
    // bytes, while a terminated but over-long encoding is out of range.
    assert_eq!(parse_size(&[0x80; 12]), Err(GitError::TruncatedVarint));
    assert_eq!(read_vlq_full7(&[0xff; 12]), Err(GitError::TruncatedVarint));
    let mut long = vec![0x80u8; 12];
    long.push(0x01);
    assert_eq!(parse_size(&long), Err(GitError::PackCorrupt));
    assert_eq!(read_vlq_full7(&long), Err(GitError::PackCorrupt));
}

#[test]
fn test_high_bit() {
    assert!(high_bit(0x80));
    assert!(high_bit(0xff));
    assert!(!high_bit(0x7f));
    assert!(!high_bit(0x00));
}

#[test]
fn test_hex_round_trip() {
    let bytes = [0x00u8, 0x1f, 0xab, 0xce, 0xff];
    let encoded = minigit::hexcode::hex_encode(&bytes);
    assert_eq!(&encoded, b"001fabceff");
    let decoded = minigit::hexcode::hex_decode(&encoded).unwrap();
    assert_eq!(decoded, bytes.to_vec());
    assert_eq!(minigit::hexcode::hex_decode(b"0g"), None);
    assert_eq!(minigit::hexcode::hex_decode(b"abc"), None);
}
