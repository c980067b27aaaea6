use ymodem::header::{build_header_payload, encode_decimal, find_byte, keep_digit_bytes, parse_decimal_bytes, parse_header, parse_size_field};
use ymodem::packet::{
    advance, build_packet, handshake_step, packet_verdict, probe_step, wait_step, Checksum, Handshake, Probe, Verdict, Wait,
};
use ymodem::xmodem::{BlockLength, Xmodem};
use ymodem::xymodem_util::{calc_checksum, calc_crc, Error, MemorySource};
use ymodem::ymodem::{file_prefix, packet_count, Ymodem};

#[test]
fn checksum_of_empty_is_zero() {
    assert_eq!(calc_checksum(&[]), 0);
}

#[test]
fn checksum_wraps() {
    assert_eq!(calc_checksum(&[200, 100]), 44);
    assert_eq!(calc_checksum(&[1, 2, 3]), 6);
}

#[test]
fn checksum_of_concatenation() {
    let a = [250u8, 17, 9];
    let b = [128u8, 200];
    let mut ab = a.to_vec();
    ab.extend_from_slice(&b);
    assert_eq!(calc_checksum(&ab), calc_checksum(&a).wrapping_add(calc_checksum(&b)));
}

#[test]
fn crc_known_value() {
    assert_eq!(calc_crc(b"123456789"), 0x31C3);
    assert_ne!(calc_crc(b"A"), 0);
}

#[test]
fn packet_layout_standard() {
    let p = build_packet(0x01, 5, &[1, 2, 3], 0x1a, 128, Checksum::Standard);
    assert_eq!(p.len(), 3 + 128 + 1);
    assert_eq!(&p[..6], &[0x01, 5, 250, 1, 2, 3]);
    assert!(p[6..131].iter().all(|b| *b == 0x1a));
    assert_eq!(p[131], calc_checksum(&p[3..131]));
}

#[test]
fn packet_layout_crc_big_endian() {
    let p = build_packet(0x02, 255, &[9; 1024], 0, 1024, Checksum::CRC16);
    assert_eq!(p.len(), 3 + 1024 + 2);
    assert_eq!(p[1], 255);
    assert_eq!(p[2], 0);
    let crc = calc_crc(&p[3..1027]);
    assert_eq!(p[1027], (crc >> 8) as u8);
    assert_eq!(p[1028], (crc & 0xff) as u8);
}

#[test]
fn verdicts() {
    let payload = [7u8; 128];
    let crc = calc_crc(&payload);
    assert_eq!(packet_verdict(1, 1, 254, &payload, Checksum::CRC16, crc), Verdict::Accept);
    assert_eq!(packet_verdict(1, 1, 254, &payload, Checksum::CRC16, crc ^ 1), Verdict::Corrupt);
    assert_eq!(packet_verdict(1, 2, 253, &payload, Checksum::CRC16, crc), Verdict::OutOfSync);
    assert_eq!(packet_verdict(1, 1, 253, &payload, Checksum::CRC16, crc), Verdict::OutOfSync);
    let sum = calc_checksum(&payload) as u16;
    assert_eq!(packet_verdict(0, 0, 255, &payload, Checksum::Standard, sum), Verdict::Accept);
}

#[test]
fn sequence_wraps_on_accept_only() {
    assert_eq!(advance(1, Verdict::Accept), 2);
    assert_eq!(advance(255, Verdict::Accept), 0);
    assert_eq!(advance(7, Verdict::Corrupt), 7);
    assert_eq!(advance(7, Verdict::OutOfSync), 7);
}

#[test]
fn wait_steps() {
    let mut errors: u32 = 0;
    assert_eq!(wait_step(Some(0x06), 0x06, 0x06, &mut errors, 2), Wait::Got);
    assert_eq!(errors, 0);
    assert_eq!(wait_step(Some(0x15), 0x06, 0x06, &mut errors, 2), Wait::Retry);
    assert_eq!(errors, 1);
    assert_eq!(wait_step(None, 0x06, 0x06, &mut errors, 2), Wait::Exhausted);
    assert_eq!(errors, 2);
}

#[test]
fn handshake_steps() {
    let mut cancels: u32 = 0;
    let mut errors: u32 = 0;
    assert_eq!(handshake_step(Some(0x43), false, &mut cancels, &mut errors, 16), Handshake::Ready(Checksum::CRC16));
    assert_eq!(handshake_step(Some(0x15), false, &mut cancels, &mut errors, 16), Handshake::Ready(Checksum::Standard));
    assert_eq!(handshake_step(Some(0x15), true, &mut cancels, &mut errors, 16), Handshake::Wait);
    assert_eq!(handshake_step(Some(0x18), true, &mut cancels, &mut errors, 16), Handshake::Wait);
    assert_eq!(handshake_step(Some(0x18), true, &mut cancels, &mut errors, 16), Handshake::Canceled);
    assert_eq!(errors, 3);
}

#[test]
fn probe_steps() {
    let mut initial: u32 = 0;
    assert_eq!(probe_step(Some(0x02), true, &mut initial, 1), Probe::Start(0x02));
    assert_eq!(probe_step(Some(0x02), false, &mut initial, 1), Probe::Retry);
    assert_eq!(probe_step(None, false, &mut initial, 1), Probe::Exhausted);
    assert_eq!(probe_step(Some(0x01), false, &mut initial, 1), Probe::Start(0x01));
}

#[test]
fn decimal_encoding() {
    assert_eq!(encode_decimal(0), b"0".to_vec());
    assert_eq!(encode_decimal(2000), b"2000".to_vec());
    assert_eq!(encode_decimal(u64::MAX), b"18446744073709551615".to_vec());
}

#[test]
fn decimal_parsing() {
    assert_eq!(parse_decimal_bytes(b"2000"), Some(2000));
    assert_eq!(parse_decimal_bytes(b"4294967295"), Some(u32::MAX));
    assert_eq!(parse_decimal_bytes(b"4294967296"), None);
    assert_eq!(parse_decimal_bytes(b""), None);
    assert_eq!(parse_decimal_bytes(b"12a"), None);
    assert_eq!(parse_decimal_bytes(b"+12"), Some(12));
    assert_eq!(parse_decimal_bytes(b"+"), None);
}

#[test]
fn size_field_parsing() {
    assert_eq!(parse_size_field(b"2000V", true), Some(2000));
    assert_eq!(parse_size_field(b"2000V", false), None);
    assert_eq!(parse_size_field(b"123 456", false), Some(123));
    assert_eq!(parse_size_field(b"1x2", true), Some(12));
    assert_eq!(keep_digit_bytes(b"a1b2"), b"12".to_vec());
    assert_eq!(find_byte(b"ab c", 32), 2);
    assert_eq!(find_byte(b"abc", 32), 3);
}

#[test]
fn header_payload_round_trip() {
    let p = build_header_payload(b"hello.txt", 2000);
    assert_eq!(p.len(), 128);
    assert_eq!(&p[..15], b"hello.txt\x002000\x00");
    assert!(p[15..].iter().all(|b| *b == 0));
    assert_eq!(parse_header(&p, false), Some((b"hello.txt".to_vec(), 2000)));
    assert_eq!(parse_header(&p, true), Some((b"hello.txt".to_vec(), 2000)));
}

#[test]
fn header_without_terminator_is_refused() {
    assert_eq!(parse_header(&[b'a'; 128], false), None);
}

#[test]
fn prefix_drops_padding() {
    let data: Vec<u8> = (0..2048u32).map(|i| i as u8).collect();
    let f = file_prefix(&data, 2000).unwrap();
    assert_eq!(f.len(), 2000);
    assert_eq!(&f[..], &data[..2000]);
    assert_eq!(file_prefix(&data, 2049), None);
    assert_eq!(file_prefix(&data, 0), Some(Vec::new()));
}

#[test]
fn packet_counts() {
    assert_eq!(packet_count(0), 0);
    assert_eq!(packet_count(1), 1);
    assert_eq!(packet_count(1024), 1);
    assert_eq!(packet_count(2000), 2);
    assert_eq!(packet_count(u32::MAX), 4194304);
}

#[test]
fn defaults() {
    let x = Xmodem::new();
    assert_eq!(x.max_errors, 16);
    assert_eq!(x.max_initial_errors, 16);
    assert_eq!(x.pad_byte, 0x1a);
    assert_eq!(x.block_length, BlockLength::Standard);
    assert_eq!(x.block_length.len(), 128);
    assert_eq!(BlockLength::OneK.len(), 1024);
    let y = Ymodem::new();
    assert_eq!(y.max_errors, 16);
    assert_eq!(y.max_initial_errors, 16);
    assert_eq!(y.pad_byte, 0x1a);
    assert!(!y.ignore_non_digits_on_file_size);
}

#[test]
fn error_descriptions() {
    assert_eq!(Error::ExhaustedRetries.describe(), "Transfer retries exhausted");
    assert_eq!(Error::Canceled.describe(), "Transfer canceled");
}

#[test]
fn memory_source_chunks() {
    let mut s = MemorySource::new(vec![1, 2, 3, 4, 5]);
    assert_eq!(s.take(2), vec![1, 2]);
    assert_eq!(s.take(10), vec![3, 4, 5]);
    assert_eq!(s.take(10), Vec::<u8>::new());
}
