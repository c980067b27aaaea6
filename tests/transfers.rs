use std::collections::VecDeque;
use ymodem::packet::{build_packet, Checksum};
use ymodem::xmodem::{BlockLength, Xmodem};
use ymodem::xymodem_util::{calc_crc, Channel, Error, MemorySource, ScriptedChannel};
use ymodem::ymodem::Ymodem;

const SOH: u8 = 0x01;
const STX: u8 = 0x02;
const EOT: u8 = 0x04;
const ACK: u8 = 0x06;
const NAK: u8 = 0x15;
const CAN: u8 = 0x18;
const C: u8 = 0x43;

/// A channel that replays scripted input (None is a timeout, as is running
/// out of input) and records what is written.
struct Script {
    input: VecDeque<Option<u8>>,
    output: Vec<u8>,
}

impl Script {
    fn new(bytes: &[u8]) -> Script {
        Script { input: bytes.iter().map(|b| Some(*b)).collect(), output: Vec::new() }
    }
}

impl Channel for Script {
    fn write_all(&mut self, bytes: &[u8]) -> Result<(), std::io::Error> {
        self.output.extend_from_slice(bytes);
        Ok(())
    }

    fn read_byte(&mut self) -> Result<Option<u8>, std::io::Error> {
        Ok(self.input.pop_front().unwrap_or(None))
    }
}

fn sample(len: usize) -> Vec<u8> {
    (0..len).map(|i| (i * 7 + 3) as u8).collect()
}

fn crc_packet(header: u8, seq: u8, data: &[u8], pad: u8, len: usize) -> Vec<u8> {
    build_packet(header, seq, data, pad, len, Checksum::CRC16)
}

#[test]
fn xmodem_crc_happy_path_sender() {
    let data = sample(250);
    let mut x = Xmodem::new();
    let mut dev = Script::new(&[C, ACK, ACK, ACK]);
    let mut src = MemorySource::new(data.clone());
    assert!(x.send(&mut dev, &mut src).is_ok());
    let mut expected = crc_packet(SOH, 1, &data[..128], 0x1a, 128);
    let second = crc_packet(SOH, 2, &data[128..], 0x1a, 128);
    assert_eq!(&second[3 + 122..3 + 128], &[0x1a; 6]);
    expected.extend_from_slice(&second);
    expected.push(EOT);
    assert_eq!(dev.output, expected);
    assert_eq!(x.checksum_mode, Checksum::CRC16);
}

#[test]
fn xmodem_crc_happy_path_receiver() {
    let data = sample(250);
    let mut input = crc_packet(SOH, 1, &data[..128], 0x1a, 128);
    input.extend_from_slice(&crc_packet(SOH, 2, &data[128..], 0x1a, 128));
    input.push(EOT);
    let mut x = Xmodem::new();
    let mut dev = Script::new(&input);
    let mut sink: Vec<u8> = Vec::new();
    assert!(x.recv(&mut dev, &mut sink, Checksum::CRC16).is_ok());
    assert_eq!(dev.output, vec![C, ACK, ACK, ACK]);
    let mut expected = data.clone();
    expected.extend_from_slice(&[0x1a; 6]);
    assert_eq!(sink, expected);
}

#[test]
fn xmodem_additive_checksum_receiver() {
    let data = sample(100);
    let mut input = build_packet(SOH, 1, &data, 0x1a, 128, Checksum::Standard);
    input.push(EOT);
    let mut x = Xmodem::new();
    let mut dev = Script::new(&input);
    let mut sink: Vec<u8> = Vec::new();
    assert!(x.recv(&mut dev, &mut sink, Checksum::Standard).is_ok());
    assert_eq!(dev.output, vec![NAK, ACK, ACK]);
    assert_eq!(&sink[..100], &data[..]);
    assert_eq!(sink.len(), 128);
}

#[test]
fn xmodem_one_k_sender_uses_stx() {
    let data = sample(1500);
    let mut x = Xmodem::new();
    x.block_length = BlockLength::OneK;
    let mut dev = Script::new(&[NAK, ACK, ACK, ACK]);
    let mut src = MemorySource::new(data.clone());
    assert!(x.send(&mut dev, &mut src).is_ok());
    let mut expected = build_packet(STX, 1, &data[..1024], 0x1a, 1024, Checksum::Standard);
    expected.extend_from_slice(&build_packet(STX, 2, &data[1024..], 0x1a, 1024, Checksum::Standard));
    expected.push(EOT);
    assert_eq!(dev.output, expected);
    assert_eq!(x.checksum_mode, Checksum::Standard);
}

#[test]
fn xmodem_nak_then_recover_sender_resends_same_packet() {
    let data = sample(100);
    let mut x = Xmodem::new();
    let mut dev = Script::new(&[C, NAK, ACK, ACK]);
    let mut src = MemorySource::new(data.clone());
    assert!(x.send(&mut dev, &mut src).is_ok());
    let p = crc_packet(SOH, 1, &data, 0x1a, 128);
    let mut expected = p.clone();
    expected.extend_from_slice(&p);
    expected.push(EOT);
    assert_eq!(dev.output, expected);
}

#[test]
fn xmodem_nak_then_recover_receiver() {
    let data = sample(128);
    let good = crc_packet(SOH, 1, &data, 0x1a, 128);
    let mut bad = good.clone();
    let last = bad.len() - 1;
    bad[last] ^= 0xff;
    let mut input = bad;
    input.extend_from_slice(&good);
    input.push(EOT);
    let mut x = Xmodem::new();
    let mut dev = Script::new(&input);
    let mut sink: Vec<u8> = Vec::new();
    assert!(x.recv(&mut dev, &mut sink, Checksum::CRC16).is_ok());
    assert_eq!(dev.output, vec![C, NAK, ACK, ACK]);
    assert_eq!(sink, data);
    assert_eq!(x.errors, 1);
}

#[test]
fn xmodem_sequence_mismatch_cancels() {
    let data = sample(128);
    let input = crc_packet(SOH, 2, &data, 0x1a, 128);
    let mut x = Xmodem::new();
    let mut dev = Script::new(&input);
    let mut sink: Vec<u8> = Vec::new();
    let r = x.recv(&mut dev, &mut sink, Checksum::CRC16);
    assert!(matches!(r, Err(Error::Canceled)));
    assert_eq!(dev.output, vec![C, CAN, CAN]);
    assert!(sink.is_empty());
}

#[test]
fn xmodem_bad_complement_cancels() {
    let data = sample(128);
    let mut input = crc_packet(SOH, 1, &data, 0x1a, 128);
    input[2] = 0x00;
    let mut x = Xmodem::new();
    let mut dev = Script::new(&input);
    let mut sink: Vec<u8> = Vec::new();
    assert!(matches!(x.recv(&mut dev, &mut sink, Checksum::CRC16), Err(Error::Canceled)));
}

#[test]
fn xmodem_all_nak_exhausts_after_max_errors() {
    let data = sample(10);
    let mut x = Xmodem::new();
    let mut replies = vec![C];
    replies.extend_from_slice(&[NAK; 40]);
    let mut dev = Script::new(&replies);
    let mut src = MemorySource::new(data.clone());
    let r = x.send(&mut dev, &mut src);
    assert!(matches!(r, Err(Error::ExhaustedRetries)));
    let p = crc_packet(SOH, 1, &data, 0x1a, 128);
    assert_eq!(dev.output.len(), p.len() * 16);
    assert_eq!(x.errors, 16);
    // 16 replies were taken after the handshake byte
    assert_eq!(dev.input.len(), 40 - 16);
}

#[test]
fn xmodem_all_nak_small_budget() {
    let mut x = Xmodem::new();
    x.max_errors = 3;
    let mut dev = Script::new(&[C, NAK, NAK, NAK, NAK]);
    let mut src = MemorySource::new(sample(5));
    assert!(matches!(x.send(&mut dev, &mut src), Err(Error::ExhaustedRetries)));
    assert_eq!(dev.input.len(), 1);
}

#[test]
fn xmodem_sender_two_cans_cancel() {
    let mut x = Xmodem::new();
    let mut dev = Script::new(&[CAN, CAN]);
    let mut src = MemorySource::new(sample(5));
    assert!(matches!(x.send(&mut dev, &mut src), Err(Error::Canceled)));
    assert!(dev.output.is_empty());
}

#[test]
fn xmodem_sender_handshake_exhausted_writes_can() {
    let mut x = Xmodem::new();
    x.max_errors = 2;
    let mut dev = Script::new(&[]);
    let mut src = MemorySource::new(sample(5));
    assert!(matches!(x.send(&mut dev, &mut src), Err(Error::ExhaustedRetries)));
    assert_eq!(dev.output, vec![CAN]);
}

#[test]
fn xmodem_probe_timeout_exhausts() {
    let mut x = Xmodem::new();
    x.max_initial_errors = 4;
    let mut dev = Script::new(&[]);
    let mut sink: Vec<u8> = Vec::new();
    let r = x.recv(&mut dev, &mut sink, Checksum::CRC16);
    assert!(matches!(r, Err(Error::ExhaustedRetries)));
    assert_eq!(dev.output, vec![C; 5]);
    assert!(sink.is_empty());
}

#[test]
fn xmodem_probe_timeout_default_budget() {
    let mut x = Xmodem::new();
    let mut dev = Script::new(&[]);
    let mut sink: Vec<u8> = Vec::new();
    assert!(matches!(x.recv(&mut dev, &mut sink, Checksum::Standard), Err(Error::ExhaustedRetries)));
    assert_eq!(dev.output, vec![NAK; 17]);
    assert!(sink.is_empty());
}

#[test]
fn xmodem_round_trip_through_recorded_output() {
    let data = sample(300);
    let mut tx = Xmodem::new();
    let mut dev = Script::new(&[C, ACK, ACK, ACK, ACK]);
    let mut src = MemorySource::new(data.clone());
    assert!(tx.send(&mut dev, &mut src).is_ok());
    let mut rx = Xmodem::new();
    let mut line = Script::new(&dev.output);
    let mut sink: Vec<u8> = Vec::new();
    assert!(rx.recv(&mut line, &mut sink, Checksum::CRC16).is_ok());
    assert_eq!(&sink[..300], &data[..]);
    assert!(sink[300..].iter().all(|b| *b == 0x1a));
}

fn header_packet(name: &[u8], size_field: &[u8]) -> Vec<u8> {
    let mut payload = name.to_vec();
    payload.push(0);
    payload.extend_from_slice(size_field);
    payload.push(0);
    crc_packet(SOH, 0, &payload, 0, 128)
}

fn ymodem_input(name: &[u8], size_field: &[u8], data: &[u8]) -> Vec<u8> {
    let mut input = header_packet(name, size_field);
    let mut seq: u8 = 1;
    for chunk in data.chunks(1024) {
        input.extend_from_slice(&crc_packet(STX, seq, chunk, 0x1a, 1024));
        seq = seq.wrapping_add(1);
    }
    input.push(EOT);
    input.push(EOT);
    input.extend_from_slice(&crc_packet(SOH, 0, &[], 0, 128));
    input
}

#[test]
fn ymodem_happy_path_receiver() {
    let data = sample(2000);
    let input = ymodem_input(b"hello.txt", b"2000", &data);
    let mut y = Ymodem::new();
    let mut dev = Script::new(&input);
    let mut sink: Vec<u8> = Vec::new();
    let mut name = String::new();
    let mut size: u32 = 0;
    assert!(y.recv(&mut dev, &mut sink, &mut name, &mut size).is_ok());
    assert_eq!(name, "hello.txt");
    assert_eq!(size, 2000);
    assert_eq!(sink, data);
    assert_eq!(dev.output, vec![C, ACK, C, ACK, ACK, NAK, ACK, C, ACK]);
}

#[test]
fn ymodem_happy_path_sender() {
    let data = sample(2000);
    let mut y = Ymodem::new();
    let mut dev = Script::new(&[C, ACK, C, ACK, ACK, NAK, ACK, C, ACK]);
    let mut src = MemorySource::new(data.clone());
    assert!(y.send(&mut dev, &mut src, String::from("hello.txt"), 2000).is_ok());
    let mut expected = header_packet(b"hello.txt", b"2000");
    expected.extend_from_slice(&crc_packet(STX, 1, &data[..1024], 0x1a, 1024));
    expected.extend_from_slice(&crc_packet(STX, 2, &data[1024..], 0x1a, 1024));
    expected.push(EOT);
    expected.push(EOT);
    let end = crc_packet(SOH, 0, &[], 0, 128);
    assert!(end[3..131].iter().all(|b| *b == 0));
    expected.extend_from_slice(&end);
    assert_eq!(dev.output, expected);
}

#[test]
fn ymodem_sender_ack_on_first_eot_skips_second() {
    let data = sample(10);
    let mut y = Ymodem::new();
    let mut dev = Script::new(&[C, ACK, C, ACK, ACK, C, ACK]);
    let mut src = MemorySource::new(data.clone());
    assert!(y.send(&mut dev, &mut src, String::from("a"), 10).is_ok());
    let eots = dev.output.len() - header_packet(b"a", b"10").len() - 1029 - 133;
    assert_eq!(eots, 1);
}

#[test]
fn ymodem_round_trip_through_recorded_output() {
    let data = sample(3000);
    let mut tx = Ymodem::new();
    let mut dev = Script::new(&[C, ACK, C, ACK, ACK, ACK, NAK, ACK, C, ACK]);
    let mut src = MemorySource::new(data.clone());
    assert!(tx.send(&mut dev, &mut src, String::from("data.bin"), 3000).is_ok());
    let mut rx = Ymodem::new();
    let mut line = Script::new(&dev.output);
    let mut sink: Vec<u8> = Vec::new();
    let mut name = String::new();
    let mut size: u32 = 0;
    assert!(rx.recv(&mut line, &mut sink, &mut name, &mut size).is_ok());
    assert_eq!(name, "data.bin");
    assert_eq!(size, 3000);
    assert_eq!(sink, data);
}

#[test]
fn ymodem_size_with_trailing_garbage() {
    let data = sample(2000);
    let input = ymodem_input(b"hello.txt", b"2000V", &data);
    let mut y = Ymodem::new();
    y.ignore_non_digits_on_file_size = true;
    let mut dev = Script::new(&input);
    let mut sink: Vec<u8> = Vec::new();
    let mut name = String::new();
    let mut size: u32 = 0;
    assert!(y.recv(&mut dev, &mut sink, &mut name, &mut size).is_ok());
    assert_eq!(size, 2000);
    assert_eq!(sink, data);
}

#[test]
fn ymodem_size_with_trailing_garbage_not_ignored_cancels() {
    let data = sample(2000);
    let input = ymodem_input(b"hello.txt", b"2000V", &data);
    let mut y = Ymodem::new();
    let mut dev = Script::new(&input);
    let mut sink: Vec<u8> = Vec::new();
    let mut name = String::new();
    let mut size: u32 = 0;
    assert!(matches!(y.recv(&mut dev, &mut sink, &mut name, &mut size), Err(Error::Canceled)));
    assert_eq!(dev.output, vec![C, CAN, CAN]);
}

#[test]
fn ymodem_size_followed_by_date_field() {
    let data = sample(5);
    let input = ymodem_input(b"f", b"5 14233751540", &data);
    let mut y = Ymodem::new();
    let mut dev = Script::new(&input);
    let mut sink: Vec<u8> = Vec::new();
    let mut name = String::new();
    let mut size: u32 = 0;
    assert!(y.recv(&mut dev, &mut sink, &mut name, &mut size).is_ok());
    assert_eq!(size, 5);
    assert_eq!(sink, data);
}

#[test]
fn ymodem_invalid_utf8_name_cancels() {
    let input = ymodem_input(&[0xff, 0xfe], b"1", &[1]);
    let mut y = Ymodem::new();
    let mut dev = Script::new(&input);
    let mut sink: Vec<u8> = Vec::new();
    let mut name = String::new();
    let mut size: u32 = 0;
    assert!(matches!(y.recv(&mut dev, &mut sink, &mut name, &mut size), Err(Error::Canceled)));
    assert_eq!(dev.output, vec![C, CAN, CAN]);
}

#[test]
fn ymodem_header_sequence_mismatch_cancels() {
    let mut input = header_packet(b"x", b"1");
    input[1] = 1;
    input[2] = 0xfe;
    let mut y = Ymodem::new();
    let mut dev = Script::new(&input);
    let mut sink: Vec<u8> = Vec::new();
    let mut name = String::new();
    let mut size: u32 = 0;
    assert!(matches!(y.recv(&mut dev, &mut sink, &mut name, &mut size), Err(Error::Canceled)));
}

#[test]
fn ymodem_corrupt_header_is_retried() {
    let data = sample(3);
    let good = ymodem_input(b"abc", b"3", &data);
    let mut bad = header_packet(b"abc", b"3");
    bad[50] ^= 1;
    let mut input = bad;
    input.extend_from_slice(&good);
    let mut y = Ymodem::new();
    let mut dev = Script::new(&input);
    let mut sink: Vec<u8> = Vec::new();
    let mut name = String::new();
    let mut size: u32 = 0;
    assert!(y.recv(&mut dev, &mut sink, &mut name, &mut size).is_ok());
    assert_eq!(&dev.output[..4], &[C, NAK, ACK, C]);
    assert_eq!(sink, data);
}

#[test]
fn ymodem_probe_timeout_exhausts() {
    let mut y = Ymodem::new();
    y.max_initial_errors = 3;
    let mut dev = Script::new(&[]);
    let mut sink: Vec<u8> = Vec::new();
    let mut name = String::new();
    let mut size: u32 = 0;
    assert!(matches!(y.recv(&mut dev, &mut sink, &mut name, &mut size), Err(Error::ExhaustedRetries)));
    assert_eq!(dev.output, vec![C; 4]);
    assert!(sink.is_empty());
}

#[test]
fn ymodem_sender_ignores_nak_in_handshake() {
    let mut y = Ymodem::new();
    y.max_errors = 2;
    let mut dev = Script::new(&[NAK, NAK]);
    let mut src = MemorySource::new(sample(5));
    assert!(matches!(y.send(&mut dev, &mut src, String::from("a"), 5), Err(Error::ExhaustedRetries)));
    assert_eq!(dev.output, vec![CAN]);
}

#[test]
fn crc_of_check_string() {
    assert_eq!(calc_crc(b"123456789"), 0x31C3);
    assert_eq!(calc_crc(&[]), 0);
}

#[test]
fn scripted_channel_all_nak_sender() {
    let mut replies = vec![Some(C)];
    replies.extend(std::iter::repeat(Some(NAK)).take(20));
    let mut dev = ScriptedChannel::new(replies);
    let mut x = Xmodem::new();
    x.max_errors = 5;
    let mut src = MemorySource::new(sample(3));
    assert!(matches!(x.send(&mut dev, &mut src), Err(Error::ExhaustedRetries)));
    assert_eq!(x.errors, 5);
    assert_eq!(dev.unread(), 20 - 5);
    let p = crc_packet(SOH, 1, &sample(3), 0x1a, 128);
    assert_eq!(dev.output().len(), 5 * p.len());
}

#[test]
fn scripted_channel_silent_line_receiver() {
    let mut dev = ScriptedChannel::new(Vec::new());
    let mut x = Xmodem::new();
    x.max_initial_errors = 2;
    let mut sink: Vec<u8> = Vec::new();
    assert!(matches!(x.recv(&mut dev, &mut sink, Checksum::Standard), Err(Error::ExhaustedRetries)));
    assert_eq!(dev.output(), &vec![NAK, NAK, NAK]);
    assert!(sink.is_empty());
}

#[test]
fn scripted_channel_timeouts_are_soft_errors() {
    let data = sample(128);
    let mut replies: Vec<Option<u8>> = vec![None, None];
    replies.extend(crc_packet(SOH, 1, &data, 0x1a, 128).into_iter().map(Some));
    replies.push(None);
    replies.push(Some(EOT));
    let mut dev = ScriptedChannel::new(replies);
    let mut x = Xmodem::new();
    let mut sink: Vec<u8> = Vec::new();
    assert!(x.recv(&mut dev, &mut sink, Checksum::CRC16).is_ok());
    assert_eq!(dev.output(), &vec![C, C, C, ACK, ACK]);
    assert_eq!(x.initial_errors, 2);
    assert_eq!(x.errors, 1);
    assert_eq!(sink, data);
}

#[test]
fn ymodem_short_data_cancels() {
    let data = sample(1000);
    let input = ymodem_input(b"big.bin", b"5000", &data);
    let mut y = Ymodem::new();
    let mut dev = Script::new(&input);
    let mut sink: Vec<u8> = Vec::new();
    let mut name = String::new();
    let mut size: u32 = 0;
    assert!(matches!(y.recv(&mut dev, &mut sink, &mut name, &mut size), Err(Error::Canceled)));
    assert!(dev.output.ends_with(&[CAN, CAN]));
    assert!(sink.is_empty());
}

#[test]
fn xmodem_empty_source_sends_only_eot() {
    let mut x = Xmodem::new();
    let mut dev = ScriptedChannel::new(vec![Some(NAK), Some(ACK)]);
    let mut src = MemorySource::new(Vec::new());
    assert!(x.send(&mut dev, &mut src).is_ok());
    assert_eq!(dev.output(), &vec![EOT]);
}

#[test]
fn xmodem_additive_all_nak_exhausts() {
    let mut x = Xmodem::new();
    let mut dev = ScriptedChannel::new(vec![Some(NAK); 40]);
    let mut src = MemorySource::new(vec![0x41; 10]);
    assert!(matches!(x.send(&mut dev, &mut src), Err(Error::ExhaustedRetries)));
    let p = build_packet(SOH, 1, &[0x41; 10], 0x1a, 128, Checksum::Standard);
    assert_eq!(p[131], 0x86);
    let expected: Vec<u8> = p.iter().cycle().take(p.len() * 16).cloned().collect();
    assert_eq!(dev.output(), &expected);
    assert_eq!(dev.unread(), 40 - 1 - 16);
}

#[test]
fn ymodem_receiver_silent_line() {
    let mut y = Ymodem::new();
    y.max_initial_errors = 2;
    let mut dev = ScriptedChannel::new(Vec::new());
    let mut sink: Vec<u8> = Vec::new();
    let mut name = String::new();
    let mut size: u32 = 0;
    assert!(matches!(y.recv(&mut dev, &mut sink, &mut name, &mut size), Err(Error::ExhaustedRetries)));
    assert_eq!(dev.output(), &vec![C, C, C]);
    assert!(sink.is_empty());
}

#[test]
fn xmodem_one_k_packet_additive() {
    let mut x = Xmodem::new();
    x.block_length = BlockLength::OneK;
    let mut dev = ScriptedChannel::new(vec![Some(NAK), Some(ACK), Some(ACK)]);
    let mut src = MemorySource::new(vec![0x55; 1000]);
    assert!(x.send(&mut dev, &mut src).is_ok());
    let out = dev.output();
    assert_eq!(&out[..3], &[STX, 0x01, 0xFE]);
    assert!(out[3..1003].iter().all(|b| *b == 0x55));
    assert!(out[1003..1027].iter().all(|b| *b == 0x1a));
    assert_eq!(out[1027], 0x78);
    assert_eq!(out[1028], EOT);
}

#[test]
fn xmodem_eot_resent_after_nak() {
    let mut x = Xmodem::new();
    let mut dev = ScriptedChannel::new(vec![Some(C), Some(NAK), Some(NAK), Some(ACK)]);
    let mut src = MemorySource::new(Vec::new());
    assert!(x.send(&mut dev, &mut src).is_ok());
    assert_eq!(dev.output(), &vec![EOT, EOT, EOT]);
}

#[test]
fn ymodem_unknown_bytes_count_as_errors() {
    let mut y = Ymodem::new();
    y.max_errors = 2;
    let mut input = header_packet(b"a", b"1");
    input.extend_from_slice(&[0x55, 0x55]);
    let mut dev = Script::new(&input);
    let mut sink: Vec<u8> = Vec::new();
    let mut name = String::from("keep");
    let mut size: u32 = 7;
    assert!(matches!(y.recv(&mut dev, &mut sink, &mut name, &mut size), Err(Error::ExhaustedRetries)));
    assert_eq!(name, "keep");
    assert_eq!(size, 7);
}
