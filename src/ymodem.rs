//! The YMODEM engine: a header packet with the file's name and size, CRC-16
//! data packets, a double-EOT handshake and an empty end frame.
use vstd::prelude::*;
use vstd::utf8::{decode_utf8, encode_utf8, valid_utf8};
use crate::packet::{advance, build_packet, frame, padded, handshake_run, lemma_handshake_run_ends, handshake_step, packet_verdict, probe_step, Checksum, Handshake, Probe, Verdict};
use crate::header::{build_header_payload, copy_range, header_fits, header_payload, parse_header, parse_header_spec, HEADER_LEN};
use crate::xmodem::{concat, header_for, repeated, stream_run, lemma_concat_step, lemma_stream_step, xmodem_packets, xmodem_stream};
use crate::exchange::{attempts, copies, ends_as, Ending, as_replies, awaited_first, await_reply, body_bytes, cancel, lemma_as_replies_injective, lemma_body_of_frame, ends_with_cancel, put, read_body, refused_throughout, send_until, within_budget};
use crate::xymodem_util::{after_reply, next_reply, get_byte_timeout, Channel, Error, Sink, Source, ACK, CAN, CRC, EOT, NAK, SOH, STX};

verus! {

/// Payload length of the data packets a YMODEM sender builds.
pub const DATA_LEN: usize = 1024;

/// Configuration and counters of a YMODEM transfer.
#[derive(Copy, Clone, Debug)]
pub struct Ymodem {
    /// The number of errors (unexpected bytes, timeouts, failed verifications)
    /// that ends a transfer.
    pub max_errors: u32,
    /// The number of errors that ends the wait for the header packet.
    pub max_initial_errors: u32,
    /// The byte that pads the last data packet.
    pub pad_byte: u8,
    /// Whether non-digit bytes of the header's size field are dropped before
    /// it is read (so that "12345V" reads as 12345).
    pub ignore_non_digits_on_file_size: bool,
    /// Errors counted in the current transfer.
    pub errors: u32,
    /// Errors counted while waiting for the header packet.
    pub initial_errors: u32,
}

/// Relies on String::from_utf8, which succeeds exactly on valid UTF-8 and
/// then holds the characters that the bytes encode.
#[verifier::external_body]
fn utf8_string(bytes: Vec<u8>) -> (r: Option<String>)
    ensures
        r is Some <==> valid_utf8(bytes@),
        r is Some ==> r->0@ == decode_utf8(bytes@),
{
    String::from_utf8(bytes).ok()
}

/// The first `size` bytes of the received data: the file without the
/// padding of its last packet. `None` when less than `size` bytes arrived.
pub fn file_prefix(data: &[u8], size: u32) -> (r: Option<Vec<u8>>)
    ensures
        r is Some <==> size <= data@.len(),
        r is Some ==> r->0@ == data@.subrange(0, size as int),
        r is Some ==> r->0@.len() == size,
{
    if (size as usize) <= data.len() {
        Some(copy_range(data, 0, size as usize))
    } else {
        None
    }
}

/// The number of 1024-byte packets that carry `size` bytes.
pub fn packet_count(size: u32) -> (r: u64)
    ensures
        r == (size as int + 1023) / 1024,
{
    (size as u64 + 1023) / 1024
}

/// The replies after the header byte of the header packet or end frame
/// that carries `p`.
pub open spec fn frame_rest(p: Seq<u8>) -> Seq<Option<u8>> {
    let f = frame(SOH, 0, p, Checksum::CRC16);
    as_replies(f.subrange(1, f.len() as int))
}

/// What a sender transmits for one file: the header packet carrying `t.0`,
/// data packets carrying `t.1` numbered from 1, two EOTs, and the end frame
/// carrying `t.2`.
pub open spec fn ymodem_stream(t: (Seq<u8>, Seq<Seq<u8>>, Seq<u8>)) -> Seq<Option<u8>> {
    seq![Some(SOH)] + frame_rest(t.0) + xmodem_stream(t.1, Checksum::CRC16, 0) + seq![Some(EOT)]
        + seq![Some(SOH)] + frame_rest(t.2)
}

/// The name in a read header.
pub open spec fn announced_name(h: Option<(Seq<u8>, u32)>) -> Seq<u8> {
    match h {
        Some((name, _)) => name,
        None => Seq::empty(),
    }
}

/// The size in a read header.
pub open spec fn announced_size(h: Option<(Seq<u8>, u32)>) -> u32 {
    match h {
        Some((_, size)) => size,
        None => 0,
    }
}

/// A well-formed transfer: a readable header with a valid UTF-8 name, as many
/// data packets of 128 or 1024 bytes as the size calls for and holding at
/// least that many bytes, and a 128-byte end frame.
pub open spec fn ymodem_transfer(t: (Seq<u8>, Seq<Seq<u8>>, Seq<u8>), ignore_non_digits: bool) -> bool {
    &&& t.0.len() == 128
    &&& t.2.len() == 128
    &&& parse_header_spec(t.0, ignore_non_digits) is Some
    &&& valid_utf8(announced_name(parse_header_spec(t.0, ignore_non_digits)))
    &&& t.1.len() == (announced_size(parse_header_spec(t.0, ignore_non_digits)) as int + 1023) / 1024
    &&& forall|i: int| 0 <= i < t.1.len() ==> (#[trigger] t.1[i]).len() == 128 || t.1[i].len() == 1024
    &&& concat(t.1).len() >= announced_size(parse_header_spec(t.0, ignore_non_digits))
}

/// The replies are those of a well-formed transfer.
pub open spec fn is_ymodem_transfer(replies: Seq<Option<u8>>, ignore_non_digits: bool) -> bool {
    exists|t: (Seq<u8>, Seq<Seq<u8>>, Seq<u8>)| ymodem_transfer(t, ignore_non_digits) && #[trigger] ymodem_stream(t) == replies
}

/// The header payload, data payloads and end-frame payload of a well-formed transfer.
pub open spec fn ymodem_parts(replies: Seq<Option<u8>>, ignore_non_digits: bool) -> (Seq<u8>, Seq<Seq<u8>>, Seq<u8>) {
    choose|t: (Seq<u8>, Seq<Seq<u8>>, Seq<u8>)| ymodem_transfer(t, ignore_non_digits) && #[trigger] ymodem_stream(t) == replies
}

/// `n` ACK replies.
pub open spec fn acks(n: nat) -> Seq<Option<u8>> {
    Seq::new(n, |i: int| Some(ACK))
}

/// The number of 1024-byte packets that carry `len` bytes.
pub open spec fn chunk_count(len: nat) -> nat {
    ((len + 1023) / 1024) as nat
}

/// The header packet for a file called `name` of `size` bytes.
pub open spec fn header_frame_bytes(name: Seq<u8>, size: nat) -> Seq<u8> {
    frame(SOH, 0, padded(header_payload(name, size), 0, HEADER_LEN as nat), Checksum::CRC16)
}

/// The end frame: a header packet with an all-zero payload.
pub open spec fn end_frame_bytes() -> Seq<u8> {
    frame(SOH, 0, padded(Seq::empty(), 0, HEADER_LEN as nat), Checksum::CRC16)
}

/// The replies of a receiver that accepts every packet of a file sent in
/// `n` data packets: C, ACK and C for the header, an ACK per packet, NAK
/// then ACK for the two EOTs, then C and ACK for the end frame.
pub open spec fn ymodem_sender_replies(n: nat) -> Seq<Option<u8>> {
    seq![Some(CRC), Some(ACK), Some(CRC)] + acks(n) + seq![Some(NAK), Some(ACK), Some(CRC), Some(ACK)]
}

/// How the header exchange goes on the replies `p` after `errors`
/// failures: the header packet until ACK, then a wait for C. Gives whether
/// it succeeded, the bytes written, the replies left and the failures counted.
pub open spec fn header_run(p: Seq<Option<u8>>, name: Seq<u8>, size: nat, errors: int, max: int)
    -> (bool, Seq<u8>, Seq<Option<u8>>, int)
{
    let (g1, k1, q1, e1) = attempts(p, ACK, ACK, errors, max);
    let w = copies(header_frame_bytes(name, size), k1);
    if g1 is None {
        (false, w, q1, e1)
    } else {
        let (g2, k2, q2, e2) = attempts(q1, CRC, CRC, e1, max);
        (g2 is Some, w, q2, e2)
    }
}

/// How the closing exchange goes: EOT until NAK or ACK; after a NAK, EOT
/// until ACK; a wait for C; then the end frame until ACK.
pub open spec fn finish_run(p: Seq<Option<u8>>, errors: int, max: int) -> (bool, Seq<u8>) {
    let (g1, k1, q1, e1) = attempts(p, NAK, ACK, errors, max);
    let w1 = copies(seq![EOT], k1);
    if g1 is None {
        (false, w1)
    } else {
        let (g2, k2, q2, e2) = if g1 == Some(NAK) {
            attempts(q1, ACK, ACK, e1, max)
        } else {
            (Some(ACK), 0nat, q1, e1)
        };
        let w2 = w1 + copies(seq![EOT], k2);
        if g2 is None {
            (false, w2)
        } else {
            let (g3, k3, q3, e3) = attempts(q2, CRC, CRC, e2, max);
            if g3 is None {
                (false, w2)
            } else {
                let (g4, k4, q4, e4) = attempts(q3, ACK, ACK, e3, max);
                (g4 is Some, w2 + copies(end_frame_bytes(), k4))
            }
        }
    }
}

/// How a YMODEM send of the data `s` as a file called `name` of `size`
/// bytes goes on the replies `p`, with one error budget of `max` failures.
pub open spec fn ymodem_send_run(p: Seq<Option<u8>>, name: Seq<u8>, size: nat, s: Seq<u8>, pad: u8, max: int) -> (Ending, Seq<u8>) {
    let (h, q, e) = handshake_run(p, true, 0, 0, max);
    if h is Canceled {
        (Ending::Canceled, Seq::empty())
    } else if !(h is Ready) {
        (Ending::Exhausted, seq![CAN])
    } else {
        let (ok1, w1, q1, e1) = header_run(q, name, size, e, max);
        if !ok1 {
            (Ending::Exhausted, w1)
        } else {
            let (ok2, w2, q2, e2) = stream_run(s, q1, 1024, pad, STX, Checksum::CRC16, 1, e1, max);
            if !ok2 {
                (Ending::Exhausted, w1 + w2)
            } else {
                let (ok3, w3) = finish_run(q2, e2, max);
                (if ok3 { Ending::Done } else { Ending::Exhausted }, w1 + w2 + w3)
            }
        }
    }
}

proof fn lemma_chunk_step(len: nat)
    requires
        len > 0,
    ensures
        chunk_count(len) >= 1,
        chunk_count((len - if len < 1024 { len } else { 1024 }) as nat) == chunk_count(len) - 1,
{
    if len < 1024 {
        assert(chunk_count(len) == 1);
    } else {
        let x = (len + 1023) as int;
        vstd::arithmetic::div_mod::lemma_fundamental_div_mod(x, 1024);
        vstd::arithmetic::div_mod::lemma_fundamental_div_mod_converse(x - 1024, 1024, x / 1024 - 1, x % 1024);
    }
}

proof fn lemma_after_concat(a: Seq<Option<u8>>, b: Seq<Option<u8>>)
    requires
        a.len() > 0,
    ensures
        next_reply(a + b) == next_reply(a),
        after_reply(a + b) == after_reply(a) + b,
{
    assert((a + b)[0] == a[0]);
    assert(after_reply(a + b) =~= after_reply(a) + b);
}

proof fn lemma_frame_rest(p: Seq<u8>, rest: Seq<Option<u8>>)
    ensures
        ({
            let f = frame(SOH, 0, p, Checksum::CRC16);
            let fs = f.subrange(1, f.len() as int);
            &&& frame_rest(p) == as_replies(fs)
            &&& fs.len() == p.len() + 4
            &&& (frame_rest(p) + rest).subrange(0, fs.len() as int) == as_replies(fs)
            &&& (frame_rest(p) + rest).subrange(fs.len() as int, (frame_rest(p) + rest).len() as int) == rest
            &&& forall|i: int| 0 <= i < fs.len() ==> (#[trigger] (frame_rest(p) + rest)[i]) is Some
        }),
{
    let f = frame(SOH, 0, p, Checksum::CRC16);
    let fs = f.subrange(1, f.len() as int);
    assert((frame_rest(p) + rest).subrange(0, fs.len() as int) =~= as_replies(fs));
    assert((frame_rest(p) + rest).subrange(fs.len() as int, (frame_rest(p) + rest).len() as int) =~= rest);
    assert forall|i: int| 0 <= i < fs.len() implies (#[trigger] (frame_rest(p) + rest)[i]) is Some by {
        assert((frame_rest(p) + rest)[i] == as_replies(fs)[i]);
    }
}

impl Ymodem {
    /// The settings are those of `other`: caps, pad byte and size parsing.
    pub open spec fn same_settings(&self, other: Ymodem) -> bool {
        &&& self.max_errors == other.max_errors
        &&& self.max_initial_errors == other.max_initial_errors
        &&& self.pad_byte == other.pad_byte
        &&& self.ignore_non_digits_on_file_size == other.ignore_non_digits_on_file_size
    }

    /// The configuration with default settings: caps of 16 errors, pad byte
    /// 0x1A, the size field read as it stands.
    pub fn new() -> (r: Ymodem)
        ensures
            r.max_errors == 16,
            r.max_initial_errors == 16,
            r.pad_byte == 0x1a,
            !r.ignore_non_digits_on_file_size,
            r.errors == 0,
            r.initial_errors == 0,
    {
        Ymodem {
            max_errors: 16,
            max_initial_errors: 16,
            pad_byte: 0x1a,
            ignore_non_digits_on_file_size: false,
            errors: 0,
            initial_errors: 0,
        }
    }

    /// Reads the header packet, whose SOH has arrived, retrying a corrupt one
    /// within the error budget; returns the file's name and size.
    /// When the replies are the rest of a readable header packet `hp` followed
    /// by `rest`, it reads that header and leaves `rest`.
    fn receive_header<D: Channel>(&mut self, dev: &mut D, Ghost(hp): Ghost<Seq<u8>>, Ghost(rest): Ghost<Seq<Option<u8>>>) -> (r: Result<(String, u32), Error>)
        requires
            within_budget(old(self).errors, old(self).max_errors),
        ensures
            final(self).same_settings(*old(self)),
            r matches Err(Error::Canceled) ==> ends_with_cancel(final(dev).written()),
            r is Ok ==> within_budget(final(self).errors, final(self).max_errors),
            final(dev).never_fails() == old(dev).never_fails(),
            ({
                &&& old(dev).never_fails()
                &&& old(dev).pending() == frame_rest(hp) + rest
                &&& hp.len() == 128
                &&& parse_header_spec(hp, old(self).ignore_non_digits_on_file_size) is Some
                &&& valid_utf8(announced_name(parse_header_spec(hp, old(self).ignore_non_digits_on_file_size)))
            }) ==> {
                &&& r is Ok
                &&& r->Ok_0.0@ == decode_utf8(announced_name(parse_header_spec(hp, old(self).ignore_non_digits_on_file_size)))
                &&& r->Ok_0.1 == announced_size(parse_header_spec(hp, old(self).ignore_non_digits_on_file_size))
                &&& final(dev).pending() == rest
                &&& final(self).errors == old(self).errors
            },
    {
        let mut have_soh = true;
        let ghost okh = old(dev).never_fails() && old(dev).pending() == frame_rest(hp) + rest && hp.len() == 128
            && parse_header_spec(hp, old(self).ignore_non_digits_on_file_size) is Some
            && valid_utf8(announced_name(parse_header_spec(hp, old(self).ignore_non_digits_on_file_size)));
        proof {
            if okh {
                lemma_frame_rest(hp, rest);
            }
        }
        loop
            invariant
                within_budget(self.errors, self.max_errors),
                self.same_settings(*old(self)),
                dev.never_fails() == old(dev).never_fails(),
                okh == (old(dev).never_fails() && old(dev).pending() == frame_rest(hp) + rest && hp.len() == 128
                    && parse_header_spec(hp, old(self).ignore_non_digits_on_file_size) is Some
                    && valid_utf8(announced_name(parse_header_spec(hp, old(self).ignore_non_digits_on_file_size)))),
                okh ==> have_soh && dev.pending() == old(dev).pending() && self.errors == old(self).errors,
            decreases self.max_errors - self.errors,
        {
            if !have_soh {
                let reply = match get_byte_timeout(dev) {
                    Ok(v) => v,
                    Err(e) => return Err(e),
                };
                have_soh = reply == Some(SOH);
            }
            if have_soh {
                let body = match read_body(dev, HEADER_LEN, Checksum::CRC16) {
                    Ok(b) => b,
                    Err(e) => return Err(e),
                };
                proof {
                    if okh {
                        lemma_frame_rest(hp, rest);
                        let f = frame(SOH, 0, hp, Checksum::CRC16);
                        lemma_as_replies_injective(body_bytes(body, Checksum::CRC16), f.subrange(1, f.len() as int));
                        lemma_body_of_frame(SOH, 0, hp, Checksum::CRC16, body);
                    }
                }
                let v = packet_verdict(0, body.seq, body.comp, body.payload.as_slice(), Checksum::CRC16, body.received);
                match v {
                    Verdict::OutOfSync => {
                        return Err(cancel(dev));
                    },
                    Verdict::Accept => {
                        let (name_bytes, size) = match parse_header(body.payload.as_slice(), self.ignore_non_digits_on_file_size) {
                            Some(h) => h,
                            None => return Err(cancel(dev)),
                        };
                        let name = match utf8_string(name_bytes) {
                            Some(n) => n,
                            None => return Err(cancel(dev)),
                        };
                        match put(dev, &[ACK]) {
                            Ok(()) => {},
                            Err(e) => return Err(e),
                        }
                        match put(dev, &[CRC]) {
                            Ok(()) => {},
                            Err(e) => return Err(e),
                        }
                        return Ok((name, size));
                    },
                    Verdict::Corrupt => {
                        match put(dev, &[NAK]) {
                            Ok(()) => {},
                            Err(e) => return Err(e),
                        }
                    },
                }
                have_soh = false;
            }
            self.errors = self.errors + 1;
            if self.errors >= self.max_errors {
                return Err(Error::ExhaustedRetries);
            }
        }
    }

    /// Receives one file from `dev`: its name goes to `file_name`, its size
    /// to `file_size`, and exactly `file_size` bytes to `outstream`. The
    /// caller sets the channel's read timeout.
    pub fn recv<D: Channel, W: Sink>(
        &mut self,
        dev: &mut D,
        outstream: &mut W,
        file_name: &mut String,
        file_size: &mut u32,
    ) -> (r: Result<(), Error>)
        ensures
            final(self).same_settings(*old(self)),
            r is Ok ==> within_budget(final(self).errors, final(self).max_errors),
            r matches Err(Error::Canceled) ==> ends_with_cancel(final(dev).written()),
            r is Err ==> *final(file_name) == *old(file_name) && *final(file_size) == *old(file_size),
            old(outstream).accepts_all() && r is Err ==> final(outstream).delivered() == old(outstream).delivered(),
            r is Ok ==> final(outstream).delivered().len() == old(outstream).delivered().len() + *final(file_size),
            r is Ok ==> final(outstream).delivered().subrange(0, old(outstream).delivered().len() as int)
                == old(outstream).delivered(),
            r matches Err(e) && !(e is Io) ==> final(outstream).delivered() == old(outstream).delivered(),
            old(dev).never_fails() && old(dev).pending().len() == 0 ==> {
                &&& r matches Err(Error::ExhaustedRetries)
                &&& final(dev).written() == old(dev).written() + repeated(CRC, (old(self).max_initial_errors + 1) as nat)
                &&& final(outstream).delivered() == old(outstream).delivered()
            },
            ({
                &&& old(dev).never_fails()
                &&& old(outstream).accepts_all()
                &&& old(self).max_errors > 0
                &&& is_ymodem_transfer(old(dev).pending(), old(self).ignore_non_digits_on_file_size)
            }) ==> ({
                let t = ymodem_parts(old(dev).pending(), old(self).ignore_non_digits_on_file_size);
                let h = parse_header_spec(t.0, old(self).ignore_non_digits_on_file_size);
                &&& r is Ok
                &&& (*final(file_name))@ == decode_utf8(announced_name(h))
                &&& *final(file_size) == announced_size(h)
                &&& final(outstream).delivered() == old(outstream).delivered()
                    + concat(t.1).subrange(0, announced_size(h) as int)
            }),
    {
        self.errors = 0;
        self.initial_errors = 0;
        let ghost ign = self.ignore_non_digits_on_file_size;
        let ghost ok = old(dev).never_fails() && old(outstream).accepts_all() && old(self).max_errors > 0
            && is_ymodem_transfer(old(dev).pending(), ign);
        let ghost t = ymodem_parts(old(dev).pending(), ign);
        let ghost hp = t.0;
        let ghost ps = t.1;
        let ghost ep = t.2;
        let ghost endr = seq![Some(SOH)] + frame_rest(ep);
        let ghost tail = xmodem_stream(ps, Checksum::CRC16, 0) + seq![Some(EOT)] + endr;
        proof {
            if ok {
                assert(ymodem_transfer(t, ign) && ymodem_stream(t) == old(dev).pending());
                assert(old(dev).pending() =~= seq![Some(SOH)] + (frame_rest(hp) + tail));
                lemma_after_concat(seq![Some(SOH)], frame_rest(hp) + tail);
                assert(after_reply(seq![Some(SOH)]) =~= Seq::<Option<u8>>::empty());
                assert(Seq::<Option<u8>>::empty() + (frame_rest(hp) + tail) =~= frame_rest(hp) + tail);
            }
        }
        loop
            invariant_except_break
                ok ==> dev.pending() == old(dev).pending(),
                old(dev).never_fails() && old(dev).pending().len() == 0 ==> dev.pending().len() == 0
                    && dev.written() == old(dev).written() + repeated(CRC, self.initial_errors as nat),
            invariant
                self.initial_errors <= self.max_initial_errors,
                self.same_settings(*old(self)),
                self.errors == 0,
                dev.never_fails() == old(dev).never_fails(),
                ign == old(self).ignore_non_digits_on_file_size,
                ok == (old(dev).never_fails() && old(outstream).accepts_all() && old(self).max_errors > 0
                    && is_ymodem_transfer(old(dev).pending(), ign)),
                ok ==> after_reply(old(dev).pending()) == frame_rest(hp) + tail
                    && next_reply(old(dev).pending()) == Some(SOH),
            ensures
                self.initial_errors <= self.max_initial_errors,
                self.same_settings(*old(self)),
                self.errors == 0,
                dev.never_fails() == old(dev).never_fails(),
                ok == (old(dev).never_fails() && old(outstream).accepts_all() && old(self).max_errors > 0
                    && is_ymodem_transfer(old(dev).pending(), ign)),
                ok ==> dev.pending() == frame_rest(hp) + tail,
                !(old(dev).never_fails() && old(dev).pending().len() == 0),
            decreases self.max_initial_errors - self.initial_errors,
        {
            match put(dev, &[CRC]) {
                Ok(()) => {},
                Err(e) => return Err(e),
            }
            proof {
                if old(dev).never_fails() && old(dev).pending().len() == 0 {
                    assert(dev.written() =~= old(dev).written() + repeated(CRC, (self.initial_errors + 1) as nat));
                }
            }
            let reply = match dev.read_byte() {
                Ok(v) => v,
                Err(_) => None,
            };
            match probe_step(reply, false, &mut self.initial_errors, self.max_initial_errors) {
                Probe::Start(_) => {
                    break;
                },
                Probe::Retry => {},
                Probe::Exhausted => {
                    return Err(Error::ExhaustedRetries);
                },
            }
        }
        let (name, size) = match self.receive_header(dev, Ghost(hp), Ghost(tail)) {
            Ok(h) => h,
            Err(e) => return Err(e),
        };
        let packets = packet_count(size);
        let rounds = packets + 3;
        let end_frame_round = packets + 2;
        let mut expected: u8 = 1;
        let mut first_eot_seen = false;
        let mut data: Vec<u8> = Vec::new();
        let mut round: u64 = 0;
        let ghost n = ps.len();
        proof {
            if ok {
                assert(ps.subrange(0, 0) =~= Seq::<Seq<u8>>::empty());
                assert(data@ =~= concat(ps.subrange(0, 0)));
            }
        }
        while round < rounds
            invariant
                within_budget(self.errors, self.max_errors),
                self.same_settings(*old(self)),
                rounds == packets + 3,
                end_frame_round == packets + 2,
                packets <= 4194304,
                round <= rounds,
                dev.never_fails() == old(dev).never_fails(),
                !(old(dev).never_fails() && old(dev).pending().len() == 0),
                ign == old(self).ignore_non_digits_on_file_size,
                ok == (old(dev).never_fails() && old(outstream).accepts_all() && old(self).max_errors > 0
                    && is_ymodem_transfer(old(dev).pending(), ign)),
                t == ymodem_parts(old(dev).pending(), ign),
                hp == t.0 && ps == t.1 && ep == t.2 && n == ps.len(),
                endr == seq![Some(SOH)] + frame_rest(ep),
                ok ==> (ymodem_transfer(t, ign)),
                ok ==> (dev.never_fails()),
                ok ==> (self.errors == 0),
                ok ==> (self.max_errors > 0),
                ok ==> (name@ == decode_utf8(announced_name(parse_header_spec(hp, ign)))),
                ok ==> (size == announced_size(parse_header_spec(hp, ign))),
                ok ==> (packets == n),
                ok ==> (round <= n ==> dev.pending() == xmodem_stream(ps, Checksum::CRC16, round as nat) + seq![Some(EOT)] + endr && data@ == concat(ps.subrange(0, round as int)) && expected == ((round + 1) % 256) as u8 && !first_eot_seen),
                ok ==> (round == n + 1 ==> dev.pending() == seq![Some(EOT)] + endr && data@ == concat(ps) && first_eot_seen),
                ok ==> (round == n + 2 ==> dev.pending() == endr && data@ == concat(ps)),
                ok ==> (round == n + 3 ==> data@ == concat(ps) + ep),
            decreases rounds - round,
        {
            proof {
                if ok {
                    let x = seq![Some(EOT)] + endr;
                    if round < n {
                        lemma_stream_step(ps, Checksum::CRC16, round as nat);
                        lemma_after_concat(xmodem_stream(ps, Checksum::CRC16, round as nat), x);
                    } else if round == n {
                        assert(xmodem_stream(ps, Checksum::CRC16, round as nat) == seq![Some(EOT)]);
                        assert(dev.pending() =~= seq![Some(EOT)] + x);
                        lemma_after_concat(seq![Some(EOT)], x);
                        assert(after_reply(seq![Some(EOT)]) + x =~= x);
                        assert(ps.subrange(0, n as int) =~= ps);
                    } else if round == n + 1 {
                        lemma_after_concat(seq![Some(EOT)], endr);
                        assert(after_reply(seq![Some(EOT)]) + endr =~= endr);
                    } else {
                        lemma_after_concat(seq![Some(SOH)], frame_rest(ep));
                        assert(after_reply(seq![Some(SOH)]) + frame_rest(ep) =~= frame_rest(ep));
                    }
                }
            }
            let reply = match get_byte_timeout(dev) {
                Ok(v) => v,
                Err(e) => return Err(e),
            };
            match reply {
                Some(h) => {
                    if h == SOH || h == STX {
                        let len: usize = if h == SOH { 128 } else { 1024 };
                        let ghost k = round as nat;
                        let ghost (fh, fseq, fp, frest) = if round < n {
                            (header_for(ps[k as int]), ((k + 1) % 256) as u8, ps[k as int],
                                xmodem_stream(ps, Checksum::CRC16, k + 1) + seq![Some(EOT)] + endr)
                        } else {
                            (SOH, 0u8, ep, Seq::<Option<u8>>::empty())
                        };
                        let ghost f = frame(fh, fseq, fp, Checksum::CRC16);
                        let ghost fs = f.subrange(1, f.len() as int);
                        proof {
                            if ok {
                                assert(round < n || round == n + 2);
                                if round < n {
                                    lemma_stream_step(ps, Checksum::CRC16, k);
                                    assert(dev.pending() =~= as_replies(fs) + frest);
                                } else {
                                    lemma_frame_rest(ep, frest);
                                    assert(dev.pending() =~= as_replies(fs) + frest);
                                }
                                assert(len == fp.len());
                                assert(fs.len() == fp.len() + 4);
                                assert forall|i: int| 0 <= i < fs.len() implies (#[trigger] dev.pending()[i]) is Some by {
                                    assert(dev.pending()[i] == as_replies(fs)[i]);
                                }
                            }
                        }
                        let ghost at_read = dev.pending();
                        let body = match read_body(dev, len, Checksum::CRC16) {
                            Ok(b) => b,
                            Err(e) => return Err(e),
                        };
                        proof {
                            if ok {
                                let m = fs.len() as int;
                                assert(at_read.subrange(0, m) =~= as_replies(fs));
                                assert(at_read.subrange(m, at_read.len() as int) =~= frest);
                                lemma_as_replies_injective(body_bytes(body, Checksum::CRC16), fs);
                                lemma_body_of_frame(fh, fseq, fp, Checksum::CRC16, body);
                            }
                        }
                        let due: u8 = if round == end_frame_round { 0 } else { expected };
                        let v = packet_verdict(due, body.seq, body.comp, body.payload.as_slice(), Checksum::CRC16, body.received);
                        match v {
                            Verdict::OutOfSync => {
                                return Err(cancel(dev));
                            },
                            Verdict::Accept => {
                                expected = advance(expected, v);
                                match put(dev, &[ACK]) {
                                    Ok(()) => {},
                                    Err(e) => return Err(e),
                                }
                                data.extend_from_slice(body.payload.as_slice());
                                proof {
                                    if ok && round < n {
                                        lemma_concat_step(ps, round as int);
                                        vstd::arithmetic::div_mod::lemma_add_mod_noop(round as int + 1, 1, 256);
                                        if round + 1 == n {
                                            assert(ps.subrange(0, n as int) =~= ps);
                                        }
                                    }
                                }
                            },
                            Verdict::Corrupt => {
                                match put(dev, &[NAK]) {
                                    Ok(()) => {},
                                    Err(e) => return Err(e),
                                }
                                self.errors = self.errors + 1;
                            },
                        }
                    } else if h == EOT {
                        if !first_eot_seen {
                            match put(dev, &[NAK]) {
                                Ok(()) => {},
                                Err(e) => return Err(e),
                            }
                            first_eot_seen = true;
                        } else {
                            match put(dev, &[ACK]) {
                                Ok(()) => {},
                                Err(e) => return Err(e),
                            }
                            match put(dev, &[CRC]) {
                                Ok(()) => {},
                                Err(e) => return Err(e),
                            }
                        }
                    } else {
                        self.errors = self.errors + 1;
                    }
                },
                None => {
                    self.errors = self.errors + 1;
                },
            }
            if self.errors >= self.max_errors {
                return Err(Error::ExhaustedRetries);
            }
            round = round + 1;
        }
        proof {
            if ok {
                assert(data@.subrange(0, size as int) =~= concat(ps).subrange(0, size as int));
            }
        }
        let file = match file_prefix(data.as_slice(), size) {
            Some(f) => f,
            None => return Err(cancel(dev)),
        };
        match outstream.write_all(file.as_slice()) {
            Ok(()) => {},
            Err(e) => return Err(Error::Io(e)),
        }
        assert(outstream.delivered().subrange(0, old(outstream).delivered().len() as int) =~= old(outstream).delivered());
        *file_name = name;
        *file_size = size;
        Ok(())
    }

    /// Sends the `file_size_in_bytes` bytes of `stream` over `dev` as a file
    /// called `file_name`. The caller sets the channel's read timeout.
    pub fn send<D: Channel, R: Source>(
        &mut self,
        dev: &mut D,
        stream: &mut R,
        file_name: String,
        file_size_in_bytes: u64,
    ) -> (r: Result<(), Error>)
        requires
            header_fits(encode_utf8(file_name@), file_size_in_bytes as nat),
        ensures
            final(self).same_settings(*old(self)),
            ({
                let p = old(dev).pending();
                &&& p.len() > 0
                &&& p[0] == Some(CRC)
                &&& refused_throughout(p.drop_first(), ACK, ACK, 0, old(self).max_errors)
                &&& !(r matches Err(Error::Io(_)))
            }) ==> {
                &&& r matches Err(Error::ExhaustedRetries)
                &&& final(self).errors == final(self).max_errors
                &&& final(dev).pending().len() == old(dev).pending().len() - 1 - old(self).max_errors
            },
            ({
                &&& old(dev).never_fails()
                &&& old(stream).reads_fully()
                &&& old(stream).remaining().len() < 0x1_0000_0000
                &&& old(dev).pending() == ymodem_sender_replies(chunk_count(old(stream).remaining().len()))
            }) ==> {
                &&& r is Ok
                &&& final(dev).written() == old(dev).written()
                    + header_frame_bytes(encode_utf8(file_name@), file_size_in_bytes as nat)
                    + xmodem_packets(old(stream).remaining(), DATA_LEN as nat, old(self).pad_byte, STX, Checksum::CRC16, 1)
                    + seq![EOT, EOT] + end_frame_bytes()
            },
            old(dev).never_fails() && old(dev).pending().len() >= 2 && old(dev).pending()[0] == Some(CAN)
                && old(dev).pending()[1] == Some(CAN) && old(self).max_errors > 2 ==> {
                &&& r matches Err(Error::Canceled)
                &&& final(dev).written() == old(dev).written()
                &&& final(stream).remaining() == old(stream).remaining()
            },
            old(dev).never_fails() && old(dev).pending().len() == 0 && old(self).max_errors > 0 ==> {
                &&& r matches Err(Error::ExhaustedRetries)
                &&& final(self).errors == final(self).max_errors
                &&& final(dev).written() == old(dev).written() + seq![CAN]
                &&& final(stream).remaining() == old(stream).remaining()
            },
            old(dev).never_fails() && old(stream).reads_fully() && old(stream).remaining().len() < 0x1_0000_0000 ==> ({
                let (end, w) = ymodem_send_run(old(dev).pending(), encode_utf8(file_name@), file_size_in_bytes as nat,
                    old(stream).remaining(), old(self).pad_byte, old(self).max_errors as int);
                &&& ends_as(r, end)
                &&& final(dev).written() == old(dev).written() + w
            }),
    {
        self.errors = 0;
        proof {
            lemma_handshake_run_ends(old(dev).pending(), true, 0, 0, self.max_errors as int);
        }
        let ghost rem = old(stream).remaining();
        let ghost n = chunk_count(rem.len());
        let ghost good = old(dev).never_fails() && old(stream).reads_fully() && rem.len() < 0x1_0000_0000
            && old(dev).pending() == ymodem_sender_replies(n);
        let ghost tailr = seq![Some(NAK), Some(ACK), Some(CRC), Some(ACK)];
        let ghost name_seq = encode_utf8(file_name@);
        match self.start_send(dev) {
            Ok(()) => {},
            Err(e) => return Err(e),
        }
        proof {
            if good {
                let p = old(dev).pending();
                assert(p[0] == Some(CRC));
                assert(dev.pending() =~= seq![Some(ACK), Some(CRC)] + acks(n) + tailr);
            }
        }
        let ghost w0 = dev.written();
        match self.send_start_frame(dev, file_name, file_size_in_bytes) {
            Ok(()) => {},
            Err(e) => return Err(e),
        }
        let ghost w1 = dev.written();
        proof {
            if good {
                assert(dev.pending() =~= acks(n) + tailr);
                assert(dev.pending().subrange(0, n as int) =~= acks(n));
            }
        }
        match self.send_stream(dev, stream) {
            Ok(()) => {},
            Err(e) => return Err(e),
        }
        proof {
            if good {
                assert(dev.pending() =~= tailr);
                assert(dev.pending().subrange(0, 4) =~= tailr);
            }
        }
        let ghost w2 = dev.written();
        let r = self.finish_send(dev);
        proof {
            if old(dev).never_fails() && old(stream).reads_fully() && old(stream).remaining().len() < 0x1_0000_0000 {
                let (h, q, e) = handshake_run(old(dev).pending(), true, 0, 0, self.max_errors as int);
                let (ok1, x1, q1, e1) = header_run(q, name_seq, file_size_in_bytes as nat, e, self.max_errors as int);
                let (ok2, x2, q2, e2) = stream_run(rem, q1, 1024, self.pad_byte, STX, Checksum::CRC16, 1, e1, self.max_errors as int);
                let (ok3, x3) = finish_run(q2, e2, self.max_errors as int);
                assert(h is Ready);
                assert(w0 == old(dev).written());
                assert(w1 == w0 + x1);
                assert(w2 == w1 + x2);
                assert(dev.written() == w2 + x3);
                assert(dev.written() =~= old(dev).written() + (x1 + x2 + x3));
            }
            if good {
                assert(dev.written() =~= old(dev).written()
                    + header_frame_bytes(name_seq, file_size_in_bytes as nat)
                    + xmodem_packets(rem, DATA_LEN as nat, old(self).pad_byte, STX, Checksum::CRC16, 1)
                    + seq![EOT, EOT] + end_frame_bytes());
            }
        }
        r
    }

    /// Waits for the receiver's C; NAK is no request here.
    fn start_send<D: Channel>(&mut self, dev: &mut D) -> (r: Result<(), Error>)
        requires
            within_budget(old(self).errors, old(self).max_errors),
        ensures
            final(self).same_settings(*old(self)),
            r is Ok ==> within_budget(final(self).errors, final(self).max_errors),
            old(dev).pending().len() > 0 && old(dev).pending()[0] == Some(CRC) && !(r matches Err(Error::Io(_))) ==> {
                &&& r is Ok
                &&& final(self).errors == old(self).errors
                &&& final(dev).pending() == old(dev).pending().drop_first()
            },
            r is Ok ==> final(dev).written() == old(dev).written(),
            old(dev).never_fails() ==> !(r matches Err(Error::Io(_))),
            final(dev).never_fails() == old(dev).never_fails(),
            r matches Err(Error::Canceled) ==> final(dev).written() == old(dev).written(),
            old(dev).never_fails() && old(dev).pending().len() >= 2 && old(dev).pending()[0] == Some(CAN)
                && old(dev).pending()[1] == Some(CAN) && old(self).errors + 2 < old(self).max_errors ==> (r matches Err(Error::Canceled)),
            old(dev).never_fails() && old(dev).pending().len() == 0 ==> {
                &&& r matches Err(Error::ExhaustedRetries)
                &&& old(self).max_errors > 0 ==> final(self).errors == final(self).max_errors
                &&& final(dev).written() == old(dev).written() + seq![CAN]
            },
            old(dev).never_fails() ==> ({
                let (h, q, e) = handshake_run(old(dev).pending(), true, 0, old(self).errors as int, old(self).max_errors as int);
                &&& h is Ready ==> r is Ok && final(dev).written() == old(dev).written()
                &&& h is Canceled ==> (r matches Err(Error::Canceled)) && final(dev).written() == old(dev).written()
                &&& h is Exhausted ==> (r matches Err(Error::ExhaustedRetries))
                    && final(dev).written() == old(dev).written() + seq![CAN]
                &&& final(dev).pending() == q
                &&& final(self).errors == e
            }),
    {
        let mut cancels: u32 = 0;
        let ghost whole = handshake_run(old(dev).pending(), true, 0, old(self).errors as int, old(self).max_errors as int);
        let ghost polled = old(dev).pending().len() > 0 && old(dev).pending()[0] == Some(CRC);
        let ghost two_cans = old(dev).never_fails() && old(dev).pending().len() >= 2 && old(dev).pending()[0] == Some(CAN)
            && old(dev).pending()[1] == Some(CAN) && old(self).errors + 2 < old(self).max_errors;
        let ghost silent = old(dev).never_fails() && old(dev).pending().len() == 0;
        loop
            invariant
                two_cans == (old(dev).never_fails() && old(dev).pending().len() >= 2 && old(dev).pending()[0] == Some(CAN)
                    && old(dev).pending()[1] == Some(CAN) && old(self).errors + 2 < old(self).max_errors),
                two_cans ==> (cancels == 0 && dev.pending() == old(dev).pending() && self.errors == old(self).errors)
                    || (cancels == 1 && dev.pending() == old(dev).pending().drop_first() && self.errors == old(self).errors + 1),
                silent == (old(dev).never_fails() && old(dev).pending().len() == 0),
                silent ==> dev.pending().len() == 0 && dev.never_fails(),
                whole == handshake_run(old(dev).pending(), true, 0, old(self).errors as int, old(self).max_errors as int),
                old(dev).never_fails() ==> whole == handshake_run(dev.pending(), true, cancels as int, self.errors as int,
                    self.max_errors as int),
                within_budget(self.errors, self.max_errors),
                self.same_settings(*old(self)),
                cancels < 2,
                dev.written() == old(dev).written(),
                dev.never_fails() == old(dev).never_fails(),
                polled == (old(dev).pending().len() > 0 && old(dev).pending()[0] == Some(CRC)),
                polled ==> dev.pending() == old(dev).pending() && self.errors == old(self).errors,
            decreases self.max_errors - self.errors,
        {
            let reply = match get_byte_timeout(dev) {
                Ok(v) => v,
                Err(e) => return Err(e),
            };
            match handshake_step(reply, true, &mut cancels, &mut self.errors, self.max_errors) {
                Handshake::Ready(_) => {
                    return Ok(());
                },
                Handshake::Wait => {},
                Handshake::Canceled => {
                    return Err(Error::Canceled);
                },
                Handshake::Exhausted => {
                    let can = [CAN];
                    assert(can@ =~= seq![CAN]);
                    let _ = dev.write_all(&can);
                    return Err(Error::ExhaustedRetries);
                },
            }
            proof {
                if two_cans && cancels == 1 {
                    assert(dev.pending()[0] == old(dev).pending()[1]);
                }
            }
        }
    }

    /// Sends the header packet until it is acknowledged, then waits for C.
    fn send_start_frame<D: Channel>(&mut self, dev: &mut D, file_name: String, file_size_in_bytes: u64) -> (r: Result<(), Error>)
        requires
            within_budget(old(self).errors, old(self).max_errors),
            header_fits(encode_utf8(file_name@), file_size_in_bytes as nat),
        ensures
            final(self).same_settings(*old(self)),
            r is Ok ==> within_budget(final(self).errors, final(self).max_errors),
            refused_throughout(old(dev).pending(), ACK, ACK, old(self).errors, old(self).max_errors)
                && !(r matches Err(Error::Io(_))) ==> {
                &&& r matches Err(Error::ExhaustedRetries)
                &&& final(self).errors == final(self).max_errors
                &&& final(dev).pending().len() == old(dev).pending().len() - (old(self).max_errors - old(self).errors)
            },
            final(dev).never_fails() == old(dev).never_fails(),
            old(dev).never_fails() && old(dev).pending().len() >= 2 && old(dev).pending()[0] == Some(ACK)
                && old(dev).pending()[1] == Some(CRC) ==> {
                &&& r is Ok
                &&& final(self).errors == old(self).errors
                &&& final(dev).written() == old(dev).written() + header_frame_bytes(encode_utf8(file_name@), file_size_in_bytes as nat)
                &&& final(dev).pending() == old(dev).pending().subrange(2, old(dev).pending().len() as int)
            },
            old(dev).never_fails() ==> ({
                let (ok, w, q, e) = header_run(old(dev).pending(), encode_utf8(file_name@), file_size_in_bytes as nat,
                    old(self).errors as int, old(self).max_errors as int);
                &&& ok ==> r is Ok
                &&& !ok ==> (r matches Err(Error::ExhaustedRetries))
                &&& final(dev).written() == old(dev).written() + w
                &&& final(dev).pending() == q
                &&& final(self).errors == e
            }),
    {
        let name_bytes = file_name.as_str().as_bytes();
        let payload = build_header_payload(name_bytes, file_size_in_bytes);
        let header = build_packet(SOH, 0, payload.as_slice(), 0, HEADER_LEN, Checksum::CRC16);
        let ghost p0 = dev.pending();
        match send_until(dev, header.as_slice(), ACK, ACK, &mut self.errors, self.max_errors) {
            Ok(_) => {},
            Err(e) => return Err(e),
        }
        proof {
            if old(dev).never_fails() && p0.len() >= 2 && p0[0] == Some(ACK) && p0[1] == Some(CRC) {
                assert(dev.pending()[0] == p0[1]);
                assert(p0.drop_first().drop_first() =~= p0.subrange(2, p0.len() as int));
            }
        }
        match await_reply(dev, CRC, CRC, &mut self.errors, self.max_errors) {
            Ok(_) => Ok(()),
            Err(e) => Err(e),
        }
    }

    /// Sends one 1024-byte STX packet per chunk of the source, each until it
    /// is acknowledged; block numbers start at 1.
    fn send_stream<D: Channel, R: Source>(&mut self, dev: &mut D, stream: &mut R) -> (r: Result<(), Error>)
        requires
            within_budget(old(self).errors, old(self).max_errors),
        ensures
            final(self).same_settings(*old(self)),
            r is Ok ==> within_budget(final(self).errors, final(self).max_errors),
            final(dev).never_fails() == old(dev).never_fails(),
            ({
                let rem = old(stream).remaining();
                &&& old(dev).never_fails()
                &&& old(stream).reads_fully()
                &&& rem.len() < 0x1_0000_0000
                &&& old(dev).pending().len() >= chunk_count(rem.len())
                &&& old(dev).pending().subrange(0, chunk_count(rem.len()) as int) == acks(chunk_count(rem.len()))
            }) ==> {
                &&& r is Ok
                &&& final(self).errors == old(self).errors
                &&& final(dev).written() == old(dev).written() + xmodem_packets(old(stream).remaining(),
                    DATA_LEN as nat, old(self).pad_byte, STX, Checksum::CRC16, 1)
                &&& final(dev).pending() == old(dev).pending().subrange(chunk_count(old(stream).remaining().len()) as int,
                    old(dev).pending().len() as int)
            },
            old(dev).never_fails() && old(stream).reads_fully() && old(stream).remaining().len() < 0x1_0000_0000 ==> ({
                let (ok, w, q, e) = stream_run(old(stream).remaining(), old(dev).pending(), 1024, old(self).pad_byte, STX,
                    Checksum::CRC16, 1, old(self).errors as int, old(self).max_errors as int);
                &&& ok ==> r is Ok
                &&& !ok ==> (r matches Err(Error::ExhaustedRetries))
                &&& final(dev).written() == old(dev).written() + w
                &&& final(dev).pending() == q
                &&& final(self).errors == e
            }),
    {
        let mut block: u64 = 0;
        let ghost sure = old(dev).never_fails() && old(stream).reads_fully() && old(stream).remaining().len() < 0x1_0000_0000;
        let ghost model = stream_run(old(stream).remaining(), old(dev).pending(), 1024, self.pad_byte, STX,
            Checksum::CRC16, 1, old(self).errors as int, old(self).max_errors as int);
        let ghost rem0 = old(stream).remaining();
        let ghost p0 = old(dev).pending();
        let ghost good = old(dev).never_fails() && old(stream).reads_fully() && rem0.len() < 0x1_0000_0000
            && p0.len() >= chunk_count(rem0.len()) && p0.subrange(0, chunk_count(rem0.len()) as int) == acks(chunk_count(rem0.len()));
        let ghost rest = p0.subrange(chunk_count(rem0.len()) as int, p0.len() as int);
        let ghost whole = old(dev).written() + xmodem_packets(rem0, DATA_LEN as nat, self.pad_byte, STX, Checksum::CRC16, 1);
        proof {
            if good {
                assert(p0 =~= acks(chunk_count(rem0.len())) + rest);
            }
        }
        loop
            invariant
                within_budget(self.errors, self.max_errors),
                self.same_settings(*old(self)),
                dev.never_fails() == old(dev).never_fails(),
                rem0 == old(stream).remaining(),
                p0 == old(dev).pending(),
                good == (old(dev).never_fails() && old(stream).reads_fully() && rem0.len() < 0x1_0000_0000
                    && p0.len() >= chunk_count(rem0.len()) && p0.subrange(0, chunk_count(rem0.len()) as int) == acks(chunk_count(rem0.len()))),
                rest == p0.subrange(chunk_count(rem0.len()) as int, p0.len() as int),
                whole == old(dev).written() + xmodem_packets(rem0, DATA_LEN as nat, self.pad_byte, STX, Checksum::CRC16, 1),
                sure == (old(dev).never_fails() && old(stream).reads_fully() && old(stream).remaining().len() < 0x1_0000_0000),
                model == stream_run(old(stream).remaining(), old(dev).pending(), 1024, self.pad_byte, STX,
                    Checksum::CRC16, 1, old(self).errors as int, old(self).max_errors as int),
                sure ==> stream.reads_fully() && block + stream.remaining().len() <= old(stream).remaining().len(),
                sure ==> ({
                    let (ok, w, q, e) = stream_run(stream.remaining(), dev.pending(), 1024, self.pad_byte, STX,
                        Checksum::CRC16, block as nat + 1, self.errors as int, self.max_errors as int);
                    &&& model.0 == ok
                    &&& old(dev).written() + model.1 == dev.written() + w
                    &&& model.2 == q
                    &&& model.3 == e
                }),
                good ==> {
                    &&& stream.reads_fully()
                    &&& self.errors == old(self).errors
                    &&& dev.pending() == acks(chunk_count(stream.remaining().len())) + rest
                    &&& block + stream.remaining().len() <= rem0.len()
                    &&& dev.written() + xmodem_packets(stream.remaining(), DATA_LEN as nat, self.pad_byte, STX,
                        Checksum::CRC16, block as nat + 1) == whole
                },
            decreases u64::MAX - block,
        {
            let ghost rem = stream.remaining();
            let chunk = match stream.read_chunk(DATA_LEN) {
                Ok(c) => c,
                Err(e) => return Err(Error::Io(e)),
            };
            proof {
                if good || sure {
                    assert(chunk@ =~= rem.subrange(0, chunk@.len() as int));
                    assert(stream.remaining() =~= rem.subrange(chunk@.len() as int, rem.len() as int));
                    if chunk@.len() == 0 {
                        assert(rem.len() == 0);
                        assert(dev.written() + Seq::<u8>::empty() =~= dev.written());
                        assert(acks(0) + rest =~= rest);
                    } else if good {
                        lemma_chunk_step(rem.len());
                    }
                }
            }
            if chunk.len() == 0 {
                return Ok(());
            }
            if block == u64::MAX {
                return Err(Error::ExhaustedRetries);
            }
            block = block + 1;
            let seq = (block % 256) as u8;
            let packet = build_packet(STX, seq, chunk.as_slice(), self.pad_byte, DATA_LEN, Checksum::CRC16);
            proof {
                if good {
                    assert(xmodem_packets(rem, DATA_LEN as nat, self.pad_byte, STX, Checksum::CRC16, block as nat)
                        == packet@ + xmodem_packets(stream.remaining(), DATA_LEN as nat, self.pad_byte, STX,
                            Checksum::CRC16, block as nat + 1));
                    assert(dev.pending()[0] == Some(ACK));
                    assert(awaited_first(dev.pending(), ACK, ACK));
                }
            }
            let ghost w = dev.written();
            let ghost pp = dev.pending();
            proof {
                if sure {
                    let n = chunk@.len();
                    assert(n == if rem.len() < 1024 { rem.len() } else { 1024 });
                    assert(packet@ == frame(STX, (block as nat % 256) as u8, padded(rem.subrange(0, n as int),
                        self.pad_byte, 1024), Checksum::CRC16));
                }
            }
            let ghost step = attempts(pp, ACK, ACK, self.errors as int, self.max_errors as int);
            let ghost after = stream_run(stream.remaining(), step.2, 1024, self.pad_byte, STX,
                Checksum::CRC16, block as nat + 1, step.3, self.max_errors as int);
            match send_until(dev, packet.as_slice(), ACK, ACK, &mut self.errors, self.max_errors) {
                Ok(_) => {},
                Err(e) => return Err(e),
            }
            proof {
                if sure {
                    assert(old(dev).written() + model.1 =~= dev.written() + after.1);
                }
                if good {
                    assert(dev.written() + xmodem_packets(stream.remaining(), DATA_LEN as nat, self.pad_byte, STX,
                        Checksum::CRC16, block as nat + 1) =~= w + xmodem_packets(rem, DATA_LEN as nat, self.pad_byte,
                        STX, Checksum::CRC16, block as nat));
                    assert(dev.pending() =~= acks(chunk_count(stream.remaining().len())) + rest);
                }
            }
        }
    }

    /// Sends EOT until NAK or ACK comes; after a NAK sends EOT again until
    /// ACK comes. Then waits for C and sends the end frame.
    fn finish_send<D: Channel>(&mut self, dev: &mut D) -> (r: Result<(), Error>)
        requires
            within_budget(old(self).errors, old(self).max_errors),
        ensures
            final(self).same_settings(*old(self)),
            r is Ok ==> within_budget(final(self).errors, final(self).max_errors),
            old(dev).never_fails() && old(dev).pending().len() >= 4
                && old(dev).pending().subrange(0, 4) == seq![Some(NAK), Some(ACK), Some(CRC), Some(ACK)] ==> {
                &&& r is Ok
                &&& final(dev).written() == old(dev).written() + seq![EOT, EOT] + end_frame_bytes()
            },
            old(dev).never_fails() ==> ({
                let (ok, w) = finish_run(old(dev).pending(), old(self).errors as int, old(self).max_errors as int);
                &&& ok ==> r is Ok
                &&& !ok ==> (r matches Err(Error::ExhaustedRetries))
                &&& final(dev).written() == old(dev).written() + w
            }),
    {
        let ghost p0 = old(dev).pending();
        let ghost good = old(dev).never_fails() && p0.len() >= 4
            && p0.subrange(0, 4) == seq![Some(NAK), Some(ACK), Some(CRC), Some(ACK)];
        let eot = [EOT];
        assert(eot@ =~= seq![EOT]);
        proof {
            if good {
                assert(p0[0] == p0.subrange(0, 4)[0]);
            }
        }
        let answer = match send_until(dev, &eot, NAK, ACK, &mut self.errors, self.max_errors) {
            Ok(a) => a,
            Err(e) => return Err(e),
        };
        proof {
            if good {
                assert(p0[1] == p0.subrange(0, 4)[1]);
                assert(dev.pending()[0] == p0[1]);
            }
        }
        let ghost w1 = dev.written();
        if answer == NAK {
            match send_until(dev, &eot, ACK, ACK, &mut self.errors, self.max_errors) {
                Ok(_) => {},
                Err(e) => return Err(e),
            }
        } else {
            proof {
                assert(w1 + copies(seq![EOT], 0) =~= w1);
            }
        }
        let ghost w2 = dev.written();
        proof {
            if good {
                assert(p0[2] == p0.subrange(0, 4)[2]);
                assert(dev.pending()[0] == p0[2]);
            }
        }
        match await_reply(dev, CRC, CRC, &mut self.errors, self.max_errors) {
            Ok(_) => {},
            Err(e) => return Err(e),
        }
        proof {
            if good {
                assert(p0[3] == p0.subrange(0, 4)[3]);
                assert(dev.pending()[0] == p0[3]);
                assert(dev.written() =~= old(dev).written() + seq![EOT, EOT]);
            }
        }
        let ghost w3 = dev.written();
        let ghost p3 = dev.pending();
        let ghost e3 = self.errors as int;
        let r = self.send_end_frame(dev);
        proof {
            if good {
                assert(dev.written() =~= old(dev).written() + seq![EOT, EOT] + end_frame_bytes());
            }
            if old(dev).never_fails() {
                let (g4, k4, q4, e4) = attempts(p3, ACK, ACK, e3, self.max_errors as int);
                assert(dev.written() == w3 + copies(end_frame_bytes(), k4));
            }
        }
        r
    }

    /// Sends the end frame, a header packet with an all-zero payload, until
    /// it is acknowledged.
    fn send_end_frame<D: Channel>(&mut self, dev: &mut D) -> (r: Result<(), Error>)
        requires
            within_budget(old(self).errors, old(self).max_errors),
        ensures
            final(self).same_settings(*old(self)),
            r is Ok ==> within_budget(final(self).errors, final(self).max_errors),
            final(dev).never_fails() == old(dev).never_fails(),
            old(dev).never_fails() && old(dev).pending().len() > 0 && old(dev).pending()[0] == Some(ACK) ==> {
                &&& r is Ok
                &&& final(dev).written() == old(dev).written() + end_frame_bytes()
            },
            old(dev).never_fails() ==> ({
                let (g, k, q, e) = attempts(old(dev).pending(), ACK, ACK, old(self).errors as int, old(self).max_errors as int);
                &&& g is Some ==> r is Ok
                &&& g is None ==> (r matches Err(Error::ExhaustedRetries))
                &&& final(dev).written() == old(dev).written() + copies(end_frame_bytes(), k)
            }),
    {
        let empty: [u8; 0] = [];
        assert(empty@ =~= Seq::<u8>::empty());
        let end_frame = build_packet(SOH, 0, &empty, 0, HEADER_LEN, Checksum::CRC16);
        assert(end_frame@ == end_frame_bytes());
        match send_until(dev, end_frame.as_slice(), ACK, ACK, &mut self.errors, self.max_errors) {
            Ok(_) => Ok(()),
            Err(e) => Err(e),
        }
    }
}

} // verus!
