//! The XMODEM engine: 128- or 1024-byte packets with an additive checksum or
//! CRC-16.
use vstd::prelude::*;
pub use crate::packet::Checksum;
use crate::packet::{advance, build_packet, frame, padded, probe_run, verdict, handshake_run, lemma_handshake_run_ends, handshake_step, packet_verdict, probe_step, Handshake, Probe, Verdict};
use crate::exchange::{as_replies, attempts, bytes_ahead, ends_as, lemma_body_from_replies, received_of, take_bytes, Ending, copies, awaited_first, check_len, cancel, ends_with_cancel, lemma_as_replies_injective, lemma_body_of_frame, put, read_body, refused_throughout, send_until, within_budget};
use crate::xymodem_util::{after_reply, next_reply, get_byte_timeout, Channel, Error, Sink, Source, ACK, CAN, CRC, EOT, NAK, SOH, STX};

verus! {

/// The payload length of data packets.
#[derive(Copy, Clone, Debug, PartialEq, Eq, Structural)]
pub enum BlockLength {
    /// 128-byte packets, introduced by SOH.
    Standard,
    /// 1024-byte packets, introduced by STX.
    OneK,
}

pub open spec fn block_len(b: BlockLength) -> nat {
    match b {
        BlockLength::Standard => 128,
        BlockLength::OneK => 1024,
    }
}

impl BlockLength {
    /// The number of payload bytes in a packet.
    pub fn len(&self) -> (r: usize)
        ensures
            r == block_len(*self),
    {
        match self {
            BlockLength::Standard => 128,
            BlockLength::OneK => 1024,
        }
    }

    /// The header byte that introduces a packet of this length.
    pub fn header(&self) -> (r: u8)
        ensures
            r == if *self is Standard { SOH } else { STX },
    {
        match self {
            BlockLength::Standard => SOH,
            BlockLength::OneK => STX,
        }
    }
}

/// Configuration and counters of an XMODEM transfer.
#[derive(Copy, Clone, Debug)]
pub struct Xmodem {
    /// The number of errors (unexpected bytes, timeouts, failed verifications)
    /// that ends a transfer.
    pub max_errors: u32,
    /// The number of errors that ends the wait for the first packet.
    pub max_initial_errors: u32,
    /// The byte that pads the last packet.
    pub pad_byte: u8,
    /// The payload length of each packet the sender builds.
    pub block_length: BlockLength,
    /// The checksum mode in use; the receiver's poll byte sets it.
    pub checksum_mode: Checksum,
    /// Errors counted in the current transfer.
    pub errors: u32,
    /// Errors counted while waiting for the first packet.
    pub initial_errors: u32,
}

/// The byte a receiver polls with to ask for `mode`.
pub open spec fn poll_byte(mode: Checksum) -> u8 {
    match mode {
        Checksum::Standard => NAK,
        Checksum::CRC16 => CRC,
    }
}

/// `n` copies of the byte `b`.
pub open spec fn repeated(b: u8, n: nat) -> Seq<u8> {
    Seq::new(n, |i: int| b)
}

/// The header byte of a packet that carries `p`.
pub open spec fn header_for(p: Seq<u8>) -> u8 {
    if p.len() == 128 {
        SOH
    } else {
        STX
    }
}

/// What a sender writes for the data `s` in packets of `len` bytes, the
/// first numbered `block`: each packet carries the next `len` bytes, the
/// last one padded with `pad`.
pub open spec fn xmodem_packets(s: Seq<u8>, len: nat, pad: u8, header: u8, mode: Checksum, block: nat) -> Seq<u8>
    decreases s.len(),
{
    if s.len() == 0 || len == 0 {
        Seq::empty()
    } else {
        let n = if s.len() < len { s.len() } else { len };
        frame(header, (block % 256) as u8, padded(s.subrange(0, n as int), pad, len), mode)
            + xmodem_packets(s.subrange(n as int, s.len() as int), len, pad, header, mode, block + 1)
    }
}

/// How a sender's data phase goes on the replies `p` for the data `s`,
/// starting with packet `block` after `errors` failures: each packet is
/// written until it is acknowledged. Gives whether every packet was
/// acknowledged, the bytes written, the replies left and the failures counted.
pub open spec fn stream_run(s: Seq<u8>, p: Seq<Option<u8>>, len: nat, pad: u8, header: u8, mode: Checksum,
    block: nat, errors: int, max: int) -> (bool, Seq<u8>, Seq<Option<u8>>, int)
    decreases s.len(),
{
    if s.len() == 0 || len == 0 {
        (true, Seq::empty(), p, errors)
    } else {
        let n = if s.len() < len { s.len() } else { len };
        let packet = frame(header, (block % 256) as u8, padded(s.subrange(0, n as int), pad, len), mode);
        let (g, k, q, e) = attempts(p, ACK, ACK, errors, max);
        if g is None {
            (false, copies(packet, k), q, e)
        } else {
            let (ok, w, q2, e2) = stream_run(s.subrange(n as int, s.len() as int), q, len, pad, header, mode, block + 1, e, max);
            (ok, copies(packet, k) + w, q2, e2)
        }
    }
}

/// How an XMODEM send of the data `s` goes on the replies `p`: the
/// handshake, the data packets numbered from 1, then EOT until it is
/// acknowledged, with one error budget of `max` failures from zero.
pub open spec fn xmodem_send_run(p: Seq<Option<u8>>, s: Seq<u8>, len: nat, pad: u8, header: u8, max: int) -> (Ending, Seq<u8>) {
    let (h, q, e) = handshake_run(p, false, 0, 0, max);
    match h {
        Handshake::Ready(mode) => {
            let (ok, w, q2, e2) = stream_run(s, q, len, pad, header, mode, 1, e, max);
            if !ok {
                (Ending::Exhausted, w)
            } else {
                let (g, k, q3, e3) = attempts(q2, ACK, ACK, e2, max);
                (if g is Some { Ending::Done } else { Ending::Exhausted }, w + copies(seq![EOT], k))
            }
        },
        Handshake::Canceled => (Ending::Canceled, Seq::empty()),
        _ => (Ending::Exhausted, seq![CAN]),
    }
}

/// How an XMODEM receiver's packet loop goes on the replies `p`, expecting
/// sequence `expected` after `errors` failures; `header` is a packet header
/// already read. Gives how it ends, the bytes written to the channel, and
/// the bytes delivered.
pub open spec fn xrecv_run(p: Seq<Option<u8>>, mode: Checksum, expected: u8, errors: int, max: int, header: Option<u8>)
    -> (Ending, Seq<u8>, Seq<u8>)
    decreases p.len() + if header is Some { 1int } else { 0int }, max - errors,
{
    let r = if header is Some { header } else { next_reply(p) };
    let q = if header is Some { p } else { after_reply(p) };
    if r == Some(SOH) || r == Some(STX) {
        let size: nat = if r == Some(SOH) { 128 } else { 1024 };
        let n = size + 2 + check_len(mode);
        if !bytes_ahead(q, n) {
            (Ending::Broken, Seq::empty(), Seq::empty())
        } else {
            let b = take_bytes(q, n);
            let payload = b.subrange(2, 2 + size as int);
            let v = verdict(expected, b[0], b[1], payload, mode, received_of(b, size, mode));
            let q2 = q.subrange(n as int, q.len() as int);
            if v is OutOfSync {
                (Ending::Canceled, seq![CAN, CAN], Seq::empty())
            } else if v is Accept {
                if errors >= max {
                    (Ending::Exhausted, seq![ACK], payload)
                } else {
                    let (e, w, d) = xrecv_run(q2, mode, ((expected + 1) % 256) as u8, errors, max, None);
                    (e, seq![ACK] + w, payload + d)
                }
            } else if errors + 1 >= max {
                (Ending::Exhausted, seq![NAK], Seq::empty())
            } else {
                let (e, w, d) = xrecv_run(q2, mode, expected, errors + 1, max, None);
                (e, seq![NAK] + w, d)
            }
        }
    } else if r == Some(EOT) {
        (Ending::Done, seq![ACK], Seq::empty())
    } else if r is Some {
        if errors >= max {
            (Ending::Exhausted, Seq::empty(), Seq::empty())
        } else {
            xrecv_run(q, mode, expected, errors, max, None)
        }
    } else if errors + 1 >= max {
        (Ending::Exhausted, Seq::empty(), Seq::empty())
    } else {
        xrecv_run(q, mode, expected, errors + 1, max, None)
    }
}

/// How an XMODEM receive polling for `mode` goes on the replies `p`: the
/// probe, then the packet loop from sequence 1 with no failures counted.
pub open spec fn xmodem_recv_run(p: Seq<Option<u8>>, mode: Checksum, max: int, max_initial: int) -> (Ending, Seq<u8>, Seq<u8>) {
    let (h, k, q) = probe_run(p, true, 0, max_initial);
    let polls = repeated(poll_byte(mode), k);
    if h is None {
        (Ending::Exhausted, polls, Seq::empty())
    } else {
        let (e, w, d) = xrecv_run(q, mode, 1, 0, max, h);
        (e, polls + w, d)
    }
}

/// Every reply is an ACK.
pub open spec fn all_acks(p: Seq<Option<u8>>) -> bool {
    forall|i: int| 0 <= i < p.len() ==> p[i] == Some(ACK)
}

/// The payloads, in order, laid end to end.
pub open spec fn concat(ps: Seq<Seq<u8>>) -> Seq<u8>
    decreases ps.len(),
{
    if ps.len() == 0 {
        Seq::empty()
    } else {
        concat(ps.drop_last()) + ps.last()
    }
}

/// What a sender transmits from packet `from` of `ps` on: each packet with
/// sequence number `from + 1` (mod 256) and so on, then EOT.
pub open spec fn xmodem_stream(ps: Seq<Seq<u8>>, mode: Checksum, from: nat) -> Seq<Option<u8>>
    decreases ps.len() - from,
{
    if from >= ps.len() {
        seq![Some(EOT)]
    } else {
        as_replies(frame(header_for(ps[from as int]), ((from + 1) % 256) as u8, ps[from as int], mode))
            + xmodem_stream(ps, mode, from + 1)
    }
}

/// A well-formed transfer of at least one packet of 128 or 1024 bytes.
pub open spec fn xmodem_transfer(ps: Seq<Seq<u8>>) -> bool {
    &&& 0 < ps.len() < 0x1_0000_0000
    &&& forall|i: int| 0 <= i < ps.len() ==> (#[trigger] ps[i]).len() == 128 || ps[i].len() == 1024
}

/// The replies are those of a well-formed transfer in `mode`.
pub open spec fn is_xmodem_transfer(replies: Seq<Option<u8>>, mode: Checksum) -> bool {
    exists|ps: Seq<Seq<u8>>| xmodem_transfer(ps) && #[trigger] xmodem_stream(ps, mode, 0) == replies
}

/// The packets' payloads of a well-formed transfer.
pub open spec fn xmodem_payloads(replies: Seq<Option<u8>>, mode: Checksum) -> Seq<Seq<u8>> {
    choose|ps: Seq<Seq<u8>>| xmodem_transfer(ps) && #[trigger] xmodem_stream(ps, mode, 0) == replies
}

pub(crate) proof fn lemma_stream_step(ps: Seq<Seq<u8>>, mode: Checksum, k: nat)
    requires
        k < ps.len(),
    ensures
        ({
            let f = frame(header_for(ps[k as int]), ((k + 1) % 256) as u8, ps[k as int], mode);
            let s = xmodem_stream(ps, mode, k);
            &&& f.len() == 3 + ps[k as int].len() + check_len(mode)
            &&& s.len() > 0
            &&& s[0] == Some(header_for(ps[k as int]))
            &&& after_reply(s) == as_replies(f.subrange(1, f.len() as int)) + xmodem_stream(ps, mode, k + 1)
        }),
{
    let f = frame(header_for(ps[k as int]), ((k + 1) % 256) as u8, ps[k as int], mode);
    let s = xmodem_stream(ps, mode, k);
    assert(s == as_replies(f) + xmodem_stream(ps, mode, k + 1));
    assert(s[0] == as_replies(f)[0]);
    assert(after_reply(s) =~= as_replies(f.subrange(1, f.len() as int)) + xmodem_stream(ps, mode, k + 1));
}

pub(crate) proof fn lemma_concat_step(ps: Seq<Seq<u8>>, k: int)
    requires
        0 <= k < ps.len(),
    ensures
        concat(ps.subrange(0, k + 1)) == concat(ps.subrange(0, k)) + ps[k],
{
    assert(ps.subrange(0, k + 1).drop_last() =~= ps.subrange(0, k));
}

impl Xmodem {
    /// The settings are those of `other`: caps, pad byte and block length.
    pub open spec fn same_settings(&self, other: Xmodem) -> bool {
        &&& self.max_errors == other.max_errors
        &&& self.max_initial_errors == other.max_initial_errors
        &&& self.pad_byte == other.pad_byte
        &&& self.block_length == other.block_length
    }

    /// The configuration with default settings: caps of 16 errors, pad byte
    /// 0x1A, 128-byte packets.
    pub fn new() -> (r: Xmodem)
        ensures
            r.max_errors == 16,
            r.max_initial_errors == 16,
            r.pad_byte == 0x1a,
            r.block_length == BlockLength::Standard,
            r.checksum_mode == Checksum::Standard,
            r.errors == 0,
            r.initial_errors == 0,
    {
        Xmodem {
            max_errors: 16,
            max_initial_errors: 16,
            pad_byte: 0x1a,
            block_length: BlockLength::Standard,
            checksum_mode: Checksum::Standard,
            errors: 0,
            initial_errors: 0,
        }
    }

    /// Sends the bytes of `stream` over `dev`. The caller sets the channel's
    /// read timeout; timeouts count against `max_errors`, write failures end
    /// the transfer.
    ///
    /// When the receiver polls (C or NAK) and then answers every packet with
    /// NAK, the transfer fails after exactly `max_errors` of those answers.
    pub fn send<D: Channel, R: Source>(&mut self, dev: &mut D, stream: &mut R) -> (r: Result<(), Error>)
        ensures
            final(self).same_settings(*old(self)),
            r is Ok ==> within_budget(final(self).errors, final(self).max_errors),
            ({
                let p = old(dev).pending();
                &&& p.len() > 0
                &&& (p[0] == Some(CRC) || p[0] == Some(NAK))
                &&& refused_throughout(p.drop_first(), ACK, ACK, 0, old(self).max_errors)
                &&& old(stream).remaining().len() > 0
                &&& !(r matches Err(Error::Io(_)))
            }) ==> {
                &&& r matches Err(Error::ExhaustedRetries)
                &&& final(self).errors == final(self).max_errors
                &&& final(dev).pending().len() == old(dev).pending().len() - 1 - old(self).max_errors
            },
            ({
                let p = old(dev).pending();
                &&& old(dev).never_fails()
                &&& old(stream).reads_fully()
                &&& p.len() > 1 + old(stream).remaining().len()
                &&& (p[0] == Some(CRC) || p[0] == Some(NAK))
                &&& all_acks(p.drop_first())
                &&& old(stream).remaining().len() < 0x1_0000_0000
            }) ==> {
                &&& r is Ok
                &&& final(dev).written() == old(dev).written() + xmodem_packets(old(stream).remaining(),
                    block_len(old(self).block_length), old(self).pad_byte,
                    if old(self).block_length is Standard { SOH } else { STX },
                    if old(dev).pending()[0] == Some(CRC) { Checksum::CRC16 } else { Checksum::Standard }, 1)
                    + seq![EOT]
            },
            old(dev).never_fails() && old(dev).pending().len() >= 2 && old(dev).pending()[0] == Some(CAN)
                && old(dev).pending()[1] == Some(CAN) && old(self).max_errors > 2 ==> {
                &&& r matches Err(Error::Canceled)
                &&& final(dev).written() == old(dev).written()
                &&& final(stream).remaining() == old(stream).remaining()
            },
            old(dev).never_fails() && old(dev).pending().len() == 0 && old(self).max_errors > 0 ==> {
                &&& r matches Err(Error::ExhaustedRetries)
                &&& final(self).errors == final(self).max_errors
                &&& final(dev).written() == old(dev).written() + seq![CAN]
                &&& final(stream).remaining() == old(stream).remaining()
            },
            old(dev).never_fails() && old(stream).reads_fully() && old(stream).remaining().len() < 0x1_0000_0000 ==> ({
                let (end, w) = xmodem_send_run(old(dev).pending(), old(stream).remaining(), block_len(old(self).block_length),
                    old(self).pad_byte, if old(self).block_length is Standard { SOH } else { STX }, old(self).max_errors as int);
                &&& ends_as(r, end)
                &&& final(dev).written() == old(dev).written() + w
            }),
    {
        self.errors = 0;
        proof {
            lemma_handshake_run_ends(old(dev).pending(), false, 0, 0, self.max_errors as int);
        }
        match self.start_send(dev) {
            Ok(()) => {},
            Err(e) => return Err(e),
        }
        let ghost w1 = dev.written();
        let ghost m = self.checksum_mode;
        match self.send_stream(dev, stream) {
            Ok(()) => {},
            Err(e) => return Err(e),
        }
        let ghost w2 = dev.written();
        let r = self.finish_send(dev);
        proof {
            if old(dev).never_fails() && old(stream).reads_fully() && old(stream).remaining().len() < 0x1_0000_0000 {
                let (h, q, e) = handshake_run(old(dev).pending(), false, 0, 0, self.max_errors as int);
                let (ok, w, q2, e2) = stream_run(old(stream).remaining(), q, block_len(self.block_length), self.pad_byte,
                    if self.block_length is Standard { SOH } else { STX }, m, 1, e, self.max_errors as int);
                let (g, k, q3, e3) = attempts(q2, ACK, ACK, e2, self.max_errors as int);
                let c = copies(seq![EOT], k);
                assert(h is Ready);
                assert(w1 == old(dev).written());
                assert(w2 == w1 + w);
                assert(dev.written() == w2 + c);
                assert(w2 + c =~= old(dev).written() + (w + c));
            }
        }
        r
    }

    /// Waits for the receiver's poll byte, which sets the checksum mode.
    fn start_send<D: Channel>(&mut self, dev: &mut D) -> (r: Result<(), Error>)
        requires
            within_budget(old(self).errors, old(self).max_errors),
        ensures
            final(self).same_settings(*old(self)),
            r is Ok ==> within_budget(final(self).errors, final(self).max_errors),
            r is Ok ==> final(dev).written() == old(dev).written(),
            old(dev).never_fails() ==> !(r matches Err(Error::Io(_))),
            final(dev).never_fails() == old(dev).never_fails(),
            old(dev).pending().len() > 0 && (old(dev).pending()[0] == Some(CRC) || old(dev).pending()[0] == Some(NAK))
                && !(r matches Err(Error::Io(_))) ==> {
                &&& r is Ok
                &&& final(self).errors == old(self).errors
                &&& final(dev).pending() == old(dev).pending().drop_first()
                &&& final(self).checksum_mode == if old(dev).pending()[0] == Some(CRC) { Checksum::CRC16 } else { Checksum::Standard }
            },
            r matches Err(Error::Canceled) ==> final(dev).written() == old(dev).written(),
            old(dev).never_fails() && old(dev).pending().len() >= 2 && old(dev).pending()[0] == Some(CAN)
                && old(dev).pending()[1] == Some(CAN) && old(self).errors + 2 < old(self).max_errors ==> (r matches Err(Error::Canceled)),
            old(dev).never_fails() && old(dev).pending().len() == 0 ==> {
                &&& r matches Err(Error::ExhaustedRetries)
                &&& old(self).max_errors > 0 ==> final(self).errors == final(self).max_errors
                &&& final(dev).written() == old(dev).written() + seq![CAN]
            },
            old(dev).never_fails() ==> ({
                let (h, q, e) = handshake_run(old(dev).pending(), false, 0, old(self).errors as int, old(self).max_errors as int);
                &&& h matches Handshake::Ready(m) ==> r is Ok && final(self).checksum_mode == m
                    && final(dev).written() == old(dev).written()
                &&& h is Canceled ==> (r matches Err(Error::Canceled)) && final(dev).written() == old(dev).written()
                &&& h is Exhausted ==> (r matches Err(Error::ExhaustedRetries))
                    && final(dev).written() == old(dev).written() + seq![CAN]
                &&& final(dev).pending() == q
                &&& final(self).errors == e
            }),
    {
        let mut cancels: u32 = 0;
        let ghost whole = handshake_run(old(dev).pending(), false, 0, old(self).errors as int, old(self).max_errors as int);
        let ghost polled = old(dev).pending().len() > 0 && (old(dev).pending()[0] == Some(CRC) || old(dev).pending()[0] == Some(NAK));
        let ghost two_cans = old(dev).never_fails() && old(dev).pending().len() >= 2 && old(dev).pending()[0] == Some(CAN)
            && old(dev).pending()[1] == Some(CAN) && old(self).errors + 2 < old(self).max_errors;
        let ghost silent = old(dev).never_fails() && old(dev).pending().len() == 0;
        loop
            invariant
                two_cans == (old(dev).never_fails() && old(dev).pending().len() >= 2 && old(dev).pending()[0] == Some(CAN)
                    && old(dev).pending()[1] == Some(CAN) && old(self).errors + 2 < old(self).max_errors),
                two_cans ==> (cancels == 0 && dev.pending() == old(dev).pending() && self.errors == old(self).errors)
                    || (cancels == 1 && dev.pending() == old(dev).pending().drop_first() && self.errors == old(self).errors + 1),
                silent == (old(dev).never_fails() && old(dev).pending().len() == 0),
                silent ==> dev.pending().len() == 0 && dev.never_fails(),
                whole == handshake_run(old(dev).pending(), false, 0, old(self).errors as int, old(self).max_errors as int),
                old(dev).never_fails() ==> whole == handshake_run(dev.pending(), false, cancels as int, self.errors as int,
                    self.max_errors as int),
                within_budget(self.errors, self.max_errors),
                self.same_settings(*old(self)),
                cancels < 2,
                dev.written() == old(dev).written(),
                dev.never_fails() == old(dev).never_fails(),
                polled == (old(dev).pending().len() > 0 && (old(dev).pending()[0] == Some(CRC) || old(dev).pending()[0] == Some(NAK))),
                polled ==> dev.pending() == old(dev).pending() && self.errors == old(self).errors,
            decreases self.max_errors - self.errors,
        {
            let reply = match get_byte_timeout(dev) {
                Ok(v) => v,
                Err(e) => return Err(e),
            };
            match handshake_step(reply, false, &mut cancels, &mut self.errors, self.max_errors) {
                Handshake::Ready(mode) => {
                    self.checksum_mode = mode;
                    return Ok(());
                },
                Handshake::Wait => {},
                Handshake::Canceled => {
                    return Err(Error::Canceled);
                },
                Handshake::Exhausted => {
                    let can = [CAN];
                    assert(can@ =~= seq![CAN]);
                    let _ = dev.write_all(&can);
                    return Err(Error::ExhaustedRetries);
                },
            }
            proof {
                if two_cans && cancels == 1 {
                    assert(dev.pending()[0] == old(dev).pending()[1]);
                }
            }
        }
    }

    /// Sends one packet per chunk of the source, each until it is
    /// acknowledged; block numbers start at 1.
    fn send_stream<D: Channel, R: Source>(&mut self, dev: &mut D, stream: &mut R) -> (r: Result<(), Error>)
        requires
            within_budget(old(self).errors, old(self).max_errors),
        ensures
            final(self).same_settings(*old(self)),
            r is Ok ==> within_budget(final(self).errors, final(self).max_errors),
            old(stream).remaining().len() > 0
                && refused_throughout(old(dev).pending(), ACK, ACK, old(self).errors, old(self).max_errors)
                && !(r matches Err(Error::Io(_))) ==> {
                &&& r matches Err(Error::ExhaustedRetries)
                &&& final(self).errors == final(self).max_errors
                &&& final(dev).pending().len() == old(dev).pending().len() - (old(self).max_errors - old(self).errors)
            },
            old(dev).never_fails() && old(stream).reads_fully() && old(stream).remaining().len() < 0x1_0000_0000 ==> ({
                let (ok, w, q, e) = stream_run(old(stream).remaining(), old(dev).pending(),
                    block_len(old(self).block_length), old(self).pad_byte,
                    if old(self).block_length is Standard { SOH } else { STX }, old(self).checksum_mode, 1,
                    old(self).errors as int, old(self).max_errors as int);
                &&& ok ==> r is Ok
                &&& !ok ==> (r matches Err(Error::ExhaustedRetries))
                &&& final(dev).written() == old(dev).written() + w
                &&& final(dev).pending() == q
                &&& final(self).errors == e
                &&& final(self).checksum_mode == old(self).checksum_mode
                &&& final(dev).never_fails()
            }),
            ({
                &&& old(dev).never_fails()
                &&& old(stream).reads_fully()
                &&& all_acks(old(dev).pending())
                &&& old(dev).pending().len() > old(stream).remaining().len()
                &&& old(stream).remaining().len() < 0x1_0000_0000
            }) ==> {
                &&& r is Ok
                &&& final(self).errors == old(self).errors
                &&& final(dev).written() == old(dev).written() + xmodem_packets(old(stream).remaining(),
                    block_len(old(self).block_length), old(self).pad_byte,
                    if old(self).block_length is Standard { SOH } else { STX }, old(self).checksum_mode, 1)
                &&& all_acks(final(dev).pending())
                &&& final(dev).pending().len() > 0
                &&& final(dev).never_fails()
            },
    {
        let len = self.block_length.len();
        let header = self.block_length.header();
        let mut block: u64 = 0;
        let ghost good = old(dev).never_fails() && old(stream).reads_fully() && all_acks(old(dev).pending())
            && old(dev).pending().len() > old(stream).remaining().len() && old(stream).remaining().len() < 0x1_0000_0000;
        let ghost whole = old(dev).written() + xmodem_packets(old(stream).remaining(), len as nat, self.pad_byte,
            header, self.checksum_mode, 1);
        let ghost doomed = old(stream).remaining().len() > 0
            && refused_throughout(old(dev).pending(), ACK, ACK, old(self).errors, old(self).max_errors);
        let ghost sure = old(dev).never_fails() && old(stream).reads_fully() && old(stream).remaining().len() < 0x1_0000_0000;
        let ghost model = stream_run(old(stream).remaining(), old(dev).pending(), len as nat, self.pad_byte, header,
            self.checksum_mode, 1, old(self).errors as int, old(self).max_errors as int);
        loop
            invariant
                within_budget(self.errors, self.max_errors),
                self.same_settings(*old(self)),
                len == block_len(self.block_length),
                doomed == (old(stream).remaining().len() > 0
                    && refused_throughout(old(dev).pending(), ACK, ACK, old(self).errors, old(self).max_errors)),
                doomed ==> block == 0 && dev.pending() == old(dev).pending() && self.errors == old(self).errors
                    && stream.remaining() == old(stream).remaining(),
                header == (if self.block_length is Standard { SOH } else { STX }),
                self.checksum_mode == old(self).checksum_mode,
                good == (old(dev).never_fails() && old(stream).reads_fully() && all_acks(old(dev).pending())
                    && old(dev).pending().len() > old(stream).remaining().len() && old(stream).remaining().len() < 0x1_0000_0000),
                whole == old(dev).written() + xmodem_packets(old(stream).remaining(), len as nat, self.pad_byte,
                    header, self.checksum_mode, 1),
                sure == (old(dev).never_fails() && old(stream).reads_fully() && old(stream).remaining().len() < 0x1_0000_0000),
                model == stream_run(old(stream).remaining(), old(dev).pending(), len as nat, self.pad_byte, header,
                    self.checksum_mode, 1, old(self).errors as int, old(self).max_errors as int),
                sure ==> dev.never_fails() && stream.reads_fully()
                    && block + stream.remaining().len() <= old(stream).remaining().len(),
                sure ==> ({
                    let (ok, w, q, e) = stream_run(stream.remaining(), dev.pending(), len as nat, self.pad_byte, header,
                        self.checksum_mode, block as nat + 1, self.errors as int, self.max_errors as int);
                    &&& model.0 == ok
                    &&& old(dev).written() + model.1 == dev.written() + w
                    &&& model.2 == q
                    &&& model.3 == e
                }),
                good ==> {
                    &&& dev.never_fails()
                    &&& stream.reads_fully()
                    &&& all_acks(dev.pending())
                    &&& dev.pending().len() > stream.remaining().len()
                    &&& self.errors == old(self).errors
                    &&& block + stream.remaining().len() <= old(stream).remaining().len()
                    &&& dev.written() + xmodem_packets(stream.remaining(), len as nat, self.pad_byte, header,
                        self.checksum_mode, block as nat + 1) == whole
                },
            decreases u64::MAX - block,
        {
            let ghost rem = stream.remaining();
            let chunk = match stream.read_chunk(len) {
                Ok(c) => c,
                Err(e) => return Err(Error::Io(e)),
            };
            proof {
                if good || sure {
                    assert(chunk@ =~= rem.subrange(0, chunk@.len() as int));
                    assert(stream.remaining() =~= rem.subrange(chunk@.len() as int, rem.len() as int));
                    if chunk@.len() == 0 {
                        assert(rem.len() == 0);
                        assert(dev.written() + Seq::<u8>::empty() =~= dev.written());
                    }
                }
            }
            if chunk.len() == 0 {
                return Ok(());
            }
            if block == u64::MAX {
                return Err(Error::ExhaustedRetries);
            }
            block = block + 1;
            let seq = (block % 256) as u8;
            let packet = build_packet(header, seq, chunk.as_slice(), self.pad_byte, len, self.checksum_mode);
            proof {
                if good {
                    let n = chunk@.len();
                    assert(n == if rem.len() < len { rem.len() } else { len as nat });
                    assert(xmodem_packets(rem, len as nat, self.pad_byte, header, self.checksum_mode, block as nat)
                        == packet@ + xmodem_packets(stream.remaining(), len as nat, self.pad_byte, header,
                            self.checksum_mode, block as nat + 1));
                    assert(dev.pending()[0] == Some(ACK));
                    assert(awaited_first(dev.pending(), ACK, ACK));
                }
            }
            let ghost w = dev.written();
            let ghost pp = dev.pending();
            let ghost ee = self.errors as int;
            proof {
                if sure {
                    let n = chunk@.len();
                    assert(n == if rem.len() < len { rem.len() } else { len as nat });
                    assert(packet@ == frame(header, (block as nat % 256) as u8, padded(rem.subrange(0, n as int),
                        self.pad_byte, len as nat), self.checksum_mode));
                }
            }
            let ghost step = attempts(pp, ACK, ACK, ee, self.max_errors as int);
            let ghost after = stream_run(stream.remaining(), step.2, len as nat, self.pad_byte, header,
                self.checksum_mode, block as nat + 1, step.3, self.max_errors as int);
            match send_until(dev, packet.as_slice(), ACK, ACK, &mut self.errors, self.max_errors) {
                Ok(_) => {},
                Err(e) => return Err(e),
            }
            proof {
                if sure {
                    assert(old(dev).written() + model.1 =~= dev.written() + after.1);
                }
                if good {
                    assert(dev.written() + xmodem_packets(stream.remaining(), len as nat, self.pad_byte, header,
                        self.checksum_mode, block as nat + 1) =~= w + xmodem_packets(rem, len as nat, self.pad_byte,
                        header, self.checksum_mode, block as nat));
                    assert forall|i: int| 0 <= i < dev.pending().len() implies dev.pending()[i] == Some(ACK) by {
                        assert(dev.pending()[i] == pp[i + 1]);
                    }
                }
            }
        }
    }

    /// Sends EOT until it is acknowledged.
    fn finish_send<D: Channel>(&mut self, dev: &mut D) -> (r: Result<(), Error>)
        requires
            within_budget(old(self).errors, old(self).max_errors),
        ensures
            final(self).same_settings(*old(self)),
            r is Ok ==> within_budget(final(self).errors, final(self).max_errors),
            old(dev).never_fails() && old(dev).pending().len() > 0 && all_acks(old(dev).pending()) ==> {
                &&& r is Ok
                &&& final(dev).written() == old(dev).written() + seq![EOT]
            },
            old(dev).never_fails() ==> ({
                let (g, k, q, e) = attempts(old(dev).pending(), ACK, ACK, old(self).errors as int, old(self).max_errors as int);
                &&& g is Some ==> r is Ok
                &&& g is None ==> (r matches Err(Error::ExhaustedRetries))
                &&& final(dev).written() == old(dev).written() + copies(seq![EOT], k)
            }),
    {
        proof {
            if old(dev).never_fails() && old(dev).pending().len() > 0 && all_acks(old(dev).pending()) {
                assert(old(dev).pending()[0] == Some(ACK));
            }
        }
        let eot = [EOT];
        assert(eot@ =~= seq![EOT]);
        match send_until(dev, &eot, ACK, ACK, &mut self.errors, self.max_errors) {
            Ok(_) => Ok(()),
            Err(e) => Err(e),
        }
    }

    /// Receives a transfer from `dev` into `outstream`, polling for the
    /// given checksum mode. Every accepted payload is delivered whole, pad
    /// bytes included. The caller sets the channel's read timeout.
    #[verifier::rlimit(100)]
    #[verifier::spinoff_prover]
    pub fn recv<D: Channel, W: Sink>(&mut self, dev: &mut D, outstream: &mut W, checksum: Checksum) -> (r: Result<(), Error>)
        ensures
            final(self).same_settings(*old(self)),
            final(self).checksum_mode == checksum,
            final(self).initial_errors <= final(self).max_initial_errors,
            r matches Err(Error::Canceled) ==> ends_with_cancel(final(dev).written()),
            old(dev).pending().len() == 0 && !(r matches Err(Error::Io(_))) ==> (r matches Err(Error::ExhaustedRetries))
                && final(dev).written() == old(dev).written() + repeated(poll_byte(checksum), (old(self).max_initial_errors + 1) as nat)
                && final(outstream).delivered() == old(outstream).delivered(),
            ({
                &&& old(dev).never_fails()
                &&& old(outstream).accepts_all()
                &&& old(self).max_errors > 0
                &&& is_xmodem_transfer(old(dev).pending(), checksum)
            }) ==> {
                &&& r is Ok
                &&& final(outstream).delivered() == old(outstream).delivered()
                    + concat(xmodem_payloads(old(dev).pending(), checksum))
            },
            old(dev).never_fails() && old(outstream).accepts_all() && old(dev).pending().len() < 0x1_0000_0000 ==> ({
                let (end, w, d) = xmodem_recv_run(old(dev).pending(), checksum, old(self).max_errors as int,
                    old(self).max_initial_errors as int);
                &&& ends_as(r, end)
                &&& final(dev).written() == old(dev).written() + w
                &&& final(outstream).delivered() == old(outstream).delivered() + d
            }),
    {
        self.errors = 0;
        self.initial_errors = 0;
        self.checksum_mode = checksum;
        let poll: u8 = match checksum {
            Checksum::Standard => NAK,
            Checksum::CRC16 => CRC,
        };
        let mut first: u8;
        let ghost silent = old(dev).pending().len() == 0;
        let ghost ok = old(dev).never_fails() && old(outstream).accepts_all() && old(self).max_errors > 0
            && is_xmodem_transfer(old(dev).pending(), checksum);
        let ghost ps = xmodem_payloads(old(dev).pending(), checksum);
        let ghost sure = old(dev).never_fails() && old(outstream).accepts_all() && old(dev).pending().len() < 0x1_0000_0000;
        let ghost total = xmodem_recv_run(old(dev).pending(), checksum, self.max_errors as int, self.max_initial_errors as int);
        let ghost probe = probe_run(old(dev).pending(), true, 0, self.max_initial_errors as int);
        proof {
            if ok {
                assert(xmodem_transfer(ps) && xmodem_stream(ps, checksum, 0) == old(dev).pending());
                lemma_stream_step(ps, checksum, 0);
            }
            if sure {
                assert(old(dev).written() + repeated(poll, 0) =~= old(dev).written());
            }
        }
        loop
            invariant_except_break
                ok ==> dev.pending() == old(dev).pending() && dev.never_fails() && old(dev).pending().len() > 0
                    && (old(dev).pending()[0] == Some(SOH) || old(dev).pending()[0] == Some(STX)),
                sure ==> ({
                    let (h, k, q) = probe_run(dev.pending(), true, self.initial_errors as int, self.max_initial_errors as int);
                    &&& probe == (h, k + self.initial_errors as nat, q)
                    &&& dev.written() == old(dev).written() + repeated(poll, self.initial_errors as nat)
                    &&& dev.never_fails()
                    &&& dev.pending().len() <= old(dev).pending().len()
                }),
            invariant
                sure == (old(dev).never_fails() && old(outstream).accepts_all() && old(dev).pending().len() < 0x1_0000_0000),
                total == xmodem_recv_run(old(dev).pending(), checksum, self.max_errors as int, self.max_initial_errors as int),
                probe == probe_run(old(dev).pending(), true, 0, self.max_initial_errors as int),
                ok == (old(dev).never_fails() && old(outstream).accepts_all() && old(self).max_errors > 0
                    && is_xmodem_transfer(old(dev).pending(), checksum)),
                ok ==> xmodem_transfer(ps) && xmodem_stream(ps, checksum, 0) == old(dev).pending(),
                self.initial_errors <= self.max_initial_errors,
                self.same_settings(*old(self)),
                self.errors == 0,
                self.checksum_mode == checksum,
                poll == poll_byte(checksum),
                silent == (old(dev).pending().len() == 0),
                silent ==> dev.pending().len() == 0,
                silent ==> dev.written() == old(dev).written() + repeated(poll, self.initial_errors as nat),
            ensures
                !silent,
                silent == (old(dev).pending().len() == 0),
                ok == (old(dev).never_fails() && old(outstream).accepts_all() && old(self).max_errors > 0
                    && is_xmodem_transfer(old(dev).pending(), checksum)),
                ok ==> xmodem_transfer(ps) && xmodem_stream(ps, checksum, 0) == old(dev).pending(),
                ok ==> Some(first) == next_reply(old(dev).pending()) && dev.pending() == after_reply(old(dev).pending())
                    && dev.never_fails(),
                sure == (old(dev).never_fails() && old(outstream).accepts_all() && old(dev).pending().len() < 0x1_0000_0000),
                total == xmodem_recv_run(old(dev).pending(), checksum, self.max_errors as int, self.max_initial_errors as int),
                probe == probe_run(old(dev).pending(), true, 0, self.max_initial_errors as int),
                first == SOH || first == STX,
                sure ==> probe.0 == Some(first) && dev.pending() == probe.2 && dev.never_fails()
                    && dev.written() == old(dev).written() + repeated(poll, probe.1)
                    && dev.pending().len() <= old(dev).pending().len(),
                self.initial_errors <= self.max_initial_errors,
                self.same_settings(*old(self)),
                self.errors == 0,
                self.checksum_mode == checksum,
            decreases self.max_initial_errors - self.initial_errors,
        {
            match put(dev, &[poll]) {
                Ok(()) => {},
                Err(e) => return Err(e),
            }
            proof {
                if silent || sure {
                    assert(dev.written() =~= old(dev).written() + repeated(poll, (self.initial_errors + 1) as nat));
                }
            }
            let reply = match get_byte_timeout(dev) {
                Ok(v) => v,
                Err(e) => return Err(e),
            };
            match probe_step(reply, true, &mut self.initial_errors, self.max_initial_errors) {
                Probe::Start(h) => {
                    assert(!silent) by {
                        if silent {
                            assert(reply is None);
                        }
                    }
                    first = h;
                    break;
                },
                Probe::Retry => {},
                Probe::Exhausted => {
                    return Err(Error::ExhaustedRetries);
                },
            }
        }
        let mut expected: u8 = 1;
        let mut pending: Option<u8> = Some(first);
        let mut steps: u64 = 0;
        let ghost before = outstream.delivered();
        let ghost kk: nat = 0;
        assert(before == old(outstream).delivered());
        proof {
            if sure {
                let (e, w, d) = xrecv_run(probe.2, checksum, 1, 0, self.max_errors as int, probe.0);
                assert(total == (e, repeated(poll_byte(checksum), probe.1) + w, d));
                assert(old(dev).written() + (repeated(poll, probe.1) + w) =~= dev.written() + w);
                assert(old(outstream).delivered() + d =~= outstream.delivered() + d);
            }
            if ok {
                lemma_stream_step(ps, checksum, 0);
                assert(ps.subrange(0, 0) =~= Seq::<Seq<u8>>::empty());
                assert(before + concat(ps.subrange(0, 0)) =~= before);
            }
        }
        loop
            invariant
                ok == (old(dev).never_fails() && old(outstream).accepts_all() && old(self).max_errors > 0
                    && is_xmodem_transfer(old(dev).pending(), checksum)),
                ps == xmodem_payloads(old(dev).pending(), checksum),
                ok ==> {
                    &&& xmodem_transfer(ps)
                    &&& xmodem_stream(ps, checksum, 0) == old(dev).pending()
                    &&& dev.never_fails()
                    &&& outstream.accepts_all()
                    &&& self.errors == 0
                    &&& self.max_errors > 0
                    &&& kk <= ps.len()
                    &&& steps == kk
                    &&& expected == ((kk + 1) % 256) as u8
                    &&& outstream.delivered() == before + concat(ps.subrange(0, kk as int))
                    &&& pending is Some ==> kk == 0 && pending == Some(header_for(ps[0]))
                        && dev.pending() == after_reply(xmodem_stream(ps, checksum, 0))
                    &&& pending is None ==> dev.pending() == xmodem_stream(ps, checksum, kk)
                },
                within_budget(self.errors, self.max_errors),
                self.same_settings(*old(self)),
                self.checksum_mode == checksum,
                self.initial_errors <= self.max_initial_errors,
                before == old(outstream).delivered(),
                !silent,
                silent == (old(dev).pending().len() == 0),
                sure == (old(dev).never_fails() && old(outstream).accepts_all() && old(dev).pending().len() < 0x1_0000_0000),
                total == xmodem_recv_run(old(dev).pending(), checksum, self.max_errors as int, self.max_initial_errors as int),
                sure ==> ({
                    let (e, w, d) = xrecv_run(dev.pending(), checksum, expected, self.errors as int, self.max_errors as int, pending);
                    &&& total.0 == e
                    &&& old(dev).written() + total.1 == dev.written() + w
                    &&& old(outstream).delivered() + total.2 == outstream.delivered() + d
                    &&& dev.never_fails()
                    &&& outstream.accepts_all()
                    &&& steps as int <= (old(dev).pending().len() - dev.pending().len()) + self.errors + 1
                    &&& dev.pending().len() <= old(dev).pending().len()
                    &&& (pending is Some ==> pending == Some(SOH) || pending == Some(STX))
                }),
            decreases u64::MAX - steps,
        {
            let ghost cur = xrecv_run(dev.pending(), checksum, expected, self.errors as int, self.max_errors as int, pending);
            let ghost w_s = dev.written();
            let ghost d_s = outstream.delivered();
            let ghost wx = Seq::<u8>::empty();
            let ghost dx = Seq::<u8>::empty();
            if steps == u64::MAX {
                return Err(Error::ExhaustedRetries);
            }
            steps = steps + 1;
            proof {
                if ok && kk < ps.len() {
                    lemma_stream_step(ps, checksum, kk);
                }
            }
            let reply = match pending {
                Some(h) => Some(h),
                None => match get_byte_timeout(dev) {
                    Ok(v) => v,
                    Err(e) => return Err(e),
                },
            };
            pending = None;
            assert(ok ==> (kk < ps.len() && reply == Some(header_for(ps[kk as int]))
                && dev.pending() == after_reply(xmodem_stream(ps, checksum, kk)))
                || (kk == ps.len() && reply == Some(EOT)));
            match reply {
                Some(h) => {
                    if h == SOH || h == STX {
                        let size: usize = if h == SOH { 128 } else { 1024 };
                        let ghost f = frame(header_for(ps[kk as int]), ((kk + 1) % 256) as u8, ps[kk as int], checksum);
                        let ghost fs = f.subrange(1, f.len() as int);
                        let ghost rest = xmodem_stream(ps, checksum, kk + 1);
                        proof {
                            if ok {
                                assert(size == ps[kk as int].len());
                                assert(dev.pending() == as_replies(fs) + rest);
                                assert forall|i: int| 0 <= i < fs.len() implies (#[trigger] dev.pending()[i]) is Some by {
                                    assert(dev.pending()[i] == as_replies(fs)[i]);
                                }
                            }
                        }
                        let ghost at_read = dev.pending();
                        let ghost nn = size as nat + 2 + crate::exchange::check_len(checksum);
                        let body = match read_body(dev, size, checksum) {
                            Ok(b) => b,
                            Err(e) => {
                                proof {
                                    if sure {
                                        assert(!bytes_ahead(at_read, nn));
                                        assert(cur == (Ending::Broken, Seq::<u8>::empty(), Seq::<u8>::empty()));
                                        assert(dev.written() + Seq::<u8>::empty() =~= dev.written());
                                        assert(outstream.delivered() + Seq::<u8>::empty() =~= outstream.delivered());
                                    }
                                }
                                return Err(e);
                            },
                        };
                        proof {
                            if sure {
                                lemma_body_from_replies(at_read, size as nat, checksum, body);
                                assert(dev.pending() == at_read.subrange(nn as int, at_read.len() as int));
                            }
                            if ok {
                                let n = fs.len() as int;
                                assert(at_read.subrange(0, n) =~= as_replies(fs));
                                assert(at_read.subrange(n, at_read.len() as int) =~= rest);
                                lemma_as_replies_injective(crate::exchange::body_bytes(body, checksum), fs);
                                lemma_body_of_frame(header_for(ps[kk as int]), ((kk + 1) % 256) as u8, ps[kk as int], checksum, body);
                            }
                        }
                        let v = packet_verdict(expected, body.seq, body.comp, body.payload.as_slice(), checksum, body.received);
                        match v {
                            Verdict::OutOfSync => {
                                let c = cancel(dev);
                                proof {
                                    if sure {
                                        assert(cur == (Ending::Canceled, seq![CAN, CAN], Seq::<u8>::empty()));
                                        assert(outstream.delivered() + Seq::<u8>::empty() =~= outstream.delivered());
                                    }
                                }
                                return Err(c);
                            },
                            Verdict::Accept => {
                                expected = advance(expected, v);
                                match put(dev, &[ACK]) {
                                    Ok(()) => {},
                                    Err(e) => return Err(e),
                                }
                                let ghost prev = outstream.delivered();
                                match outstream.write_all(body.payload.as_slice()) {
                                    Ok(()) => {},
                                    Err(e) => return Err(Error::Io(e)),
                                }
                                proof {
                                    wx = seq![ACK];
                                    dx = body.payload@;
                                    if ok {
                                        lemma_concat_step(ps, kk as int);
                                        vstd::arithmetic::div_mod::lemma_add_mod_noop(kk as int + 1, 1, 256);
                                        kk = kk + 1;
                                    }
                                }
                            },
                            Verdict::Corrupt => {
                                match put(dev, &[NAK]) {
                                    Ok(()) => {},
                                    Err(e) => return Err(e),
                                }
                                self.errors = self.errors + 1;
                                proof {
                                    wx = seq![NAK];
                                }
                            },
                        }
                    } else if h == EOT {
                        proof {
                            if ok {
                                assert(ps.subrange(0, kk as int) =~= ps);
                            }
                        }
                        let done = put(dev, &[ACK]);
                        proof {
                            if sure {
                                assert(cur == (Ending::Done, seq![ACK], Seq::<u8>::empty()));
                                assert(outstream.delivered() + Seq::<u8>::empty() =~= outstream.delivered());
                            }
                        }
                        return done;
                    }
                },
                None => {
                    self.errors = self.errors + 1;
                },
            }
            proof {
                if sure {
                    assert(dev.written() == w_s + wx);
                    assert(outstream.delivered() == d_s + dx);
                }
            }
            if self.errors >= self.max_errors {
                proof {
                    if sure {
                        assert(cur == (Ending::Exhausted, wx, dx));
                    }
                }
                return Err(Error::ExhaustedRetries);
            }
            proof {
                if sure {
                    let nxt = xrecv_run(dev.pending(), checksum, expected, self.errors as int, self.max_errors as int, pending);
                    assert(cur == (nxt.0, wx + nxt.1, dx + nxt.2));
                    assert(old(dev).written() + total.1 =~= dev.written() + nxt.1);
                    assert(old(outstream).delivered() + total.2 =~= outstream.delivered() + nxt.2);
                }
            }
        }
    }
}

} // verus!
