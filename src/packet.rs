//! Packet framing and verification shared by the XMODEM and YMODEM engines,
//! and the decisions each engine takes on a received reply or packet.
use vstd::prelude::*;
use crate::xymodem_util::{after_reply, next_reply, additive, crc16_xmodem, calc_checksum, calc_crc, CAN, CRC, NAK, SOH, STX};

verus! {

/// How a packet's payload is verified.
#[derive(Copy, Clone, Debug, PartialEq, Eq, Structural)]
pub enum Checksum {
    /// One-byte additive checksum.
    Standard,
    /// Two-byte CRC-16, big-endian.
    CRC16,
}

/// The verification bytes that follow a payload on the wire.
pub open spec fn verification(mode: Checksum, payload: Seq<u8>) -> Seq<u8> {
    match mode {
        Checksum::Standard => seq![additive(payload)],
        Checksum::CRC16 => seq![(crc16_xmodem(payload) / 256) as u8, (crc16_xmodem(payload) % 256) as u8],
    }
}

/// The verification value a receiver compares against: the checksum, or the CRC.
pub open spec fn check_value(mode: Checksum, payload: Seq<u8>) -> u16 {
    match mode {
        Checksum::Standard => additive(payload) as u16,
        Checksum::CRC16 => crc16_xmodem(payload),
    }
}

/// `data` right-padded with `pad` up to `len` bytes.
pub open spec fn padded(data: Seq<u8>, pad: u8, len: nat) -> Seq<u8> {
    data + Seq::new((len - data.len()) as nat, |i: int| pad)
}

/// A whole packet: header, sequence, complement, payload and verification.
pub open spec fn frame(header: u8, seq: u8, payload: Seq<u8>, mode: Checksum) -> Seq<u8> {
    seq![header, seq, (255 - seq) as u8] + payload + verification(mode, payload)
}

/// Builds the packet carrying `data`, padded with `pad` to `len` bytes.
pub fn build_packet(header: u8, seq: u8, data: &[u8], pad: u8, len: usize, mode: Checksum) -> (r: Vec<u8>)
    requires
        data@.len() <= len,
        len <= 1024,
    ensures
        r@ == frame(header, seq, padded(data@, pad, len as nat), mode),
{
    let mut payload: Vec<u8> = Vec::new();
    let mut i: usize = 0;
    while i < len
        invariant
            i <= len,
            len <= 1024,
            data@.len() <= len,
            payload@ == padded(data@, pad, len as nat).subrange(0, i as int),
        decreases len - i,
    {
        let b = if i < data.len() { data[i] } else { pad };
        payload.push(b);
        i = i + 1;
        proof {
            assert(payload@ =~= padded(data@, pad, len as nat).subrange(0, i as int));
        }
    }
    proof {
        assert(payload@ =~= padded(data@, pad, len as nat));
    }
    let mut r: Vec<u8> = Vec::new();
    r.push(header);
    r.push(seq);
    r.push(255 - seq);
    let mut j: usize = 0;
    while j < len
        invariant
            j <= len,
            payload@.len() == len,
            r@ == seq![header, seq, (255 - seq) as u8] + payload@.subrange(0, j as int),
        decreases len - j,
    {
        r.push(payload[j]);
        j = j + 1;
        proof {
            assert(r@ =~= seq![header, seq, (255 - seq) as u8] + payload@.subrange(0, j as int));
        }
    }
    proof {
        assert(payload@.subrange(0, len as int) =~= payload@);
    }
    match mode {
        Checksum::Standard => {
            r.push(calc_checksum(payload.as_slice()));
        },
        Checksum::CRC16 => {
            let crc = calc_crc(payload.as_slice());
            r.push((crc / 256) as u8);
            r.push((crc % 256) as u8);
        },
    }
    proof {
        assert(r@ =~= frame(header, seq, padded(data@, pad, len as nat), mode));
    }
    r
}

/// What a receiver makes of a packet.
#[derive(Copy, Clone, Debug, PartialEq, Eq, Structural)]
pub enum Verdict {
    /// In sequence and verified: acknowledge and keep the payload.
    Accept,
    /// In sequence but the verification failed: ask for it again.
    Corrupt,
    /// Wrong sequence number, or a complement that does not match it: cancel.
    OutOfSync,
}

/// The verdict on a packet with sequence `seq`, complement `comp`, the given
/// payload and received verification value, when `expected` is due.
/// The sequence is checked before the verification.
pub open spec fn verdict(expected: u8, seq: u8, comp: u8, payload: Seq<u8>, mode: Checksum, received: u16) -> Verdict {
    if seq != expected || comp != 255 - seq {
        Verdict::OutOfSync
    } else if received == check_value(mode, payload) {
        Verdict::Accept
    } else {
        Verdict::Corrupt
    }
}

/// Judges a packet from its sequence, its complement, the verification value
/// computed over its payload, and the one received with it.
pub fn judge(expected: u8, seq: u8, comp: u8, computed: u16, received: u16) -> (r: Verdict)
    ensures
        r == (if seq != expected || comp != 255 - seq {
            Verdict::OutOfSync
        } else if received == computed {
            Verdict::Accept
        } else {
            Verdict::Corrupt
        }),
        r is Accept ==> seq as int + comp as int == 255,
        r is Accept ==> seq == expected,
{
    if seq != expected || comp != 255 - seq {
        Verdict::OutOfSync
    } else if received == computed {
        Verdict::Accept
    } else {
        Verdict::Corrupt
    }
}

/// Judges a received packet.
pub fn packet_verdict(expected: u8, seq: u8, comp: u8, payload: &[u8], mode: Checksum, received: u16) -> (r: Verdict)
    ensures
        r == verdict(expected, seq, comp, payload@, mode, received),
        r is Accept ==> seq as int + comp as int == 255,
        r is Accept ==> seq == expected,
{
    let computed: u16 = match mode {
        Checksum::Standard => calc_checksum(payload) as u16,
        Checksum::CRC16 => calc_crc(payload),
    };
    judge(expected, seq, comp, computed, received)
}

/// The sequence number due after a packet with verdict `v`.
pub open spec fn next_expected(expected: u8, v: Verdict) -> u8 {
    if v is Accept {
        ((expected + 1) % 256) as u8
    } else {
        expected
    }
}

/// Advances the expected sequence number past an accepted packet, and
/// leaves it where it is otherwise.
pub fn advance(expected: u8, v: Verdict) -> (r: u8)
    ensures
        r == next_expected(expected, v),
        v is Accept ==> r as int == (expected as int + 1) % 256,
        !(v is Accept) ==> r == expected,
{
    if v == Verdict::Accept {
        expected.wrapping_add(1)
    } else {
        expected
    }
}

/// A packet that was framed for sequence `seq` and arrives unchanged is
/// accepted by a receiver that expects `seq`, with its payload intact.
pub proof fn lemma_frame_accepted(header: u8, seq: u8, payload: Seq<u8>, mode: Checksum)
    ensures
        ({
            let f = frame(header, seq, payload, mode);
            let received = match mode {
                Checksum::Standard => f[3 + payload.len() as int] as u16,
                Checksum::CRC16 => (f[3 + payload.len() as int] as u16 * 256 + f[4 + payload.len() as int] as u16) as u16,
            };
            &&& f[1] == seq
            &&& f.subrange(3, 3 + payload.len() as int) == payload
            &&& verdict(seq, f[1], f[2], f.subrange(3, 3 + payload.len() as int), mode, received) == Verdict::Accept
        }),
{
    let f = frame(header, seq, payload, mode);
    assert(f.subrange(3, 3 + payload.len() as int) =~= payload);
}

/// A packet built from a chunk of the source and received unchanged by a
/// receiver that expects its sequence number is accepted, and the payload it
/// delivers is the chunk followed by pad bytes only.
pub proof fn lemma_packet_round_trip(header: u8, seq: u8, data: Seq<u8>, pad: u8, len: nat, mode: Checksum)
    requires
        data.len() <= len,
    ensures
        ({
            let payload = padded(data, pad, len);
            let f = frame(header, seq, payload, mode);
            let received = match mode {
                Checksum::Standard => f[3 + len as int] as u16,
                Checksum::CRC16 => (f[3 + len as int] as u16 * 256 + f[4 + len as int] as u16) as u16,
            };
            let delivered = f.subrange(3, 3 + len as int);
            &&& verdict(seq, f[1], f[2], delivered, mode, received) == Verdict::Accept
            &&& delivered.len() == len
            &&& delivered.subrange(0, data.len() as int) == data
            &&& forall|i: int| data.len() <= i < len ==> delivered[i] == pad
        }),
{
    let payload = padded(data, pad, len);
    lemma_frame_accepted(header, seq, payload, mode);
    let f = frame(header, seq, payload, mode);
    assert(f.subrange(3, 3 + len as int).subrange(0, data.len() as int) =~= data);
}

/// Outcome of one wait for a reply.
#[derive(Copy, Clone, Debug, PartialEq, Eq, Structural)]
pub enum Wait {
    /// One of the awaited bytes arrived.
    Got,
    /// Something else arrived, or nothing: the failure was counted, wait again.
    Retry,
    /// The failure used up the error budget.
    Exhausted,
}

/// Whether `reply` is one of the awaited bytes `a` and `b`.
pub open spec fn awaited(reply: Option<u8>, a: u8, b: u8) -> bool {
    reply == Some(a) || reply == Some(b)
}

/// The outcome of a wait for `a` or `b` that received `reply` after `errors`
/// failures, when `max` failures exhaust the budget.
pub open spec fn wait_outcome(reply: Option<u8>, a: u8, b: u8, errors: int, max: int) -> Wait {
    if awaited(reply, a, b) {
        Wait::Got
    } else if errors + 1 >= max {
        Wait::Exhausted
    } else {
        Wait::Retry
    }
}

/// Takes one reply while waiting for `a` or `b` (pass the same byte twice to
/// await one byte); any other reply or a timeout counts one failure.
pub fn wait_step(reply: Option<u8>, a: u8, b: u8, errors: &mut u32, max: u32) -> (r: Wait)
    requires
        *old(errors) < u32::MAX,
    ensures
        r == wait_outcome(reply, a, b, *old(errors) as int, max as int),
        r is Got ==> *final(errors) == *old(errors),
        !(r is Got) ==> *final(errors) == *old(errors) + 1,
{
    let got = match reply {
        Some(c) => c == a || c == b,
        None => false,
    };
    if got {
        Wait::Got
    } else {
        *errors = *errors + 1;
        if *errors >= max {
            Wait::Exhausted
        } else {
            Wait::Retry
        }
    }
}

/// Outcome of one step of a sender's handshake.
#[derive(Copy, Clone, Debug, PartialEq, Eq, Structural)]
pub enum Handshake {
    /// The receiver asked for the transfer in this checksum mode.
    Ready(Checksum),
    /// Not yet: the failure was counted, wait again.
    Wait,
    /// The second CAN arrived.
    Canceled,
    /// The failure used up the error budget.
    Exhausted,
}

/// The outcome of a handshake step on `reply`, after `cancels` CANs and
/// `errors` failures. NAK asks for the additive checksum unless `crc_only`;
/// C asks for CRC-16.
pub open spec fn handshake_outcome(reply: Option<u8>, crc_only: bool, cancels: int, errors: int, max: int) -> Handshake {
    if reply == Some(CRC) {
        Handshake::Ready(Checksum::CRC16)
    } else if reply == Some(NAK) && !crc_only {
        Handshake::Ready(Checksum::Standard)
    } else if reply == Some(CAN) && cancels + 1 >= 2 {
        Handshake::Canceled
    } else if errors + 1 >= max {
        Handshake::Exhausted
    } else {
        Handshake::Wait
    }
}

/// How a sender's handshake ends on the replies `p`, after `cancels` CANs
/// and `errors` failures: its outcome (never `Wait`), the replies left, and
/// the failures counted.
pub open spec fn handshake_run(p: Seq<Option<u8>>, crc_only: bool, cancels: int, errors: int, max: int) -> (Handshake, Seq<Option<u8>>, int)
    decreases p.len(), max - errors,
{
    let r = next_reply(p);
    let q = after_reply(p);
    let h = handshake_outcome(r, crc_only, cancels, errors, max);
    if h is Wait {
        handshake_run(q, crc_only, if r == Some(CAN) { cancels + 1 } else { cancels }, errors + 1, max)
    } else if h is Ready {
        (h, q, errors)
    } else {
        (h, q, errors + 1)
    }
}

/// A handshake run ends: it is never left waiting.
pub proof fn lemma_handshake_run_ends(p: Seq<Option<u8>>, crc_only: bool, cancels: int, errors: int, max: int)
    ensures
        !(handshake_run(p, crc_only, cancels, errors, max).0 is Wait),
    decreases p.len(), max - errors,
{
    let r = next_reply(p);
    let h = handshake_outcome(r, crc_only, cancels, errors, max);
    if h is Wait {
        lemma_handshake_run_ends(after_reply(p), crc_only, if r == Some(CAN) { cancels + 1 } else { cancels }, errors + 1, max);
    }
}

/// Takes one reply while a sender waits for the receiver's poll byte.
pub fn handshake_step(reply: Option<u8>, crc_only: bool, cancels: &mut u32, errors: &mut u32, max: u32) -> (r: Handshake)
    requires
        *old(errors) < u32::MAX,
        *old(cancels) < 2,
    ensures
        r == handshake_outcome(reply, crc_only, *old(cancels) as int, *old(errors) as int, max as int),
        r is Ready ==> *final(errors) == *old(errors) && *final(cancels) == *old(cancels),
        !(r is Ready) ==> *final(errors) == *old(errors) + 1,
        *final(cancels) == if !(r is Ready) && reply == Some(CAN) { *old(cancels) + 1 } else { *old(cancels) as int },
{
    if reply == Some(CRC) {
        return Handshake::Ready(Checksum::CRC16);
    }
    if reply == Some(NAK) && !crc_only {
        return Handshake::Ready(Checksum::Standard);
    }
    *errors = *errors + 1;
    if reply == Some(CAN) {
        *cancels = *cancels + 1;
        if *cancels >= 2 {
            return Handshake::Canceled;
        }
    }
    if *errors >= max {
        Handshake::Exhausted
    } else {
        Handshake::Wait
    }
}

/// Outcome of one step of a receiver's probe for the first packet.
#[derive(Copy, Clone, Debug, PartialEq, Eq, Structural)]
pub enum Probe {
    /// A packet header arrived.
    Start(u8),
    /// Not yet: the failure was counted, poll again.
    Retry,
    /// The failures exceeded the initial budget.
    Exhausted,
}

/// The outcome of a probe step on `reply` after `initial` failures; STX
/// starts a transfer only when `allow_stx`.
pub open spec fn probe_outcome(reply: Option<u8>, allow_stx: bool, initial: int, max: int) -> Probe {
    if reply == Some(SOH) {
        Probe::Start(SOH)
    } else if reply == Some(STX) && allow_stx {
        Probe::Start(STX)
    } else if initial + 1 > max {
        Probe::Exhausted
    } else {
        Probe::Retry
    }
}

/// How a receiver's probe goes on the replies `p` after `initial` failures:
/// the packet header that started the transfer (`None` when the budget ran
/// out), the number of polls written, and the replies left.
pub open spec fn probe_run(p: Seq<Option<u8>>, allow_stx: bool, initial: int, max: int) -> (Option<u8>, nat, Seq<Option<u8>>)
    decreases p.len(), max - initial,
{
    let r = next_reply(p);
    let q = after_reply(p);
    match probe_outcome(r, allow_stx, initial, max) {
        Probe::Start(h) => (Some(h), 1, q),
        Probe::Exhausted => (None, 1, q),
        Probe::Retry => {
            let (h, k, q2) = probe_run(q, allow_stx, initial + 1, max);
            (h, k + 1, q2)
        },
    }
}

/// Takes one reply to a receiver's poll; anything but a packet header, or a
/// timeout, counts one failure against the initial budget `max`.
pub fn probe_step(reply: Option<u8>, allow_stx: bool, initial: &mut u32, max: u32) -> (r: Probe)
    requires
        *old(initial) <= max,
    ensures
        r == probe_outcome(reply, allow_stx, *old(initial) as int, max as int),
        r is Retry ==> *final(initial) == *old(initial) + 1,
        !(r is Retry) ==> *final(initial) == *old(initial),
        *final(initial) <= max,
{
    if reply == Some(SOH) {
        Probe::Start(SOH)
    } else if reply == Some(STX) && allow_stx {
        Probe::Start(STX)
    } else if *initial >= max {
        Probe::Exhausted
    } else {
        *initial = *initial + 1;
        Probe::Retry
    }
}

} // verus!
