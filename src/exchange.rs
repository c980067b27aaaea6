//! Waiting for replies and reading packet bodies on a channel, with the
//! failures counted against a budget.
use vstd::prelude::*;
use crate::packet::{check_value, frame, verdict, verification, wait_step, Checksum, Verdict, Wait};
use crate::xymodem_util::{after_reply, get_byte, get_byte_timeout, next_reply, Channel, Error, CAN, NAK};

verus! {

/// The counter of failures is within its budget: nothing was counted yet, or
/// fewer than `max` failures were.
pub open spec fn within_budget(errors: u32, max: u32) -> bool {
    errors == 0 || errors < max
}

/// Waits for `a` or `b` and returns the byte that came.
pub fn await_reply<D: Channel>(dev: &mut D, a: u8, b: u8, errors: &mut u32, max: u32) -> (r: Result<u8, Error>)
    requires
        within_budget(*old(errors), max),
    ensures
        r is Ok ==> within_budget(*final(errors), max),
        r is Ok ==> r->Ok_0 == a || r->Ok_0 == b,
        *final(errors) >= *old(errors),
        final(dev).never_fails() == old(dev).never_fails(),
        old(dev).never_fails() && awaited_first(old(dev).pending(), a, b) ==> {
            &&& r == Ok::<u8, Error>(next_reply(old(dev).pending())->0)
            &&& *final(errors) == *old(errors)
            &&& final(dev).written() == old(dev).written()
            &&& final(dev).pending() == after_reply(old(dev).pending())
        },
        old(dev).never_fails() ==> ({
            let (g, k, q, e) = attempts(old(dev).pending(), a, b, *old(errors) as int, max as int);
            &&& g is Some ==> r == Ok::<u8, Error>(g->0)
            &&& g is None ==> (r matches Err(Error::ExhaustedRetries))
            &&& final(dev).written() == old(dev).written()
            &&& final(dev).pending() == q
            &&& *final(errors) == e
        }),
{
    let ghost answered = old(dev).never_fails() && awaited_first(old(dev).pending(), a, b);
    let ghost whole = attempts(old(dev).pending(), a, b, *old(errors) as int, max as int);
    loop
        invariant
            whole == attempts(old(dev).pending(), a, b, *old(errors) as int, max as int),
            old(dev).never_fails() ==> dev.written() == old(dev).written() && ({
                let (g, k, q, e) = attempts(dev.pending(), a, b, *errors as int, max as int);
                &&& whole.0 == g
                &&& whole.2 == q
                &&& whole.3 == e
            }),
            within_budget(*errors, max),
            *errors >= *old(errors),
            dev.never_fails() == old(dev).never_fails(),
            answered == (old(dev).never_fails() && awaited_first(old(dev).pending(), a, b)),
            answered ==> *errors == *old(errors) && dev.pending() == old(dev).pending() && dev.written() == old(dev).written(),
        decreases max - *errors,
    {
        let reply = match get_byte_timeout(dev) {
            Ok(v) => v,
            Err(e) => return Err(e),
        };
        match wait_step(reply, a, b, errors, max) {
            Wait::Got => {
                return Ok(if reply == Some(a) { a } else { b });
            },
            Wait::Retry => {},
            Wait::Exhausted => {
                return Err(Error::ExhaustedRetries);
            },
        }
    }
}

/// Every reply in `p` is a NAK.
pub open spec fn all_naks(p: Seq<Option<u8>>) -> bool {
    forall|i: int| 0 <= i < p.len() ==> p[i] == Some(NAK)
}

/// The peer answers only NAK, enough times to use up what is left of the
/// budget, while something else is awaited.
pub open spec fn refused_throughout(p: Seq<Option<u8>>, a: u8, b: u8, errors: u32, max: u32) -> bool {
    &&& all_naks(p)
    &&& a != NAK
    &&& b != NAK
    &&& errors < max
    &&& p.len() >= max - errors
}

/// `n` copies of `p`, end to end.
pub open spec fn copies(p: Seq<u8>, n: nat) -> Seq<u8>
    decreases n,
{
    if n == 0 {
        Seq::empty()
    } else {
        copies(p, (n - 1) as nat) + p
    }
}

/// The first reply is one of the awaited bytes.
pub open spec fn awaited_first(p: Seq<Option<u8>>, a: u8, b: u8) -> bool {
    next_reply(p) == Some(a) || next_reply(p) == Some(b)
}

/// How a transfer ends.
#[derive(Copy, Clone, Debug, PartialEq, Eq, Structural)]
pub enum Ending {
    Done,
    Exhausted,
    Canceled,
    /// A packet was cut short: a read timed out inside it, an I/O error.
    Broken,
}

/// `r` is the result that ends a transfer as `e` says.
pub open spec fn ends_as(r: Result<(), Error>, e: Ending) -> bool {
    match e {
        Ending::Done => r is Ok,
        Ending::Exhausted => r matches Err(Error::ExhaustedRetries),
        Ending::Canceled => r matches Err(Error::Canceled),
        Ending::Broken => r matches Err(Error::Io(_)),
    }
}

/// What a run of attempts makes of the replies `p` when it writes a packet
/// and waits for `a` or `b` after `errors` failures: the awaited byte that
/// came (`None` when the budget ran out first), the number of attempts (each
/// writes the packet once), the replies left, and the failures counted.
pub open spec fn attempts(p: Seq<Option<u8>>, a: u8, b: u8, errors: int, max: int) -> (Option<u8>, nat, Seq<Option<u8>>, int)
    decreases p.len(), max - errors,
{
    let r = next_reply(p);
    let q = after_reply(p);
    if r == Some(a) || r == Some(b) {
        (r, 1, q, errors)
    } else if errors + 1 >= max {
        (None, 1, q, errors + 1)
    } else {
        let (g, k, q2, e2) = attempts(q, a, b, errors + 1, max);
        (g, k + 1, q2, e2)
    }
}

/// Writes `packet` until the peer answers `a` or `b`, and returns the answer.
/// Pass the same byte twice to await one byte. A peer that answers only NAK
/// makes it give up after exactly as many replies as the budget has left.
pub fn send_until<D: Channel>(dev: &mut D, packet: &[u8], a: u8, b: u8, errors: &mut u32, max: u32) -> (r: Result<u8, Error>)
    requires
        within_budget(*old(errors), max),
    ensures
        r is Ok ==> within_budget(*final(errors), max),
        r is Ok ==> r->Ok_0 == a || r->Ok_0 == b,
        *final(errors) >= *old(errors),
        old(dev).never_fails() ==> !(r matches Err(Error::Io(_))),
        final(dev).never_fails() == old(dev).never_fails(),
        refused_throughout(old(dev).pending(), a, b, *old(errors), max) && !(r matches Err(Error::Io(_))) ==> {
            &&& r matches Err(Error::ExhaustedRetries)
            &&& *final(errors) == max
            &&& final(dev).pending().len() == old(dev).pending().len() - (max - *old(errors))
            &&& final(dev).written() == old(dev).written() + copies(packet@, (max - *old(errors)) as nat)
        },
        old(dev).never_fails() && awaited_first(old(dev).pending(), a, b) ==> {
            &&& r == Ok::<u8, Error>(next_reply(old(dev).pending())->0)
            &&& *final(errors) == *old(errors)
            &&& final(dev).written() == old(dev).written() + packet@
            &&& final(dev).pending() == after_reply(old(dev).pending())
        },
        old(dev).never_fails() ==> ({
            let (g, k, q, e) = attempts(old(dev).pending(), a, b, *old(errors) as int, max as int);
            &&& g is Some ==> r == Ok::<u8, Error>(g->0)
            &&& g is None ==> (r matches Err(Error::ExhaustedRetries))
            &&& final(dev).written() == old(dev).written() + copies(packet@, k)
            &&& final(dev).pending() == q
            &&& *final(errors) == e
        }),
{
    let ghost sure = old(dev).never_fails();
    let ghost whole = attempts(old(dev).pending(), a, b, *old(errors) as int, max as int);
    let ghost doomed = refused_throughout(old(dev).pending(), a, b, *old(errors), max);
    let ghost answered = old(dev).never_fails() && awaited_first(old(dev).pending(), a, b);
    loop
        invariant
            within_budget(*errors, max),
            *errors >= *old(errors),
            dev.never_fails() == old(dev).never_fails(),
            doomed == refused_throughout(old(dev).pending(), a, b, *old(errors), max),
            doomed ==> all_naks(dev.pending()) && *errors < max
                && dev.pending().len() == old(dev).pending().len() - (*errors - *old(errors))
                && dev.written() == old(dev).written() + copies(packet@, (*errors - *old(errors)) as nat),
            answered == (old(dev).never_fails() && awaited_first(old(dev).pending(), a, b)),
            answered ==> *errors == *old(errors) && dev.pending() == old(dev).pending() && dev.written() == old(dev).written(),
            sure == old(dev).never_fails(),
            whole == attempts(old(dev).pending(), a, b, *old(errors) as int, max as int),
            sure ==> ({
                let (g, k, q, e) = attempts(dev.pending(), a, b, *errors as int, max as int);
                &&& whole == (g, k + (*errors - *old(errors)) as nat, q, e)
                &&& dev.written() == old(dev).written() + copies(packet@, (*errors - *old(errors)) as nat)
            }),
        decreases max - *errors,
    {
        let ghost w0 = dev.written();
        let ghost p_now = dev.pending();
        let ghost e_now = *errors;
        match dev.write_all(packet) {
            Ok(()) => {},
            Err(e) => return Err(Error::Io(e)),
        }
        let reply = match get_byte_timeout(dev) {
            Ok(v) => v,
            Err(e) => return Err(e),
        };
        proof {
            if doomed {
                assert(reply == Some(NAK));
                assert(dev.written() =~= old(dev).written() + copies(packet@, (*errors - *old(errors) + 1) as nat));
            }
            if sure {
                assert(dev.written() =~= old(dev).written() + copies(packet@, (*errors - *old(errors) + 1) as nat));
                assert(reply == next_reply(p_now));
                assert(dev.pending() == after_reply(p_now));
            }
        }
        match wait_step(reply, a, b, errors, max) {
            Wait::Got => {
                return Ok(if reply == Some(a) { a } else { b });
            },
            Wait::Retry => {},
            Wait::Exhausted => {
                return Err(Error::ExhaustedRetries);
            },
        }
    }
}

/// Writes `bytes` on the channel.
pub fn put<D: Channel>(dev: &mut D, bytes: &[u8]) -> (r: Result<(), Error>)
    ensures
        r is Err ==> r->Err_0 is Io,
        r is Ok ==> final(dev).written() == old(dev).written() + bytes@,
        r is Ok ==> final(dev).pending() == old(dev).pending(),
        old(dev).never_fails() ==> r is Ok,
        final(dev).never_fails() == old(dev).never_fails(),
{
    match dev.write_all(bytes) {
        Ok(()) => Ok(()),
        Err(e) => Err(Error::Io(e)),
    }
}

/// The last two bytes of `w` are CANs.
pub open spec fn ends_with_cancel(w: Seq<u8>) -> bool {
    w.len() >= 2 && w[w.len() - 2] == CAN && w[w.len() - 1] == CAN
}

/// Writes two CANs; the error that ends the transfer.
pub fn cancel<D: Channel>(dev: &mut D) -> (e: Error)
    ensures
        e is Canceled || e is Io,
        e is Canceled ==> final(dev).written() == old(dev).written() + seq![CAN, CAN],
        e is Canceled ==> ends_with_cancel(final(dev).written()),
        final(dev).never_fails() == old(dev).never_fails(),
        old(dev).never_fails() ==> e is Canceled,
{
    match put(dev, &[CAN]) {
        Ok(()) => {},
        Err(e) => return e,
    }
    match put(dev, &[CAN]) {
        Ok(()) => {},
        Err(e) => return e,
    }
    assert(dev.written() =~= old(dev).written() + seq![CAN, CAN]);
    Error::Canceled
}

/// The part of a packet that follows its header byte.
pub struct PacketBody {
    pub seq: u8,
    pub comp: u8,
    pub payload: Vec<u8>,
    pub received: u16,
}

/// The replies of a peer that sends the bytes `s`.
pub open spec fn as_replies(s: Seq<u8>) -> Seq<Option<u8>> {
    Seq::new(s.len(), |i: int| Some(s[i]))
}

/// The verification bytes that carry the value `received`.
pub open spec fn check_bytes(mode: Checksum, received: u16) -> Seq<u8> {
    match mode {
        Checksum::Standard => seq![received as u8],
        Checksum::CRC16 => seq![(received / 256) as u8, (received % 256) as u8],
    }
}

/// The number of verification bytes.
pub open spec fn check_len(mode: Checksum) -> nat {
    match mode {
        Checksum::Standard => 1,
        Checksum::CRC16 => 2,
    }
}

/// The bytes on the wire after the header byte of a packet with this body.
pub open spec fn body_bytes(b: PacketBody, mode: Checksum) -> Seq<u8> {
    seq![b.seq, b.comp] + b.payload@ + check_bytes(mode, b.received)
}

/// Reads a packet's sequence, complement, `size` payload bytes, and its
/// verification value: one byte, or two big-endian bytes for CRC-16. It takes
/// exactly those replies from the channel, and succeeds on a channel that
/// does not fail when they are all bytes.
pub fn read_body<D: Channel>(dev: &mut D, size: usize, mode: Checksum) -> (r: Result<PacketBody, Error>)
    ensures
        r is Err ==> r->Err_0 is Io,
        old(dev).never_fails() ==> final(dev).written() == old(dev).written(),
        r is Ok ==> r->Ok_0.payload@.len() == size,
        r is Ok && mode is Standard ==> r->Ok_0.received < 256,
        r is Ok ==> ({
            let n = (size + 2 + check_len(mode)) as int;
            &&& old(dev).pending().len() >= n
            &&& old(dev).pending().subrange(0, n) == as_replies(body_bytes(r->Ok_0, mode))
            &&& final(dev).pending() == old(dev).pending().subrange(n, old(dev).pending().len() as int)
            &&& final(dev).written() == old(dev).written()
        }),
        ({
            let n = (size + 2 + check_len(mode)) as int;
            &&& old(dev).never_fails()
            &&& old(dev).pending().len() >= n
            &&& forall|i: int| 0 <= i < n ==> (#[trigger] old(dev).pending()[i]) is Some
        }) ==> r is Ok,
        final(dev).never_fails() == old(dev).never_fails(),
{
    let ghost p = old(dev).pending();
    let ghost n = (size + 2 + check_len(mode)) as int;
    let ghost good = old(dev).never_fails() && p.len() >= n && forall|i: int| 0 <= i < n ==> (#[trigger] p[i]) is Some;
    let seq = match get_byte(dev) {
        Ok(b) => b,
        Err(e) => return Err(e),
    };
    assert(dev.pending() =~= p.subrange(1, p.len() as int));
    let comp = match get_byte(dev) {
        Ok(b) => b,
        Err(e) => {
            assert(good ==> p[1] is Some);
            return Err(e);
        },
    };
    assert(dev.pending() =~= p.subrange(2, p.len() as int));
    let mut payload: Vec<u8> = Vec::new();
    while payload.len() < size
        invariant
            payload@.len() <= size,
            p.len() >= 2 + payload@.len() as int,
            p.subrange(0, 2 + payload@.len() as int) == as_replies(seq![seq, comp] + payload@),
            dev.pending() == p.subrange(2 + payload@.len() as int, p.len() as int),
            dev.written() == old(dev).written(),
            dev.never_fails() == old(dev).never_fails(),
            good == (old(dev).never_fails() && p.len() >= n && forall|i: int| 0 <= i < n ==> (#[trigger] p[i]) is Some),
            n == size + 2 + check_len(mode),
            p == old(dev).pending(),
        decreases size - payload@.len(),
    {
        let ghost k: int = 2 + payload@.len() as int;
        proof {
            if good {
                assert(k < n);
                assert(p[k] is Some);
                assert(dev.pending()[0] == p[k]);
                assert(next_reply(dev.pending()) is Some);
            }
        }
        match get_byte(dev) {
            Ok(b) => {
                payload.push(b);
                assert(p.subrange(0, k + 1) =~= as_replies(seq![seq, comp] + payload@));
                assert(dev.pending() =~= p.subrange(k + 1, p.len() as int));
            },
            Err(e) => {
                assert(good ==> p[k] is Some);
                return Err(e);
            },
        }
    }
    let ghost k: int = 2 + size as int;
    let hi = match get_byte(dev) {
        Ok(b) => b,
        Err(e) => {
            assert(good ==> p[k] is Some);
            return Err(e);
        },
    };
    assert(dev.pending() =~= p.subrange(k + 1, p.len() as int));
    let received: u16 = match mode {
        Checksum::Standard => hi as u16,
        Checksum::CRC16 => {
            let lo = match get_byte(dev) {
                Ok(b) => b,
                Err(e) => {
                    assert(good ==> p[k + 1] is Some);
                    return Err(e);
                },
            };
            assert(dev.pending() =~= p.subrange(k + 2, p.len() as int));
            hi as u16 * 256 + lo as u16
        },
    };
    let r = PacketBody { seq, comp, payload, received };
    assert(p.subrange(0, n) =~= as_replies(body_bytes(r, mode)));
    Ok(r)
}

/// Equal replies come from equal bytes.
pub proof fn lemma_as_replies_injective(a: Seq<u8>, b: Seq<u8>)
    requires
        as_replies(a) == as_replies(b),
    ensures
        a == b,
{
    assert(a.len() == as_replies(a).len());
    assert forall|i: int| 0 <= i < a.len() implies a[i] == b[i] by {
        assert(as_replies(a)[i] == as_replies(b)[i]);
    }
    assert(a =~= b);
}

/// The replies `q` start with `n` bytes.
pub open spec fn bytes_ahead(q: Seq<Option<u8>>, n: nat) -> bool {
    q.len() >= n && forall|i: int| 0 <= i < n ==> (#[trigger] q[i]) is Some
}

/// The first `n` bytes of the replies `q`.
pub open spec fn take_bytes(q: Seq<Option<u8>>, n: nat) -> Seq<u8> {
    Seq::new(n, |i: int| q[i]->0)
}

/// The verification value carried by the bytes `b` of a packet body with
/// `size` payload bytes.
pub open spec fn received_of(b: Seq<u8>, size: nat, mode: Checksum) -> u16 {
    match mode {
        Checksum::Standard => b[2 + size as int] as u16,
        Checksum::CRC16 => (b[2 + size as int] as int * 256 + b[3 + size as int] as int) as u16,
    }
}

/// A body read from replies that start with its bytes is those bytes.
pub proof fn lemma_body_from_replies(q: Seq<Option<u8>>, size: nat, mode: Checksum, body: PacketBody)
    requires
        q.len() >= size + 2 + check_len(mode),
        q.subrange(0, (size + 2 + check_len(mode)) as int) == as_replies(body_bytes(body, mode)),
        body.payload@.len() == size,
        mode is Standard ==> body.received < 256,
    ensures
        ({
            let b = take_bytes(q, size + 2 + check_len(mode));
            &&& bytes_ahead(q, size + 2 + check_len(mode))
            &&& b == body_bytes(body, mode)
            &&& body.seq == b[0]
            &&& body.comp == b[1]
            &&& body.payload@ == b.subrange(2, 2 + size as int)
            &&& body.received == received_of(b, size, mode)
        }),
{
    let n = (size + 2 + check_len(mode)) as int;
    let bb = body_bytes(body, mode);
    let b = take_bytes(q, n as nat);
    assert forall|i: int| 0 <= i < n implies (#[trigger] q[i]) is Some && q[i]->0 == bb[i] by {
        assert(q[i] == q.subrange(0, n)[i]);
        assert(as_replies(bb)[i] == Some(bb[i]));
    }
    assert(b =~= bb);
    assert(body.payload@ =~= bb.subrange(2, 2 + size as int));
    match mode {
        Checksum::Standard => {},
        Checksum::CRC16 => {
            vstd::arithmetic::div_mod::lemma_fundamental_div_mod(body.received as int, 256);
        },
    }
}

/// A body read from the bytes of a frame after its header byte is the
/// frame's sequence, complement, payload and verification value, and is
/// accepted when that sequence is due.
pub proof fn lemma_body_of_frame(header: u8, seq: u8, payload: Seq<u8>, mode: Checksum, b: PacketBody)
    requires
        body_bytes(b, mode) == frame(header, seq, payload, mode).subrange(1, frame(header, seq, payload, mode).len() as int),
        b.payload@.len() == payload.len(),
        mode is Standard ==> b.received < 256,
    ensures
        b.seq == seq,
        b.comp == 255 - seq,
        b.payload@ == payload,
        verdict(seq, b.seq, b.comp, b.payload@, mode, b.received) == Verdict::Accept,
        frame(header, seq, payload, mode).len() == 3 + payload.len() + check_len(mode),
{
    let f = frame(header, seq, payload, mode);
    let bb = body_bytes(b, mode);
    let n = payload.len() as int;
    assert(bb[0] == f[1]);
    assert(bb[1] == f[2]);
    assert forall|i: int| 0 <= i < n implies b.payload@[i] == payload[i] by {
        assert(bb[2 + i] == f[3 + i]);
    }
    assert(b.payload@ =~= payload);
    match mode {
        Checksum::Standard => {
            assert(bb[2 + n] == f[3 + n]);
        },
        Checksum::CRC16 => {
            assert(bb[2 + n] == f[3 + n]);
            assert(bb[3 + n] == f[4 + n]);
            let c = check_value(mode, payload);
            vstd::arithmetic::div_mod::lemma_fundamental_div_mod(b.received as int, 256);
            vstd::arithmetic::div_mod::lemma_fundamental_div_mod(c as int, 256);
        },
    }
}

} // verus!
