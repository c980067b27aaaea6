//! Checksums, the error type, and the byte-level channel abstraction.
use vstd::prelude::*;

verus! {

pub const SOH: u8 = 0x01;
pub const STX: u8 = 0x02;
pub const EOT: u8 = 0x04;
pub const ACK: u8 = 0x06;
pub const NAK: u8 = 0x15;
pub const CAN: u8 = 0x18;
pub const CRC: u8 = 0x43;

/// Eight-bit wrapping sum of the bytes, starting at zero.
pub open spec fn additive(s: Seq<u8>) -> u8
    decreases s.len(),
{
    if s.len() == 0 {
        0
    } else {
        ((additive(s.drop_last()) + s.last()) % 256) as u8
    }
}

/// The XMODEM CRC-16 (polynomial 0x1021, initial value 0, no reflection,
/// no final xor) of the bytes.
pub uninterp spec fn crc16_xmodem(s: Seq<u8>) -> u16;

/// One-byte additive checksum of `data`.
pub fn calc_checksum(data: &[u8]) -> (r: u8)
    ensures
        r == additive(data@),
{
    let mut sum: u8 = 0;
    let mut i: usize = 0;
    while i < data.len()
        invariant
            i <= data@.len(),
            sum == additive(data@.subrange(0, i as int)),
        decreases data@.len() - i,
    {
        proof {
            let next = data@.subrange(0, i + 1);
            assert(next.drop_last() =~= data@.subrange(0, i as int));
        }
        sum = ((sum as u16 + data[i] as u16) % 256) as u8;
        i = i + 1;
    }
    proof {
        assert(data@.subrange(0, i as int) =~= data@);
    }
    sum
}

/// Relies on crc16::State::<crc16::XMODEM>::calculate, which computes the
/// XMODEM CRC-16 of the message and nothing else.
#[verifier::external_body]
pub fn calc_crc(data: &[u8]) -> (r: u16)
    ensures
        r == crc16_xmodem(data@),
{
    crc16::State::<crc16::XMODEM>::calculate(data)
}

/// The additive checksum of a concatenation is the wrapping sum of the
/// checksums of its parts, and the checksum of no bytes is zero.
#[verifier::spinoff_prover]
#[verifier::rlimit(30)]
pub proof fn lemma_additive_concat(a: Seq<u8>, b: Seq<u8>)
    ensures
        additive(a + b) == (additive(a) + additive(b)) % 256,
        additive(Seq::<u8>::empty()) == 0,
    decreases b.len(),
{
    if b.len() == 0 {
        assert(a + b =~= a);
    } else {
        let b0 = b.drop_last();
        lemma_additive_concat(a, b0);
        assert((a + b).drop_last() =~= a + b0);
        assert((a + b).last() == b.last());
        let x = additive(a) as int;
        let y = additive(b0) as int;
        let z = b.last() as int;
        // additive(a + b) == ((x + y) % 256 + z) % 256, additive(b) == (y + z) % 256
        vstd::arithmetic::div_mod::lemma_add_mod_noop(x + y, z, 256);
        vstd::arithmetic::div_mod::lemma_add_mod_noop(x, y + z, 256);
        assert(z % 256 == z);
        assert(x % 256 == x);
        assert(((x + y) % 256 + z) % 256 == (x + y + z) % 256);
        assert((x + (y + z) % 256) % 256 == (x + y + z) % 256);
    }
}

#[verifier::external_type_specification]
#[verifier::external_body]
pub struct ExIoError(std::io::Error);

/// What can end a transfer.
#[derive(Debug)]
pub enum Error {
    /// The channel, the source or the sink failed.
    Io(std::io::Error),
    /// The number of communication errors exceeded its cap in a single transfer.
    ExhaustedRetries,
    /// The transfer was canceled, by the peer or because of a protocol inconsistency.
    Canceled,
}

impl Error {
    /// A short description of the error.
    pub fn describe(&self) -> (r: String)
        ensures
            self is ExhaustedRetries ==> r@ == "Transfer retries exhausted"@,
            self is Canceled ==> r@ == "Transfer canceled"@,
    {
        match self {
            Error::Io(_) => String::from_str("I/O error"),
            Error::ExhaustedRetries => String::from_str("Transfer retries exhausted"),
            Error::Canceled => String::from_str("Transfer canceled"),
        }
    }
}

/// The reply that the next read takes from `pending`; once the replies run
/// out, every read times out.
pub open spec fn next_reply(pending: Seq<Option<u8>>) -> Option<u8> {
    if pending.len() == 0 {
        None
    } else {
        pending[0]
    }
}

/// The replies left after one read.
pub open spec fn after_reply(pending: Seq<Option<u8>>) -> Seq<Option<u8>> {
    if pending.len() == 0 {
        pending
    } else {
        pending.drop_first()
    }
}

/// A full-duplex byte channel, such as a serial line, whose read timeout the
/// caller has set. Its model is what was written to it, and the replies that
/// its reads will take, in order (`None` is a read that times out).
///
/// The model functions have defaults so that plain Rust code can implement
/// the trait over a device; such an implementation is not checked against
/// the contracts below, and what the engines state of the model holds for
/// the implementations that are (such as [`ScriptedChannel`]).
pub trait Channel {
    /// The bytes written so far.
    closed spec fn written(&self) -> Seq<u8> {
        Seq::empty()
    }

    /// The replies still to come.
    closed spec fn pending(&self) -> Seq<Option<u8>> {
        Seq::empty()
    }

    /// Whether every read and write succeeds (a read may still time out).
    closed spec fn never_fails(&self) -> bool {
        false
    }

    /// Transmits all of `bytes`, or fails.
    fn write_all(&mut self, bytes: &[u8]) -> (r: Result<(), std::io::Error>)
        ensures
            r is Ok ==> final(self).written() == old(self).written() + bytes@,
            r is Ok ==> final(self).pending() == old(self).pending(),
            old(self).never_fails() ==> r is Ok,
            final(self).never_fails() == old(self).never_fails(),
    ;

    /// Reads one byte; `Ok(None)` when the read timeout elapsed first.
    fn read_byte(&mut self) -> (r: Result<Option<u8>, std::io::Error>)
        ensures
            r is Ok ==> r->Ok_0 == next_reply(old(self).pending()),
            r is Ok ==> final(self).pending() == after_reply(old(self).pending()),
            r is Ok ==> final(self).written() == old(self).written(),
            old(self).never_fails() ==> r is Ok,
            final(self).never_fails() == old(self).never_fails(),
    ;
}

/// A channel that answers from a fixed list of replies and records what is
/// written to it; once the replies run out, every read times out.
pub struct ScriptedChannel {
    replies: Vec<Option<u8>>,
    next: usize,
    out: Vec<u8>,
}

impl ScriptedChannel {
    pub closed spec fn wf(&self) -> bool {
        self.next <= self.replies@.len()
    }

    /// A channel that will answer with `replies`.
    pub fn new(replies: Vec<Option<u8>>) -> (r: ScriptedChannel)
        ensures
            r.pending() == replies@,
            r.written() == Seq::<u8>::empty(),
            r.never_fails(),
    {
        let r = ScriptedChannel { replies, next: 0, out: Vec::new() };
        proof {
            assert(r.replies@.subrange(0, r.replies@.len() as int) =~= r.replies@);
        }
        r
    }

    /// The bytes written so far.
    pub fn output(&self) -> (r: &Vec<u8>)
        ensures
            r@ == self.written(),
    {
        &self.out
    }

    /// The number of replies not yet read.
    pub fn unread(&self) -> (r: usize)
        ensures
            r == self.pending().len(),
    {
        if self.next <= self.replies.len() {
            self.replies.len() - self.next
        } else {
            0
        }
    }
}

impl Channel for ScriptedChannel {
    closed spec fn written(&self) -> Seq<u8> {
        self.out@
    }

    closed spec fn never_fails(&self) -> bool {
        true
    }

    closed spec fn pending(&self) -> Seq<Option<u8>> {
        if self.next <= self.replies@.len() {
            self.replies@.subrange(self.next as int, self.replies@.len() as int)
        } else {
            Seq::empty()
        }
    }

    fn write_all(&mut self, bytes: &[u8]) -> (r: Result<(), std::io::Error>) {
        self.out.extend_from_slice(bytes);
        Ok(())
    }

    fn read_byte(&mut self) -> (r: Result<Option<u8>, std::io::Error>) {
        if self.next < self.replies.len() {
            let b = self.replies[self.next];
            self.next = self.next + 1;
            proof {
                assert(self.pending() =~= after_reply(old(self).pending()));
            }
            Ok(b)
        } else {
            Ok(None)
        }
    }
}

/// Reads one byte, where a timeout counts as a soft failure (`Ok(None)`).
pub fn get_byte_timeout<D: Channel>(dev: &mut D) -> (r: Result<Option<u8>, Error>)
    ensures
        r is Err ==> r->Err_0 is Io,
        r is Ok ==> r->Ok_0 == next_reply(old(dev).pending()),
        r is Ok ==> final(dev).pending() == after_reply(old(dev).pending()),
        r is Ok ==> final(dev).written() == old(dev).written(),
        old(dev).never_fails() ==> r is Ok,
        final(dev).never_fails() == old(dev).never_fails(),
{
    match dev.read_byte() {
        Ok(b) => Ok(b),
        Err(e) => Err(Error::Io(e)),
    }
}

/// Relies on std::io::Error::from(ErrorKind::TimedOut), which builds an error
/// of the timed-out kind.
#[verifier::external_body]
fn timed_out() -> std::io::Error {
    std::io::Error::from(std::io::ErrorKind::TimedOut)
}

/// Reads one byte, where a timeout is an I/O error.
pub fn get_byte<D: Channel>(dev: &mut D) -> (r: Result<u8, Error>)
    ensures
        r is Err ==> r->Err_0 is Io,
        r is Ok ==> Some(r->Ok_0) == next_reply(old(dev).pending()),
        r is Ok ==> final(dev).pending() == after_reply(old(dev).pending()),
        r is Ok ==> final(dev).written() == old(dev).written(),
        old(dev).never_fails() && next_reply(old(dev).pending()) is Some ==> r is Ok,
        final(dev).never_fails() == old(dev).never_fails(),
        old(dev).never_fails() ==> final(dev).written() == old(dev).written(),
{
    match dev.read_byte() {
        Ok(Some(b)) => Ok(b),
        Ok(None) => Err(Error::Io(timed_out())),
        Err(e) => Err(Error::Io(e)),
    }
}

/// Where a sender takes the file's bytes from. As with [`Channel`], the
/// model has a default for implementations written in plain Rust.
pub trait Source {
    /// The bytes not yet read.
    closed spec fn remaining(&self) -> Seq<u8> {
        Seq::empty()
    }

    /// Whether every read succeeds and takes as much as it may.
    closed spec fn reads_fully(&self) -> bool {
        false
    }

    /// Reads at most `max` bytes from the front of what remains; an empty
    /// chunk marks the end of the data.
    fn read_chunk(&mut self, max: usize) -> (r: Result<Vec<u8>, std::io::Error>)
        ensures
            old(self).reads_fully() ==> r is Ok && r->Ok_0@.len() == if old(self).remaining().len() < max {
                old(self).remaining().len() as int
            } else {
                max as int
            },
            final(self).reads_fully() == old(self).reads_fully(),
            r is Ok ==> r->Ok_0@.len() <= max,
            r is Ok ==> r->Ok_0@ + final(self).remaining() == old(self).remaining(),
            r is Ok && max > 0 ==> (r->Ok_0@.len() == 0 <==> old(self).remaining().len() == 0),
    ;
}

/// Where a receiver delivers the file's bytes.
pub trait Sink {
    /// The bytes delivered so far.
    spec fn delivered(&self) -> Seq<u8>;

    /// Whether every write succeeds.
    closed spec fn accepts_all(&self) -> bool {
        false
    }

    /// Takes all of `bytes`, or fails.
    fn write_all(&mut self, bytes: &[u8]) -> (r: Result<(), std::io::Error>)
        ensures
            r is Ok ==> final(self).delivered() == old(self).delivered() + bytes@,
            old(self).accepts_all() ==> r is Ok,
            final(self).accepts_all() == old(self).accepts_all(),
    ;
}

/// A source that hands out the bytes of a buffer in order.
pub struct MemorySource {
    data: Vec<u8>,
    pos: usize,
}

impl MemorySource {
    pub closed spec fn wf(&self) -> bool {
        self.pos <= self.data@.len()
    }

    /// A source holding `data`.
    pub fn new(data: Vec<u8>) -> (r: MemorySource)
        ensures
            r.wf(),
            r.remaining() == data@,
            r.reads_fully(),
    {
        let r = MemorySource { data, pos: 0 };
        proof {
            assert(r.data@.subrange(0, r.data@.len() as int) =~= r.data@);
        }
        r
    }

    /// Hands out the next `max` bytes, or what is left if that is less.
    pub fn take(&mut self, max: usize) -> (r: Vec<u8>)
        requires
            old(self).wf(),
        ensures
            final(self).wf(),
            r@.len() <= max,
            r@ + final(self).remaining() == old(self).remaining(),
            r@.len() == if old(self).remaining().len() < max { old(self).remaining().len() as int } else { max as int },
    {
        let mut r: Vec<u8> = Vec::new();
        let start = self.pos;
        while r.len() < max && self.pos < self.data.len()
            invariant
                start <= self.pos <= self.data@.len(),
                start == old(self).pos,
                self.data@ == old(self).data@,
                r@ == self.data@.subrange(start as int, self.pos as int),
                r@.len() <= max,
            decreases self.data@.len() - self.pos,
        {
            r.push(self.data[self.pos]);
            self.pos = self.pos + 1;
            proof {
                assert(r@ =~= self.data@.subrange(start as int, self.pos as int));
            }
        }
        proof {
            assert(r@ + self.remaining() =~= self.data@.subrange(start as int, self.data@.len() as int));
        }
        r
    }
}

impl Source for MemorySource {
    closed spec fn reads_fully(&self) -> bool {
        true
    }

    closed spec fn remaining(&self) -> Seq<u8> {
        if self.pos <= self.data@.len() {
            self.data@.subrange(self.pos as int, self.data@.len() as int)
        } else {
            Seq::empty()
        }
    }

    fn read_chunk(&mut self, max: usize) -> (r: Result<Vec<u8>, std::io::Error>) {
        if self.pos <= self.data.len() {
            Ok(self.take(max))
        } else {
            Ok(Vec::new())
        }
    }
}

impl Sink for Vec<u8> {
    open spec fn delivered(&self) -> Seq<u8> {
        self@
    }

    open spec fn accepts_all(&self) -> bool {
        true
    }

    fn write_all(&mut self, bytes: &[u8]) -> (r: Result<(), std::io::Error>) {
        self.extend_from_slice(bytes);
        Ok(())
    }
}

} // verus!
