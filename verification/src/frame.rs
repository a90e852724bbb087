//! Length-prefixed framing: four bytes of length, most significant first, then
//! the payload. And the delays of a listener that has to bind again.
use vstd::prelude::*;

verus! {

/// The longest payload a reader accepts: 16 MiB.
pub const MAX_MESSAGE_SIZE: usize = 16777216;

/// How many messages wait for a node at most.
pub const LISTENER_CHANNEL_CAPACITY: usize = 1024;

/// The delay before the first attempt to bind again, in milliseconds.
pub const INITIAL_REBIND_DELAY_MS: u64 = 100;

/// The longest delay before an attempt to bind again, in milliseconds.
pub const MAX_REBIND_DELAY_MS: u64 = 5000;

/// A number of 32 bits as four bytes, most significant first.
pub open spec fn be_bytes(n: int) -> Seq<u8> {
    seq![
        (n / 16777216 % 256) as u8,
        (n / 65536 % 256) as u8,
        (n / 256 % 256) as u8,
        (n % 256) as u8,
    ]
}

/// The number that four bytes stand for, most significant first.
pub open spec fn be_value(bytes: Seq<u8>) -> int {
    bytes[0] * 16777216 + bytes[1] * 65536 + bytes[2] * 256 + bytes[3]
}

/// A payload as it is written: its length, then the payload.
pub open spec fn framed(payload: Seq<u8>) -> Seq<u8> {
    be_bytes(payload.len() as int) + payload
}

/// Several payloads, written one after the other.
pub open spec fn stream_of(payloads: Seq<Seq<u8>>) -> Seq<u8>
    decreases payloads.len(),
{
    if payloads.len() == 0 {
        Seq::empty()
    } else {
        framed(payloads[0]) + stream_of(payloads.drop_first())
    }
}

/// What a reader makes of a stream of bytes.
#[verifier::ext_equal]
pub struct Cut {
    /// The payloads that are complete.
    pub payloads: Seq<Seq<u8>>,
    /// The bytes of a frame that is not.
    pub rest: Seq<u8>,
    /// Whether a length was too large; nothing behind it is read.
    pub broken: bool,
}

/// Cuts a stream of bytes into payloads.
pub open spec fn cut(stream: Seq<u8>) -> Cut
    decreases stream.len(),
{
    if stream.len() < 4 {
        Cut { payloads: Seq::empty(), rest: stream, broken: false }
    } else {
        let len = be_value(stream);
        if len > MAX_MESSAGE_SIZE {
            Cut { payloads: Seq::empty(), rest: Seq::empty(), broken: true }
        } else if stream.len() < 4 + len {
            Cut { payloads: Seq::empty(), rest: stream, broken: false }
        } else {
            let after = cut(stream.skip(4 + len));
            Cut { payloads: seq![stream.subrange(4, 4 + len)] + after.payloads, ..after }
        }
    }
}

proof fn lemma_be_value(n: int)
    requires
        0 <= n < 4294967296,
    ensures
        be_value(be_bytes(n)) == n,
{
    assert(n == n / 16777216 * 16777216 + n / 65536 % 256 * 65536 + n / 256 % 256 * 256 + n % 256
        && n / 16777216 < 256) by (nonlinear_arith)
        requires
            0 <= n < 4294967296,
    ;
}

/// The length goes before a payload with its most significant byte first: the four
/// bytes make up every length that fits in them.
pub proof fn lengths_are_written_in_order(n: int)
    requires
        0 <= n < 4294967296,
    ensures
        be_bytes(n).len() == 4,
        n == be_bytes(n)[0] * 16777216 + be_bytes(n)[1] * 65536 + be_bytes(n)[2] * 256
            + be_bytes(n)[3],
{
    lemma_be_value(n);
}

/// What is written is read back: a stream of frames, each of a size that readers
/// accept, is cut into the payloads it was made of.
pub proof fn frames_are_read_back(payloads: Seq<Seq<u8>>)
    requires
        forall|i: int| 0 <= i < payloads.len() ==> (#[trigger] payloads[i]).len() <= MAX_MESSAGE_SIZE,
    ensures
        cut(stream_of(payloads)) == (Cut { payloads, rest: Seq::empty(), broken: false }),
    decreases payloads.len(),
{
    let stream = stream_of(payloads);
    if payloads.len() > 0 {
        let first = payloads[0];
        let more = payloads.drop_first();
        assert forall|i: int| 0 <= i < more.len() implies (#[trigger] more[i]).len()
            <= MAX_MESSAGE_SIZE by {
            assert(more[i] == payloads[i + 1]);
        }
        frames_are_read_back(more);
        lemma_be_value(first.len() as int);
        assert(be_value(stream) == be_value(be_bytes(first.len() as int)));
        assert(stream.subrange(4, 4 + first.len() as int) =~= first);
        assert(stream.skip(4 + first.len() as int) =~= stream_of(more));
        assert(seq![first] + more =~= payloads);
    } else {
        assert(payloads =~= Seq::empty());
    }
}

/// How a stream is split over reads does not matter: reading a part, and then
/// what is left of it together with the next part, gives the payloads of both
/// parts read at once. Behind a length that is too large nothing is read.
pub proof fn reads_may_be_split(a: Seq<u8>, b: Seq<u8>)
    ensures
        cut(a).broken ==> cut(a + b) == cut(a),
        !cut(a).broken ==> cut(a + b) == (Cut {
            payloads: cut(a).payloads + cut(cut(a).rest + b).payloads,
            ..cut(cut(a).rest + b)
        }),
    decreases a.len(),
{
    if a.len() >= 4 {
        let len = be_value(a);
        assert(be_value(a + b) == len);
        if len <= MAX_MESSAGE_SIZE && a.len() >= 4 + len {
            assert((a + b).skip(4 + len) =~= a.skip(4 + len) + b);
            assert((a + b).subrange(4, 4 + len) =~= a.subrange(4, 4 + len));
            reads_may_be_split(a.skip(4 + len), b);
            if !cut(a).broken {
                let first = seq![a.subrange(4, 4 + len)];
                let inner = cut(a.skip(4 + len));
                let last = cut(inner.rest + b);
                assert((first + inner.payloads) + last.payloads =~= first + (inner.payloads
                    + last.payloads));
                assert(cut(a + b) =~= (Cut { payloads: cut(a).payloads + last.payloads, ..last }));
            }
        } else if !cut(a).broken {
            assert(cut(a).payloads + cut(a + b).payloads =~= cut(a + b).payloads);
            assert(cut(a + b) =~= (Cut {
                payloads: cut(a).payloads + cut(cut(a).rest + b).payloads,
                ..cut(cut(a).rest + b)
            }));
        }
    } else {
        assert(cut(a).payloads + cut(a + b).payloads =~= cut(a + b).payloads);
        assert(cut(a + b) =~= (Cut {
            payloads: cut(a).payloads + cut(cut(a).rest + b).payloads,
            ..cut(cut(a).rest + b)
        }));
    }
}

/// A frame is handed out once it is complete, and not before: behind whole frames,
/// what is there of another one is kept, whatever part of it is missing.
pub proof fn parts_of_frames_are_kept(payloads: Seq<Seq<u8>>, payload: Seq<u8>, count: int)
    requires
        forall|i: int|
            0 <= i < payloads.len() ==> (#[trigger] payloads[i]).len() <= MAX_MESSAGE_SIZE,
        payload.len() <= MAX_MESSAGE_SIZE,
        0 <= count < 4 + payload.len(),
    ensures
        cut(stream_of(payloads) + framed(payload).take(count)) == (Cut {
            payloads,
            rest: framed(payload).take(count),
            broken: false,
        }),
{
    frames_are_read_back(payloads);
    let part = framed(payload).take(count);
    reads_may_be_split(stream_of(payloads), part);
    assert(Seq::<u8>::empty() + part =~= part);
    lemma_be_value(payload.len() as int);
    if count >= 4 {
        assert(be_value(part) == be_value(be_bytes(payload.len() as int)));
    }
    assert(cut(part) == (Cut { payloads: Seq::empty(), rest: part, broken: false }));
    assert(payloads + Seq::<Seq<u8>>::empty() =~= payloads);
}

/// A length above the longest payload ends the reading, whatever follows it; the
/// frames before it are handed out.
pub proof fn lengths_too_large_end_the_reading(
    payloads: Seq<Seq<u8>>,
    len: int,
    rest: Seq<u8>,
)
    requires
        forall|i: int|
            0 <= i < payloads.len() ==> (#[trigger] payloads[i]).len() <= MAX_MESSAGE_SIZE,
        MAX_MESSAGE_SIZE < len < 4294967296,
    ensures
        cut(stream_of(payloads) + (be_bytes(len) + rest)) == (Cut {
            payloads,
            rest: Seq::empty(),
            broken: true,
        }),
{
    frames_are_read_back(payloads);
    let more = be_bytes(len) + rest;
    reads_may_be_split(stream_of(payloads), more);
    assert(Seq::<u8>::empty() + more =~= more);
    lemma_be_value(len);
    assert(be_value(more) == be_value(be_bytes(len)));
    assert(payloads + Seq::<Seq<u8>>::empty() =~= payloads);
}

/// The four bytes that go before a payload of `len` bytes. Of a length that does
/// not fit in them, the lower 32 bits are written.
pub fn length_prefix(len: usize) -> (prefix: Vec<u8>)
    ensures
        prefix@ == be_bytes(len as int),
        len < 4294967296 ==> be_value(prefix@) == len,
{
    let n: u64 = len as u64;
    let mut prefix: Vec<u8> = Vec::new();
    prefix.push((n / 16777216 % 256) as u8);
    prefix.push((n / 65536 % 256) as u8);
    prefix.push((n / 256 % 256) as u8);
    prefix.push((n % 256) as u8);
    assert(prefix@ =~= be_bytes(len as int));
    proof {
        if len < 4294967296 {
            lemma_be_value(len as int);
        }
    }
    prefix
}

/// A payload as it is written.
pub fn encode_frame(payload: &Vec<u8>) -> (frame: Vec<u8>)
    ensures
        frame@ == framed(payload@),
{
    let mut frame: Vec<u8> = length_prefix(payload.len());
    let mut i: usize = 0;
    while i < payload.len()
        invariant
            i <= payload.len(),
            frame@ == be_bytes(payload.len() as int) + payload@.take(i as int),
        decreases payload.len() - i,
    {
        frame.push(payload[i]);
        assert(payload@.take(i + 1) =~= payload@.take(i as int).push(payload[i as int]));
        i += 1;
    }
    assert(payload@.take(i as int) =~= payload@);
    frame
}

/// Reads frames from a connection, in whatever portions its bytes arrive.
pub struct FrameReader {
    /// The bytes of the frame that is not complete yet.
    pub pending: Vec<u8>,
    /// Whether a length was too large: the connection is of no more use.
    pub broken: bool,
}

impl FrameReader {
    /// A reader at the start of a connection.
    pub fn new() -> (reader: Self)
        ensures
            reader.pending@ == Seq::<u8>::empty(),
            !reader.broken,
    {
        FrameReader { pending: Vec::new(), broken: false }
    }

    /// Takes in bytes, and returns the payloads that are complete with them.
    /// Once a length was too large, nothing more is read.
    pub fn feed(&mut self, bytes: &[u8]) -> (payloads: Vec<Vec<u8>>)
        ensures
            old(self).broken ==> payloads.len() == 0 && *final(self) == *old(self),
            !old(self).broken ==> ({
                let read = cut(old(self).pending@ + bytes@);
                &&& payloads@.map_values(|p: Vec<u8>| p@) == read.payloads
                &&& final(self).pending@ == read.rest
                &&& final(self).broken == read.broken
            }),
    {
        let mut payloads: Vec<Vec<u8>> = Vec::new();
        if self.broken {
            return payloads;
        }
        let mut stream: Vec<u8> = Vec::new();
        std::mem::swap(&mut stream, &mut self.pending);
        let ghost before = stream@;
        let mut i: usize = 0;
        while i < bytes.len()
            invariant
                i <= bytes.len(),
                stream@ == before + bytes@.take(i as int),
            decreases bytes.len() - i,
        {
            stream.push(bytes[i]);
            assert(bytes@.take(i + 1) =~= bytes@.take(i as int).push(bytes[i as int]));
            i += 1;
        }
        assert(bytes@.take(i as int) =~= bytes@);
        let ghost whole = stream@;
        let mut at: usize = 0;
        assert(whole.skip(0) =~= whole);
        assert(payloads@.map_values(|p: Vec<u8>| p@) =~= Seq::empty());
        assert(Seq::<Seq<u8>>::empty() + cut(whole).payloads =~= cut(whole).payloads);
        while stream.len() - at >= 4
            invariant
                at <= stream.len(),
                stream@ == whole,
                whole == old(self).pending@ + bytes@,
                !old(self).broken,
                !self.broken,
                self.pending@ == Seq::<u8>::empty(),
                ({
                    let left = cut(whole.skip(at as int));
                    cut(whole) == (Cut {
                        payloads: payloads@.map_values(|p: Vec<u8>| p@) + left.payloads,
                        ..left
                    })
                }),
            ensures
                stream@ == whole,
                at <= stream.len(),
                !self.broken,
                cut(whole) == (Cut {
                    payloads: payloads@.map_values(|p: Vec<u8>| p@),
                    rest: whole.skip(at as int),
                    broken: false,
                }),
            decreases stream.len() - at,
        {
            let len: u64 = stream[at] as u64 * 16777216 + stream[at + 1] as u64 * 65536 + stream[at
                + 2] as u64 * 256 + stream[at + 3] as u64;
            let ghost here = whole.skip(at as int);
            let ghost had = payloads@.map_values(|p: Vec<u8>| p@);
            assert(len == be_value(here));
            if len > MAX_MESSAGE_SIZE as u64 {
                self.broken = true;
                assert(had + cut(here).payloads =~= had);
                return payloads;
            }
            let size: usize = len as usize;
            if stream.len() - at - 4 < size {
                assert(had + cut(here).payloads =~= had);
                break;
            }
            let payload: Vec<u8> = part(&stream, at + 4, size);
            assert(payload@ =~= here.subrange(4, 4 + size as int));
            payloads.push(payload);
            at = at + 4 + size;
            proof {
                assert(here.skip(4 + size as int) =~= whole.skip(at as int));
                assert(payloads@.map_values(|p: Vec<u8>| p@) =~= had.push(payload@));
                let left = cut(whole.skip(at as int));
                assert(had.push(payload@) + left.payloads =~= had + (seq![payload@]
                    + left.payloads));
            }
        }
        self.pending = part(&stream, at, stream.len() - at);
        assert(self.pending@ =~= whole.skip(at as int));
        payloads
    }
}

/// The `count` bytes of a list from `start` on.
fn part(bytes: &Vec<u8>, start: usize, count: usize) -> (part: Vec<u8>)
    requires
        start + count <= bytes.len(),
    ensures
        part@ == bytes@.subrange(start as int, start + count),
{
    let mut part: Vec<u8> = Vec::new();
    let mut i: usize = 0;
    while i < count
        invariant
            i <= count,
            start + count <= bytes.len(),
            part@ == bytes@.subrange(start as int, start + i),
        decreases count - i,
    {
        part.push(bytes[start + i]);
        assert(bytes@.subrange(start as int, start + i + 1) =~= bytes@.subrange(
            start as int,
            start + i,
        ).push(bytes[start + i]));
        i += 1;
    }
    part
}

/// The delay before the attempt to bind after `failures` that failed, without
/// its jitter: 100 ms, doubled with each failure, up to 5 s.
pub open spec fn rebind_delay(failures: nat) -> u64
    decreases failures,
{
    if failures == 0 {
        INITIAL_REBIND_DELAY_MS
    } else {
        next_delay(rebind_delay((failures - 1) as nat))
    }
}

/// Twice a delay, up to the longest one.
pub open spec fn next_delay(delay_ms: u64) -> u64 {
    if delay_ms * 2 < MAX_REBIND_DELAY_MS {
        (delay_ms * 2) as u64
    } else {
        MAX_REBIND_DELAY_MS
    }
}

/// The delay after an attempt to bind failed that came `delay_ms` after the one
/// before it.
pub fn next_rebind_delay(delay_ms: u64) -> (next: u64)
    requires
        delay_ms * 2 <= u64::MAX,
    ensures
        next == next_delay(delay_ms),
        next <= delay_ms * 2,
        next <= MAX_REBIND_DELAY_MS,
        next == delay_ms * 2 || next == MAX_REBIND_DELAY_MS,
{
    let doubled: u64 = delay_ms * 2;
    if doubled < MAX_REBIND_DELAY_MS {
        doubled
    } else {
        MAX_REBIND_DELAY_MS
    }
}

/// A listener is never long without an attempt to bind: every delay lies between
/// the initial and the longest one, and none is shorter than the one before it.
pub proof fn rebind_delays_grow_to_a_limit(failures: nat)
    ensures
        INITIAL_REBIND_DELAY_MS <= rebind_delay(failures) <= MAX_REBIND_DELAY_MS,
        rebind_delay(failures) <= rebind_delay(failures + 1) <= 2 * rebind_delay(failures),
        rebind_delay(0) == INITIAL_REBIND_DELAY_MS,
        rebind_delay(failures + 1) == 2 * rebind_delay(failures) || rebind_delay(failures + 1)
            == MAX_REBIND_DELAY_MS,
        failures >= 6 ==> rebind_delay(failures) == MAX_REBIND_DELAY_MS,
    decreases failures,
{
    reveal_with_fuel(rebind_delay, 8);
    if failures > 0 {
        rebind_delays_grow_to_a_limit((failures - 1) as nat);
    }
}

} // verus!
