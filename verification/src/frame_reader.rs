//! Per-connection frame reassembly.
//!
//! A [`FrameReader`] turns an unbounded, arbitrarily chunked byte stream
//! into a FIFO queue of fully decoded values.  Bytes are pulled into a
//! fixed arena whose size is set at construction; after every transfer the
//! decoder drains every complete value from the arena's valid prefix and
//! the undecoded tail is shifted back to the front, so the arena never
//! grows.  A value larger than the arena can never complete and the
//! connection eventually reports end of stream.

use vstd::prelude::*;

verus! {

use std::collections::VecDeque;
use vstd::slice::slice_subrange;
use crate::value::DecodeError;
use crate::value::SpecDecoded;
use crate::value::SpecValue;
use crate::value::Value;
use crate::value::lemma_decode_advances;
use crate::value::lemma_decode_encoded_at;
use crate::value::lemma_decode_prefix_incomplete;
use crate::value::lemma_round_trip;
use crate::value::lemma_views_push;
use crate::value::lemma_views_index;
use crate::value::lemma_views_len;
use crate::value::lemma_views_subrange;
use crate::value::find_lf;
use crate::value::spec_decode;
use crate::value::spec_encode;
use crate::value::spec_wf;
use crate::value::views_of;

#[verifier::external_type_specification]
#[verifier::external_body]
pub struct ExIoError(std::io::Error);

/// What one underlying transfer reported.
pub enum TransferOutcome {
    /// So many bytes were placed into the buffer.  Zero means the stream
    /// is at its end, or there was no room left to read into.
    Bytes(usize),
    /// No data is available right now; not an error.
    WouldBlock,
    /// Any other transport error.
    Fault(std::io::Error),
}

/// Why one read call failed.
#[derive(Debug)]
pub enum ReadError {
    /// The stream ended before this call transferred anything.
    Eof,
    /// The bytes on the wire are not a valid value.  Terminal: there is no
    /// way to resynchronize, the caller tears the connection down.
    Protocol(DecodeError),
    /// Any other transport error, as the stream reported it.
    Io(std::io::Error),
}

/// Relies on std::io::Read::read, called on the tail of the buffer from
/// `start` on: it reports at most the tail's length as transferred, the
/// buffer keeps its length, bytes before `start` stay untouched, and the
/// `WouldBlock` error kind is set apart from every other error.
#[verifier::external_body]
fn transfer<T: std::io::Read>(stream: &mut T, buf: &mut Vec<u8>, start: usize) -> (r:
    TransferOutcome)
    requires
        start <= old(buf)@.len(),
    ensures
        final(buf)@.len() == old(buf)@.len(),
        forall|i: int| 0 <= i < start ==> final(buf)@[i] == old(buf)@[i],
        (match r {
            TransferOutcome::Bytes(n) => n <= old(buf)@.len() - start,
            _ => true,
        }),
{
    match stream.read(&mut buf[start..]) {
        Ok(n) => TransferOutcome::Bytes(n),
        Err(e) => {
            if e.kind() == std::io::ErrorKind::WouldBlock {
                TransferOutcome::WouldBlock
            } else {
                TransferOutcome::Fault(e)
            }
        },
    }
}

/// What the pump loop does next after one transfer.
pub enum ReadStep {
    /// Bytes arrived: keep pulling, with this new running total.
    Continue(usize),
    /// Stop and report success with the total transferred by this call.
    Done(usize),
    /// Stop and report this failure.
    Failed(ReadError),
}

/// One scheduling decision of the pump loop.
///
/// A transfer of zero bytes ends the call: as an end-of-stream error when
/// nothing at all was transferred by this call, else as success with the
/// total.  A transfer that would block is success with the total so far —
/// zero included — and never an error.  Any other transport error is
/// passed through.  A positive transfer keeps the loop pulling; a total
/// that would pass the top of `usize` ends the call successfully instead
/// of wrapping.
pub fn read_step(total: usize, outcome: TransferOutcome) -> (r: ReadStep)
    ensures
        (match outcome {
            TransferOutcome::Bytes(n) => if n == 0 {
                if total == 0 {
                    r matches ReadStep::Failed(e) && e is Eof
                } else {
                    r == ReadStep::Done(total)
                }
            } else {
                if total + n <= usize::MAX {
                    r matches ReadStep::Continue(t) && t == total + n && t > total
                } else {
                    r == ReadStep::Done(usize::MAX)
                }
            },
            TransferOutcome::WouldBlock => r == ReadStep::Done(total),
            TransferOutcome::Fault(e) => r matches ReadStep::Failed(f) && f matches
                ReadError::Io(e2) && e2 == e,
        }),
{
    match outcome {
        TransferOutcome::Bytes(n) => {
            if n == 0 {
                if total == 0 {
                    ReadStep::Failed(ReadError::Eof)
                } else {
                    ReadStep::Done(total)
                }
            } else {
                match total.checked_add(n) {
                    Some(t) => ReadStep::Continue(t),
                    None => ReadStep::Done(usize::MAX),
                }
            }
        },
        TransferOutcome::WouldBlock => ReadStep::Done(total),
        TransferOutcome::Fault(e) => ReadStep::Failed(ReadError::Io(e)),
    }
}

/// One pass of the decoder over buffered bytes, starting at `off`: the
/// complete values found there in order, the position where decoding
/// stopped, and whether it stopped for want of bytes (`None`) or on a
/// syntax error (`Some`).
pub open spec fn spec_drain_from(bytes: Seq<u8>, off: int) -> (Seq<SpecValue>, int, Option<
    DecodeError,
>)
    decreases bytes.len() - off,
{
    match spec_decode(bytes, off) {
        SpecDecoded::Incomplete => (Seq::empty(), off, None),
        SpecDecoded::Invalid(e) => (Seq::empty(), off, Some(e)),
        SpecDecoded::Decoded(v, next) => if off < next <= bytes.len() {
            let (vs, end, st) = spec_drain_from(bytes, next);
            (seq![v] + vs, end, st)
        } else {
            // never reached: a decoded value advances within the bytes
            (seq![v], next, None)
        },
    }
}

/// What one decode pass leaves of a buffer: the decoded values, the
/// undecoded tail, and how the pass stopped.
pub open spec fn spec_drain(bytes: Seq<u8>) -> (Seq<SpecValue>, Seq<u8>, Option<DecodeError>) {
    let (vs, end, st) = spec_drain_from(bytes, 0);
    (vs, bytes.skip(end), st)
}

/// Two whole encoded values delivered in a single chunk yield both values,
/// in their original order, and leave nothing behind.
pub proof fn lemma_drain_two(v1: SpecValue, v2: SpecValue)
    requires
        spec_wf(v1),
        spec_wf(v2),
    ensures
        ({
            let b = spec_encode(v1) + spec_encode(v2);
            spec_drain(b).0 == seq![v1, v2] && spec_drain(b).1 == Seq::<u8>::empty()
                && spec_drain(b).2 is None
        }),
{
    let e1 = spec_encode(v1);
    let e2 = spec_encode(v2);
    let b = e1 + e2;
    let l1 = e1.len() as int;
    let l = b.len() as int;
    assert(b.subrange(0, l1) =~= e1);
    lemma_decode_encoded_at(b, 0, v1);
    assert(b.subrange(l1, l1 + e2.len() as int) =~= e2);
    lemma_decode_encoded_at(b, l1, v2);
    assert(find_lf(b, l) == l);
    assert(spec_decode(b, l) is Incomplete);
    assert(spec_drain_from(b, l) == (Seq::<SpecValue>::empty(), l, None::<DecodeError>));
    assert(seq![v2] + Seq::<SpecValue>::empty() =~= seq![v2]);
    assert(spec_drain_from(b, l1) == (seq![v2], l, None::<DecodeError>));
    assert(seq![v1] + seq![v2] =~= seq![v1, v2]);
    assert(b.skip(l) =~= Seq::<u8>::empty());
}

/// Splitting one encoded value across two arrivals: the first part, short
/// of the whole encoding, completes nothing and stays buffered in full;
/// the moment the remainder arrives, exactly the one value completes.
pub proof fn lemma_drain_split(v: SpecValue, cut: int)
    requires
        spec_wf(v),
        0 <= cut < spec_encode(v).len(),
    ensures
        ({
            let enc = spec_encode(v);
            let first = enc.take(cut);
            spec_drain(first).0 == Seq::<SpecValue>::empty() && spec_drain(first).1 == first
                && spec_drain(first).2 is None && spec_drain(first + enc.skip(cut)).0 == seq![v]
                && spec_drain(first + enc.skip(cut)).1 == Seq::<u8>::empty() && spec_drain(
                first + enc.skip(cut),
            ).2 is None
        }),
{
    let enc = spec_encode(v);
    let first = enc.take(cut);
    assert(first.subrange(0, first.len() as int) =~= enc.take(first.len() as int));
    lemma_decode_prefix_incomplete(first, 0, v);
    assert(first.skip(0) =~= first);
    let b = first + enc.skip(cut);
    assert(b =~= enc);
    lemma_round_trip(v);
    let l = enc.len() as int;
    assert(find_lf(enc, l) == l);
    assert(spec_decode(enc, l) is Incomplete);
    assert(spec_drain_from(enc, l) == (Seq::<SpecValue>::empty(), l, None::<DecodeError>));
    assert(seq![v] + Seq::<SpecValue>::empty() =~= seq![v]);
    assert(enc.skip(l) =~= Seq::<u8>::empty());
}

/// The cumulative effect of a whole read call: the chunks the stream
/// delivered, absorbed one after the other.  Each absorption decodes every
/// value that completes and keeps the undecoded tail buffered.
pub open spec fn spec_pump(buffered: Seq<u8>, frames: Seq<SpecValue>, chunks: Seq<Seq<u8>>) -> (
    Seq<SpecValue>,
    Seq<u8>,
)
    decreases chunks.len(),
{
    if chunks.len() == 0 {
        (frames, buffered)
    } else {
        let d = spec_drain(buffered + chunks[0]);
        spec_pump(d.1, frames + d.0, chunks.drop_first())
    }
}

/// Absorbing one more chunk extends the pumped state by one drain pass.
pub proof fn lemma_pump_push(
    buffered: Seq<u8>,
    frames: Seq<SpecValue>,
    chunks: Seq<Seq<u8>>,
    c: Seq<u8>,
)
    ensures
        ({
            let p = spec_pump(buffered, frames, chunks);
            let d = spec_drain(p.1 + c);
            spec_pump(buffered, frames, chunks.push(c)) == (p.0 + d.0, d.1)
        }),
    decreases chunks.len(),
{
    reveal_with_fuel(spec_pump, 3);
    if chunks.len() == 0 {
        assert(chunks.push(c)[0] == c);
        assert(chunks.push(c).drop_first() =~= Seq::<Seq<u8>>::empty());
    } else {
        assert(chunks.push(c)[0] == chunks[0]);
        assert(chunks.push(c).drop_first() =~= chunks.drop_first().push(c));
        let d0 = spec_drain(buffered + chunks[0]);
        lemma_pump_push(d0.1, frames + d0.0, chunks.drop_first(), c);
    }
}

/// True when some sequence of delivered chunks, absorbed in order from the
/// starting state, leads exactly to the final frames and buffered tail.
pub open spec fn pumped_to(
    b0: Seq<u8>,
    f0: Seq<SpecValue>,
    fr: Seq<SpecValue>,
    bu: Seq<u8>,
) -> bool {
    exists|chunks: Seq<Seq<u8>>|
        #![trigger spec_pump(b0, f0, chunks)]
        spec_pump(b0, f0, chunks) == (fr, bu)
}

/// True when some chunks absorb cleanly and one final chunk then stops the
/// decoder on exactly this syntax error, with the values decoded before
/// the fault kept.
pub open spec fn pumped_to_error(
    b0: Seq<u8>,
    f0: Seq<SpecValue>,
    fr: Seq<SpecValue>,
    bu: Seq<u8>,
    e: DecodeError,
) -> bool {
    exists|chunks: Seq<Seq<u8>>, c: Seq<u8>|
        #![trigger spec_drain(spec_pump(b0, f0, chunks).1 + c)]
        {
            let p = spec_pump(b0, f0, chunks);
            let d = spec_drain(p.1 + c);
            fr == p.0 + d.0 && bu == d.1 && d.2 == Some(e)
        }
}

/// Reassembly state: a fixed arena, the cursor delimiting its valid
/// prefix, and the queue of completed values.
struct Frames {
    max_frame_size: u32,
    bytes_read: usize,
    current: Vec<u8>,
    completed_frames: VecDeque<Value>,
}

impl Frames {
    /// The arena is exactly as large as configured and the cursor stays
    /// inside it; bytes past the cursor are never read as data.
    pub closed spec fn wf(&self) -> bool {
        self.bytes_read <= self.current@.len() && self.current@.len()
            == self.max_frame_size as int
    }

    /// The valid prefix of the arena: bytes received but not yet decoded.
    pub closed spec fn buffered(&self) -> Seq<u8> {
        self.current@.take(self.bytes_read as int)
    }

    /// The queue of completed values, in wire arrival order.
    pub closed spec fn frames(&self) -> Seq<SpecValue> {
        views_of(self.completed_frames@)
    }

    pub closed spec fn capacity(&self) -> int {
        self.max_frame_size as int
    }

    #[verifier::loop_isolation(false)]
    pub fn new(max_frame_size: u32) -> (r: Frames)
        ensures
            r.wf(),
            r.capacity() == max_frame_size as int,
            r.buffered() == Seq::<u8>::empty(),
            r.frames() == Seq::<SpecValue>::empty(),
    {
        let cap = max_frame_size as usize;
        let mut buf: Vec<u8> = Vec::new();
        while buf.len() < cap
            invariant
                buf@.len() <= cap,
            decreases cap - buf@.len(),
        {
            buf.push(0);
        }
        let r = Frames {
            max_frame_size,
            bytes_read: 0,
            current: buf,
            completed_frames: VecDeque::new(),
        };
        proof {
            assert(r.buffered() =~= Seq::<u8>::empty());
        }
        r
    }

    /// Shifts the tail of the valid prefix, from `offset` on, down to the
    /// front of the arena, reclaiming the consumed space.
    #[verifier::loop_isolation(false)]
    fn compact(&mut self, offset: usize)
        requires
            old(self).wf(),
            offset <= old(self).bytes_read,
        ensures
            final(self).wf(),
            final(self).capacity() == old(self).capacity(),
            final(self).buffered() == old(self).buffered().skip(offset as int),
            final(self).frames() == old(self).frames(),
    {
        if offset == 0 {
            proof {
                assert(self.buffered() =~= old(self).buffered().skip(0));
            }
            return;
        }
        let mut k: usize = 0;
        let mut i: usize = offset;
        while i < self.bytes_read
            invariant
                offset <= i <= self.bytes_read,
                i - offset == k,
                self.bytes_read == old(self).bytes_read,
                self.max_frame_size == old(self).max_frame_size,
                self.completed_frames == old(self).completed_frames,
                self.current@.len() == old(self).current@.len(),
                forall|j: int| 0 <= j < k ==> #[trigger] self.current@[j] == old(
                    self,
                ).current@[offset + j],
                forall|j: int| i <= j < self.current@.len() ==> #[trigger] self.current@[j]
                    == old(self).current@[j],
            decreases self.bytes_read - i,
        {
            let b = self.current[i];
            self.current[k] = b;
            i += 1;
            k += 1;
        }
        self.bytes_read = k;
        proof {
            assert(self.buffered() =~= old(self).buffered().skip(offset as int));
        }
    }

    /// Decodes every complete value in the valid prefix, appends each to
    /// the queue in order, stops at the first incomplete one, and shifts
    /// the consumed bytes out of the arena.  A syntax error is returned
    /// after the values before it were queued and the consumed prefix
    /// dropped; the caller tears the connection down.
    #[verifier::loop_isolation(false)]
    fn decode_frames(&mut self) -> (r: Result<(), DecodeError>)
        requires
            old(self).wf(),
        ensures
            final(self).wf(),
            final(self).capacity() == old(self).capacity(),
            final(self).frames() == old(self).frames() + spec_drain(old(self).buffered()).0,
            final(self).buffered() == spec_drain(old(self).buffered()).1,
            (match r {
                Ok(_) => spec_drain(old(self).buffered()).2 is None,
                Err(e) => spec_drain(old(self).buffered()).2 == Some(e),
            }),
    {
        let ghost buf0 = old(self).buffered();
        let ghost mut collected: Seq<SpecValue> = Seq::empty();
        let mut offset: usize = 0;
        proof {
            assert(collected + spec_drain_from(buf0, 0).0 =~= spec_drain_from(buf0, 0).0);
        }
        loop
            invariant
                self.wf(),
                offset <= self.bytes_read,
                self.bytes_read == old(self).bytes_read,
                self.max_frame_size == old(self).max_frame_size,
                self.current == old(self).current,
                views_of(self.completed_frames@) == views_of(old(self).completed_frames@)
                    + collected,
                spec_drain_from(buf0, 0).0 == collected + spec_drain_from(buf0, offset as int).0,
                spec_drain_from(buf0, 0).1 == spec_drain_from(buf0, offset as int).1,
                spec_drain_from(buf0, 0).2 == spec_drain_from(buf0, offset as int).2,
            decreases self.bytes_read - offset,
        {
            let valid: &[u8] = slice_subrange(self.current.as_slice(), 0, self.bytes_read);
            proof {
                assert(valid@ =~= buf0);
                lemma_decode_advances(buf0, offset as int);
            }
            match Value::decode(valid, offset) {
                Err(e) => {
                    proof {
                        assert(collected + Seq::<SpecValue>::empty() =~= collected);
                    }
                    self.compact(offset);
                    return Err(e);
                },
                Ok((val, next)) => {
                    if next == 0 {
                        break;
                    }
                    proof {
                        let dv = val.deep_view();
                        lemma_views_push(self.completed_frames@, val);
                        let stepped = spec_drain_from(buf0, next as int);
                        assert((views_of(old(self).completed_frames@) + collected).push(dv)
                            =~= views_of(old(self).completed_frames@) + collected.push(dv));
                        assert(collected + (seq![dv] + stepped.0) =~= collected.push(dv)
                            + stepped.0);
                        collected = collected.push(dv);
                    }
                    self.completed_frames.push_back(val);
                    offset = next;
                },
            }
        }
        self.compact(offset);
        proof {
            assert(collected + Seq::<SpecValue>::empty() =~= collected);
        }
        Ok(())
    }

    /// One pull from the stream into the arena's free tail and, when bytes
    /// could have arrived, one decode pass over the valid prefix.  Whatever
    /// chunk the stream delivered, the queue grows by exactly the values
    /// that complete once it is appended to the buffered bytes, and the
    /// undecoded tail stays buffered.
    fn do_read<T: std::io::Read>(&mut self, reader: &mut T) -> (r: Result<
        TransferOutcome,
        DecodeError,
    >)
        requires
            old(self).wf(),
        ensures
            final(self).wf(),
            final(self).capacity() == old(self).capacity(),
            (match r {
                Ok(TransferOutcome::Bytes(n)) => exists|chunk: Seq<u8>|
                    #![trigger spec_drain(old(self).buffered() + chunk)]
                    {
                        let grown = old(self).buffered() + chunk;
                        chunk.len() == n && n <= old(self).capacity() - old(
                            self,
                        ).buffered().len() && final(self).frames() == old(self).frames()
                            + spec_drain(grown).0 && final(self).buffered() == spec_drain(
                            grown,
                        ).1 && spec_drain(grown).2 is None
                    },
                Ok(_) => final(self).frames() == old(self).frames() && final(self).buffered()
                    == old(self).buffered(),
                Err(e) => exists|chunk: Seq<u8>|
                    #![trigger spec_drain(old(self).buffered() + chunk)]
                    {
                        let grown = old(self).buffered() + chunk;
                        chunk.len() <= old(self).capacity() - old(self).buffered().len()
                            && final(self).frames() == old(self).frames() + spec_drain(grown).0
                            && final(self).buffered() == spec_drain(grown).1 && spec_drain(
                            grown,
                        ).2 == Some(e)
                    },
            }),
    {
        let ghost buf0 = old(self).buffered();
        let outcome = transfer(reader, &mut self.current, self.bytes_read);
        match outcome {
            TransferOutcome::Bytes(n) => {
                let ghost b0 = self.bytes_read as int;
                self.bytes_read = self.bytes_read + n;
                let ghost chunk = self.current@.subrange(b0, b0 + n);
                proof {
                    assert(self.buffered() =~= buf0 + chunk);
                }
                match self.decode_frames() {
                    Ok(_) => {
                        proof {
                            assert(spec_drain(buf0 + chunk).2 is None);
                        }
                        Ok(TransferOutcome::Bytes(n))
                    },
                    Err(e) => {
                        proof {
                            assert(spec_drain(buf0 + chunk).2 == Some(e));
                        }
                        Err(e)
                    },
                }
            },
            other => {
                proof {
                    assert(self.buffered() =~= buf0);
                }
                Ok(other)
            },
        }
    }

    /// Pulls from the stream until it blocks, ends, errors, or fails to
    /// make progress, decoding completed values after every transfer: one
    /// [`read_step`] decision per transfer.  The end state is exactly what
    /// absorbing the delivered chunks, in order, leaves: every value that
    /// completed is queued, in arrival order, and the undecoded tail stays
    /// buffered.  On a protocol error the values decoded before the fault
    /// are kept and the call reports the fault.
    #[verifier::loop_isolation(false)]
    pub fn read<T: std::io::Read>(&mut self, reader: &mut T) -> (r: Result<usize, ReadError>)
        requires
            old(self).wf(),
        ensures
            final(self).wf(),
            final(self).capacity() == old(self).capacity(),
            final(self).frames().len() >= old(self).frames().len(),
            forall|i: int| 0 <= i < old(self).frames().len() ==> final(self).frames()[i] == old(
                self,
            ).frames()[i],
            (match r {
                Err(ReadError::Protocol(pe)) => pumped_to_error(
                    old(self).buffered(),
                    old(self).frames(),
                    final(self).frames(),
                    final(self).buffered(),
                    pe,
                ),
                _ => pumped_to(
                    old(self).buffered(),
                    old(self).frames(),
                    final(self).frames(),
                    final(self).buffered(),
                ),
            }),
    {
        let ghost buf0 = old(self).buffered();
        let ghost frames0 = old(self).frames();
        let ghost mut chunks: Seq<Seq<u8>> = Seq::empty();
        let mut total: usize = 0;
        loop
            invariant
                self.wf(),
                self.capacity() == old(self).capacity(),
                self.frames().len() >= old(self).frames().len(),
                forall|i: int| 0 <= i < old(self).frames().len() ==> self.frames()[i] == old(
                    self,
                ).frames()[i],
                self.frames() == spec_pump(buf0, frames0, chunks).0,
                self.buffered() == spec_pump(buf0, frames0, chunks).1,
            decreases usize::MAX - total,
        {
            let ghost prev = *self;
            match self.do_read(reader) {
                Err(e) => {
                    proof {
                        let c = choose|c: Seq<u8>|
                            #![trigger spec_drain(prev.buffered() + c)]
                            {
                                let grown = prev.buffered() + c;
                                c.len() <= prev.capacity() - prev.buffered().len()
                                    && self.frames() == prev.frames() + spec_drain(grown).0
                                    && self.buffered() == spec_drain(grown).1 && spec_drain(
                                    grown,
                                ).2 == Some(e)
                            };
                        let p = spec_pump(buf0, frames0, chunks);
                        assert(p.0 == prev.frames() && p.1 == prev.buffered());
                        assert(pumped_to_error(
                            buf0,
                            frames0,
                            self.frames(),
                            self.buffered(),
                            e,
                        )) by {
                            assert(spec_drain(p.1 + c).2 == Some(e));
                            assert(self.frames() == p.0 + spec_drain(p.1 + c).0);
                            assert(self.buffered() == spec_drain(p.1 + c).1);
                        }
                    }
                    return Err(ReadError::Protocol(e));
                },
                Ok(outcome) => {
                    proof {
                        if let TransferOutcome::Bytes(n) = outcome {
                            let c = choose|c: Seq<u8>|
                                #![trigger spec_drain(prev.buffered() + c)]
                                {
                                    let grown = prev.buffered() + c;
                                    c.len() == n && self.frames() == prev.frames() + spec_drain(
                                        grown,
                                    ).0 && self.buffered() == spec_drain(grown).1 && spec_drain(
                                        grown,
                                    ).2 is None
                                };
                            lemma_pump_push(buf0, frames0, chunks, c);
                            chunks = chunks.push(c);
                        }
                    }
                    proof {
                        assert(pumped_to(buf0, frames0, self.frames(), self.buffered())) by {
                            assert(spec_pump(buf0, frames0, chunks) == (
                                self.frames(),
                                self.buffered(),
                            ));
                        }
                    }
                    match read_step(total, outcome) {
                        ReadStep::Continue(t) => {
                            total = t;
                        },
                        ReadStep::Done(t) => {
                            return Ok(t);
                        },
                        ReadStep::Failed(e) => {
                            return Err(e);
                        },
                    }
                },
            }
        }
    }
}

impl Frames {
    /// FIFO removal of one completed value; independent of reading and
    /// never triggers any transfer.
    fn pop(&mut self) -> (r: Option<Value>)
        ensures
            final(self).wf() == old(self).wf(),
            final(self).capacity() == old(self).capacity(),
            final(self).buffered() == old(self).buffered(),
            (match r {
                Some(v) => old(self).frames().len() > 0 && v.deep_view() == old(
                    self,
                ).frames()[0] && final(self).frames() == old(self).frames().skip(1),
                None => old(self).frames().len() == 0 && final(self).frames() == old(
                    self,
                ).frames(),
            }),
    {
        let r = self.completed_frames.pop_front();
        proof {
            lemma_views_len(old(self).completed_frames@);
            if old(self).completed_frames@.len() > 0 {
                lemma_views_index(old(self).completed_frames@, 0);
                lemma_views_subrange(
                    old(self).completed_frames@,
                    1,
                    old(self).completed_frames@.len() as int,
                );
                assert(views_of(old(self).completed_frames@).subrange(
                    1,
                    views_of(old(self).completed_frames@).len() as int,
                ) =~= views_of(old(self).completed_frames@).skip(1));
            }
        }
        r
    }
}

/// The per-connection reader: turns arbitrarily chunked reads into a FIFO
/// queue of fully decoded values, consumed through [`FrameReader::iter_mut`].
pub struct FrameReader {
    frames: Frames,
}

impl FrameReader {
    /// The arena is exactly as large as configured and the cursor stays
    /// inside it.
    pub closed spec fn wf(&self) -> bool {
        self.frames.wf()
    }

    /// Bytes received but not yet decoded.
    pub closed spec fn buffered(&self) -> Seq<u8> {
        self.frames.buffered()
    }

    /// The completed values awaiting consumption, in wire arrival order.
    pub closed spec fn frames(&self) -> Seq<SpecValue> {
        self.frames.frames()
    }

    pub closed spec fn capacity(&self) -> int {
        self.frames.capacity()
    }

    /// A reader over a fresh arena of `max_frame_size` bytes, with nothing
    /// buffered and nothing queued.
    pub fn new(max_frame_size: u32) -> (r: FrameReader)
        ensures
            r.wf(),
            r.capacity() == max_frame_size as int,
            r.buffered() == Seq::<u8>::empty(),
            r.frames() == Seq::<SpecValue>::empty(),
    {
        FrameReader { frames: Frames::new(max_frame_size) }
    }

    /// Pulls as much data as the stream will give, decoding completed
    /// values into the queue after every transfer: see [`read_step`] for
    /// when the call stops and what it reports.  The end state is exactly
    /// what absorbing the delivered chunks, in order, leaves: every value
    /// that completed is queued, in arrival order, the undecoded tail
    /// stays buffered, and on a protocol error the values decoded before
    /// the fault are kept.
    pub fn read<T: std::io::Read>(&mut self, reader: &mut T) -> (r: Result<usize, ReadError>)
        requires
            old(self).wf(),
        ensures
            final(self).wf(),
            final(self).capacity() == old(self).capacity(),
            final(self).frames().len() >= old(self).frames().len(),
            forall|i: int| 0 <= i < old(self).frames().len() ==> final(self).frames()[i] == old(
                self,
            ).frames()[i],
            (match r {
                Err(ReadError::Protocol(pe)) => pumped_to_error(
                    old(self).buffered(),
                    old(self).frames(),
                    final(self).frames(),
                    final(self).buffered(),
                    pe,
                ),
                _ => pumped_to(
                    old(self).buffered(),
                    old(self).frames(),
                    final(self).frames(),
                    final(self).buffered(),
                ),
            }),
    {
        self.frames.read(reader)
    }

    /// FIFO removal of one completed value: the oldest, or nothing when
    /// the queue is empty.  Independent of reading: it never touches the
    /// stream or the arena.
    pub fn next_frame(&mut self) -> (r: Option<Value>)
        ensures
            final(self).wf() == old(self).wf(),
            final(self).capacity() == old(self).capacity(),
            final(self).buffered() == old(self).buffered(),
            (match r {
                Some(v) => old(self).frames().len() > 0 && v.deep_view() == old(
                    self,
                ).frames()[0] && final(self).frames() == old(self).frames().skip(1),
                None => old(self).frames().len() == 0 && final(self).frames() == old(
                    self,
                ).frames(),
            }),
    {
        self.frames.pop()
    }

    /// A consuming pass over the completed values: each `next` removes and
    /// returns the oldest one.
    pub fn iter_mut(&mut self) -> (it: Iter<'_>)
        ensures
            it.remaining() == old(self).frames(),
    {
        Iter { frames: &mut self.frames }
    }
}

/// A consuming pass over a reader's completed values.
pub struct Iter<'a> {
    frames: &'a mut Frames,
}

impl<'a> Iter<'a> {
    /// The completed values this pass has not yet yielded, oldest first.
    pub closed spec fn remaining(&self) -> Seq<SpecValue> {
        self.frames.frames()
    }

    /// FIFO removal of one completed value: the oldest, or nothing when
    /// the queue is empty.  Never triggers any reading.
    pub fn next(&mut self) -> (r: Option<Value>)
        ensures
            (match r {
                Some(v) => old(self).remaining().len() > 0 && v.deep_view() == old(
                    self,
                ).remaining()[0] && final(self).remaining() == old(self).remaining().skip(1),
                None => old(self).remaining().len() == 0 && final(self).remaining() == old(
                    self,
                ).remaining(),
            }),
    {
        self.frames.pop()
    }
}

} // verus!
