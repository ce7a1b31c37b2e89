//! Per-connection outbound byte queue.
//!
//! A [`FrameWriter`] keeps the bytes owed to a peer and drains them
//! opportunistically through a non-blocking stream: whatever the stream
//! does not accept right now stays queued, in order, behind a write
//! offset, and a later call — with or without new data — picks up where
//! the last one stopped.

use vstd::prelude::*;

verus! {

use crate::value::push_bytes;

/// What one underlying write reported.
enum SendOutcome {
    /// So many bytes were accepted by the stream.  Zero means it can
    /// accept nothing more right now.
    Sent(usize),
    /// The write would block; not an error.
    WouldBlock,
    /// Any other transport error.
    Fault(std::io::Error),
}

/// Relies on std::io::Write::write, called on the tail of `buf` from
/// `start` on: it reports at most the tail's length as accepted, and the
/// `WouldBlock` error kind is set apart from every other error.
#[verifier::external_body]
fn send<T: std::io::Write>(stream: &mut T, buf: &Vec<u8>, start: usize) -> (r: SendOutcome)
    requires
        start <= buf@.len(),
    ensures
        (match r {
            SendOutcome::Sent(n) => n <= buf@.len() - start,
            _ => true,
        }),
{
    match stream.write(&buf[start..]) {
        Ok(n) => SendOutcome::Sent(n),
        Err(e) => {
            if e.kind() == std::io::ErrorKind::WouldBlock {
                SendOutcome::WouldBlock
            } else {
                SendOutcome::Fault(e)
            }
        },
    }
}

/// The per-connection outbound queue: bytes accepted for transmission but
/// not yet written, behind the offset of the first unwritten byte.
pub struct FrameWriter {
    pending: Vec<u8>,
    start: usize,
}

impl FrameWriter {
    /// The write offset never passes the end of the queue.
    pub closed spec fn wf(&self) -> bool {
        self.start <= self.pending@.len()
    }

    /// The bytes still owed to the peer, oldest first.
    pub closed spec fn backlog(&self) -> Seq<u8> {
        self.pending@.skip(self.start as int)
    }

    /// A writer that owes nothing.
    pub fn new() -> (r: FrameWriter)
        ensures
            r.wf(),
            r.backlog() == Seq::<u8>::empty(),
    {
        let r = FrameWriter { pending: Vec::new(), start: 0 };
        proof {
            assert(r.backlog() =~= Seq::<u8>::empty());
        }
        r
    }

    /// Appends bytes to the tail of the queue without touching any stream.
    pub fn enqueue(&mut self, data: &Vec<u8>)
        requires
            old(self).wf(),
        ensures
            final(self).wf(),
            final(self).backlog() == old(self).backlog() + data@,
    {
        push_bytes(&mut self.pending, data.as_slice());
        proof {
            assert((old(self).pending@ + data@).skip(self.start as int) =~= old(
                self,
            ).backlog() + data@);
        }
    }

    /// Appends any supplied data to the queue, then writes as much of the
    /// queue as the stream accepts, in order, remembering the unwritten
    /// remainder.  A stream that would block — or accepts nothing — ends
    /// the call successfully with whatever was written, possibly nothing:
    /// calling again with no new data just drains backlog.  Any other
    /// transport error is passed through, the unwritten remainder kept.
    #[verifier::loop_isolation(false)]
    pub fn write<T: std::io::Write>(&mut self, stream: &mut T, data: Option<Vec<u8>>) -> (r:
        Result<usize, std::io::Error>)
        requires
            old(self).wf(),
        ensures
            final(self).wf(),
            ({
                let queued = old(self).backlog() + (match &data {
                    Some(d) => d@,
                    None => Seq::<u8>::empty(),
                });
                (match r {
                    Ok(n) => n <= queued.len() && final(self).backlog() == queued.skip(n as int),
                    Err(_) => final(self).backlog().is_suffix_of(queued),
                })
            }),
    {
        let ghost queued = old(self).backlog() + (match &data {
            Some(d) => d@,
            None => Seq::<u8>::empty(),
        });
        match &data {
            Some(d) => {
                self.enqueue(d);
            },
            None => {
                proof {
                    assert(self.backlog() + Seq::<u8>::empty() =~= self.backlog());
                }
            },
        }
        let ghost s0 = self.start as int;
        let mut written: usize = 0;
        proof {
            assert(queued.skip(0) =~= queued);
        }
        while self.start < self.pending.len()
            invariant
                self.wf(),
                self.pending@.skip(s0) == queued,
                self.start as int == s0 + written,
                written <= queued.len(),
                self.backlog() == queued.skip(written as int),
            decreases self.pending@.len() - self.start,
        {
            match send(stream, &self.pending, self.start) {
                SendOutcome::Sent(n) => {
                    if n == 0 {
                        break;
                    }
                    self.start = self.start + n;
                    written = written + n;
                    proof {
                        assert(self.backlog() =~= queued.skip(written as int));
                    }
                },
                SendOutcome::WouldBlock => {
                    break;
                },
                SendOutcome::Fault(e) => {
                    proof {
                        assert(self.backlog() =~= queued.subrange(
                            queued.len() - self.backlog().len(),
                            queued.len() as int,
                        ));
                    }
                    return Err(e);
                },
            }
        }
        if self.start == self.pending.len() {
            self.pending.clear();
            self.start = 0;
            proof {
                assert(self.backlog() =~= queued.skip(written as int));
            }
        }
        Ok(written)
    }
}

} // verus!
