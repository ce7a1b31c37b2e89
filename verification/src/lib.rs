//! A server framework for a Redis-like, length-prefixed wire protocol.
//!
//! The crate owns protocol framing: a recursive value codec, a
//! per-connection frame reader that reassembles complete values out of
//! arbitrarily fragmented reads, and a frame writer that drains an
//! outbound byte queue through a non-blocking stream.  Request semantics
//! are delegated to an externally supplied [`Handler`]: the event loop
//! around a readiness-notification source lives with the embedding
//! program, which pumps each ready connection through
//! [`FrameReader::read`], [`drain_frames`] and [`FrameWriter::write`].

use vstd::prelude::*;

pub mod frame_reader;
pub mod frame_writer;
pub mod value;

pub use frame_reader::FrameReader;
pub use frame_reader::Iter;
pub use frame_reader::ReadError;
pub use frame_writer::FrameWriter;
pub use value::DecodeError;
pub use value::Value;
pub use value::encode_slice;

verus! {

use crate::value::spec_encode;

/// A request-processing callback supplied by the user of the framework.
///
/// For each fully decoded request value the framework calls `handle`
/// exactly once, in wire arrival order.  A reply of `Some(v)` is encoded
/// and queued for the peer; `None` sends nothing, and the peer may then
/// wait forever.
pub trait Handler {
    fn handle(&mut self, req: &Value) -> Option<Value>;
}

/// Handles one decoded request: invokes the handler exactly once and, when
/// it replies, appends the encoded reply to the writer's queue.  A handler
/// that returns no reply leaves the queue — and so the wire — untouched
/// for that request.
pub fn respond_one<H: Handler>(handler: &mut H, req: &Value, writer: &mut FrameWriter) -> (r:
    Option<Value>)
    requires
        old(writer).wf(),
    ensures
        final(writer).wf(),
        (match r {
            Some(rep) => final(writer).backlog() == old(writer).backlog() + spec_encode(
                rep.deep_view(),
            ),
            None => final(writer).backlog() == old(writer).backlog(),
        }),
{
    match handler.handle(req) {
        Some(rep) => {
            let enc = rep.encode();
            writer.enqueue(&enc);
            Some(rep)
        },
        None => None,
    }
}

/// The per-connection dispatch step: drains every completed value from the
/// reader, invoking the handler once per value in arrival order and
/// queueing each reply behind the bytes already owed.  The caller then
/// attempts a flush with [`FrameWriter::write`].
pub fn drain_frames<H: Handler>(
    reader: &mut FrameReader,
    writer: &mut FrameWriter,
    handler: &mut H,
)
    requires
        old(reader).wf(),
        old(writer).wf(),
    ensures
        final(reader).wf(),
        final(writer).wf(),
        final(reader).frames().len() == 0,
        final(reader).buffered() == old(reader).buffered(),
        final(reader).capacity() == old(reader).capacity(),
        final(writer).backlog().len() >= old(writer).backlog().len(),
        forall|i: int| 0 <= i < old(writer).backlog().len() ==> final(writer).backlog()[i]
            == old(writer).backlog()[i],
{
    loop
        invariant
            reader.wf(),
            writer.wf(),
            reader.buffered() == old(reader).buffered(),
            reader.capacity() == old(reader).capacity(),
            writer.backlog().len() >= old(writer).backlog().len(),
            forall|i: int| 0 <= i < old(writer).backlog().len() ==> writer.backlog()[i] == old(
                writer,
            ).backlog()[i],
        ensures
            reader.frames().len() == 0,
        decreases reader.frames().len(),
    {
        match reader.next_frame() {
            Some(msg) => {
                let _ = respond_one(handler, &msg, writer);
            },
            None => {
                break;
            },
        }
    }
}

} // verus!
