use std::io::Cursor;
use std::io::Write;

use redif::frame_reader::FrameReader;
use redif::frame_writer::FrameWriter;
use redif::ReadError;
use redif::Value;

#[test]
fn partial_and_complete_reads() {
    let buf1 = String::from("+Hello World\r\n").into_bytes();
    let buf2 = String::from("-Error\r\n").into_bytes();

    let mut reader = FrameReader::new(64);

    // Write a partial value
    let mut data = Cursor::new(&buf1[0..5]);
    let bytes_read = reader.read(&mut data).unwrap();
    assert_eq!(5, bytes_read);
    assert_eq!(None, reader.iter_mut().next());

    // Complete writing the first value
    let mut data = Cursor::new(&buf1[5..]);
    let bytes_read = reader.read(&mut data).unwrap();
    assert_eq!(9, bytes_read);
    let val = reader.iter_mut().next().unwrap();
    assert_eq!(Value::Status("Hello World".to_string()), val);

    // Write an entire header and value
    let mut data = Cursor::new(Vec::with_capacity(buf1.len() + buf2.len()));
    assert_eq!(buf1.len(), data.write(&buf1).unwrap());
    assert_eq!(buf2.len(), data.write(&buf2).unwrap());
    data.set_position(0);
    let bytes_read = reader.read(&mut data).unwrap();
    assert_eq!(buf1.len() + buf2.len(), bytes_read);
    let val = reader.iter_mut().next().unwrap();
    assert_eq!(Value::Status("Hello World".to_string()), val);
    let val = reader.iter_mut().next().unwrap();
    assert_eq!(Value::Error("Error".to_string()), val);
}

/// A stream with nothing to give right now.
struct BlockedStream;

impl std::io::Read for BlockedStream {
    fn read(&mut self, _buf: &mut [u8]) -> std::io::Result<usize> {
        Err(std::io::Error::new(std::io::ErrorKind::WouldBlock, "no data yet"))
    }
}

/// Test that we never get an error, but instead get Ok(0), when the call
/// to read would block with nothing transferred.
#[test]
fn would_block() {
    let mut reader = FrameReader::new(512);
    let result = reader.read(&mut BlockedStream).unwrap();
    assert_eq!(result, 0);
    assert_eq!(None, reader.iter_mut().next());
}

/// A stream that is already at its end.
struct ClosedStream;

impl std::io::Read for ClosedStream {
    fn read(&mut self, _buf: &mut [u8]) -> std::io::Result<usize> {
        Ok(0)
    }
}

#[test]
fn end_of_stream_is_an_error() {
    let mut reader = FrameReader::new(512);
    let err = reader.read(&mut ClosedStream).unwrap_err();
    assert!(matches!(err, ReadError::Eof));
}

#[test]
fn split_data_value_across_two_reads() {
    let enc = Value::Data(b"foobar".to_vec()).encode();
    let mut reader = FrameReader::new(64);

    let mut first = Cursor::new(&enc[..7]);
    assert_eq!(7, reader.read(&mut first).unwrap());
    assert_eq!(None, reader.iter_mut().next());

    let mut second = Cursor::new(&enc[7..]);
    assert_eq!(enc.len() - 7, reader.read(&mut second).unwrap());
    assert_eq!(Some(Value::Data(b"foobar".to_vec())), reader.iter_mut().next());
    assert_eq!(None, reader.iter_mut().next());
}

#[test]
fn two_values_in_one_read() {
    let mut bytes = Value::Int(1).encode();
    bytes.extend_from_slice(&Value::Int(2).encode());
    let mut reader = FrameReader::new(64);
    let mut data = Cursor::new(&bytes[..]);
    assert_eq!(bytes.len(), reader.read(&mut data).unwrap());
    assert_eq!(Some(Value::Int(1)), reader.iter_mut().next());
    assert_eq!(Some(Value::Int(2)), reader.iter_mut().next());
    assert_eq!(None, reader.iter_mut().next());
}

/// A value whose encoding cannot fit the connection's arena never
/// completes: the reader stops making progress and the next call reports
/// end of stream, so the caller closes the connection.
#[test]
fn oversized_value_starves_the_arena() {
    let mut reader = FrameReader::new(8);
    let enc = Value::Data(b"twenty characters!!!".to_vec()).encode();
    let mut data = Cursor::new(&enc[..]);
    assert_eq!(8, reader.read(&mut data).unwrap());
    assert_eq!(None, reader.iter_mut().next());
    let err = reader.read(&mut data).unwrap_err();
    assert!(matches!(err, ReadError::Eof));
}

#[test]
fn protocol_error_propagates() {
    let mut reader = FrameReader::new(64);
    let mut data = Cursor::new(b"?boom\r\n".to_vec());
    let err = reader.read(&mut data).unwrap_err();
    assert!(matches!(err, ReadError::Protocol(_)));
}

/// A stream that accepts only a few bytes per write call.
struct Trickle {
    accepted: Vec<u8>,
    per_call: usize,
}

impl std::io::Write for Trickle {
    fn write(&mut self, buf: &[u8]) -> std::io::Result<usize> {
        let n = buf.len().min(self.per_call);
        self.accepted.extend_from_slice(&buf[..n]);
        Ok(n)
    }

    fn flush(&mut self) -> std::io::Result<()> {
        Ok(())
    }
}

#[test]
fn writer_delivers_in_order_across_partial_writes() {
    let mut writer = FrameWriter::new();
    let mut sink = Trickle { accepted: Vec::new(), per_call: 3 };
    let first = Value::Status("Hello".to_string()).encode();
    let second = Value::Int(42).encode();
    let n1 = writer.write(&mut sink, Some(first.clone())).unwrap();
    let n2 = writer.write(&mut sink, Some(second.clone())).unwrap();
    assert_eq!(n1 + n2, first.len() + second.len());
    let mut expected = first;
    expected.extend_from_slice(&second);
    assert_eq!(sink.accepted, expected);
}

/// A stream that refuses to accept anything right now.
struct BlockedSink;

impl std::io::Write for BlockedSink {
    fn write(&mut self, _buf: &[u8]) -> std::io::Result<usize> {
        Err(std::io::Error::new(std::io::ErrorKind::WouldBlock, "try later"))
    }

    fn flush(&mut self) -> std::io::Result<()> {
        Ok(())
    }
}

#[test]
fn writer_keeps_backlog_when_blocked() {
    let mut writer = FrameWriter::new();
    let payload = Value::Status("queued".to_string()).encode();
    // a blocked stream is success with zero bytes written, not an error
    assert_eq!(0, writer.write(&mut BlockedSink, Some(payload.clone())).unwrap());
    // a later call with no new data drains the remembered backlog
    let mut sink = Trickle { accepted: Vec::new(), per_call: 1024 };
    assert_eq!(payload.len(), writer.write(&mut sink, None).unwrap());
    assert_eq!(sink.accepted, payload);
}
