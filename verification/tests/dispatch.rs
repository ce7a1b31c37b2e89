use std::io::Cursor;

use redif::drain_frames;
use redif::encode_slice;
use redif::frame_reader::FrameReader;
use redif::frame_writer::FrameWriter;
use redif::Handler;
use redif::Value;

#[test]
fn it_works() {
    assert_eq!(2 + 2, 4);
}

/// A handler that records what it saw and answers every request.
struct Recorder {
    seen: Vec<Value>,
}

impl Handler for Recorder {
    fn handle(&mut self, req: &Value) -> Option<Value> {
        match req {
            Value::Bulk(_) => {
                self.seen.push(Value::Bulk(Vec::new()));
                Some(Value::Status("OK".to_string()))
            },
            _ => Some(Value::Error("Invalid Request".to_string())),
        }
    }
}

/// A handler that never replies.
struct Mute {
    calls: usize,
}

impl Handler for Mute {
    fn handle(&mut self, _req: &Value) -> Option<Value> {
        self.calls += 1;
        None
    }
}

#[test]
fn request_reply_end_to_end() {
    // a client sends one encoded array request
    let request = encode_slice(&["PING"]);
    let mut reader = FrameReader::new(1024);
    let mut stream = Cursor::new(request);
    reader.read(&mut stream).unwrap();

    // the server drains it through the handler and flushes the reply
    let mut writer = FrameWriter::new();
    let mut handler = Recorder { seen: Vec::new() };
    drain_frames(&mut reader, &mut writer, &mut handler);
    assert_eq!(handler.seen.len(), 1);

    let mut wire: Vec<u8> = Vec::new();
    writer.write(&mut wire, None).unwrap();

    // the client receives exactly the handler's encoded reply
    let (reply, used) = Value::decode(&wire, 0).unwrap();
    assert_eq!(reply, Value::Status("OK".to_string()));
    assert_eq!(used, wire.len());
}

#[test]
fn pipelined_requests_answered_in_order() {
    // two full requests delivered in one read are answered in order,
    // each handled exactly once
    let mut bytes = encode_slice(&["GET", "a"]);
    bytes.extend_from_slice(&Value::Int(7).encode());
    let mut reader = FrameReader::new(1024);
    let mut stream = Cursor::new(bytes);
    reader.read(&mut stream).unwrap();

    let mut writer = FrameWriter::new();
    let mut handler = Recorder { seen: Vec::new() };
    drain_frames(&mut reader, &mut writer, &mut handler);
    assert_eq!(handler.seen.len(), 1);

    let mut wire: Vec<u8> = Vec::new();
    writer.write(&mut wire, None).unwrap();
    let (first, next) = Value::decode(&wire, 0).unwrap();
    assert_eq!(first, Value::Status("OK".to_string()));
    let (second, end) = Value::decode(&wire, next).unwrap();
    assert_eq!(second, Value::Error("Invalid Request".to_string()));
    assert_eq!(end, wire.len());
}

#[test]
fn silent_handler_puts_nothing_on_the_wire() {
    let request = encode_slice(&["QUIET"]);
    let mut reader = FrameReader::new(1024);
    let mut stream = Cursor::new(request);
    reader.read(&mut stream).unwrap();

    let mut writer = FrameWriter::new();
    let mut handler = Mute { calls: 0 };
    drain_frames(&mut reader, &mut writer, &mut handler);
    assert_eq!(handler.calls, 1);

    let mut wire: Vec<u8> = Vec::new();
    writer.write(&mut wire, None).unwrap();
    assert!(wire.is_empty());
}
