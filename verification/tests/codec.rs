use redif::encode_slice;
use redif::DecodeError;
use redif::Value;

struct Case {
    data: Vec<u8>,
    want: Value,
}

#[test]
fn struct_decoder() {
    let cases: &[Case] = &[
        Case {
            data: "+\r\n".to_string().into_bytes(),
            want: Value::Status("".to_string()),
        },
        Case {
            data: "+OK\r\n".to_string().into_bytes(),
            want: Value::Status("OK".to_string()),
        },
        Case {
            data: "+中文\r\n".to_string().into_bytes(),
            want: Value::Status("中文".to_string()),
        },
        Case {
            data: "-Error Message\r\n".to_string().into_bytes(),
            want: Value::Error("Error Message".to_string()),
        },
        Case {
            data: ":0\r\n".to_string().into_bytes(),
            want: Value::Int(0),
        },
        Case {
            data: ":-1\r\n".to_string().into_bytes(),
            want: Value::Int(-1),
        },
        Case {
            data: ":4400\r\n".to_string().into_bytes(),
            want: Value::Int(4400),
        },
        Case {
            data: "$-1\r\n".to_string().into_bytes(),
            want: Value::Nil,
        },
        Case {
            data: "$0\r\n\r\n".to_string().into_bytes(),
            want: Value::Data(Vec::new()),
        },
        Case {
            data: "$6\r\nfoobar\r\n".to_string().into_bytes(),
            want: Value::Data(b"foobar".to_vec()),
        },
        Case {
            data: "$17\r\n你好！\n 换行\r\n".to_string().into_bytes(),
            want: Value::Data("你好！\n 换行".as_bytes().to_vec()),
        },
        Case {
            data: "*-1\r\n".to_string().into_bytes(),
            want: Value::NullArray,
        },
        Case {
            data: "*0\r\n".to_string().into_bytes(),
            want: Value::Bulk(Vec::new()),
        },
        Case {
            data: "*2\r\n$3\r\nfoo\r\n$3\r\nbar\r\n".to_string().into_bytes(),
            want: Value::Bulk(vec![Value::Data(b"foo".to_vec()), Value::Data(b"bar".to_vec())]),
        },
        Case {
            data: "*3\r\n:1\r\n:2\r\n:3\r\n".to_string().into_bytes(),
            want: Value::Bulk(vec![Value::Int(1), Value::Int(2), Value::Int(3)]),
        },
        Case {
            data: "*4\r\n:1\r\n:2\r\n:3\r\n$6\r\nfoobar\r\n".to_string().into_bytes(),
            want: Value::Bulk(vec![
                Value::Int(1),
                Value::Int(2),
                Value::Int(3),
                Value::Data(b"foobar".to_vec()),
            ]),
        },
    ];

    // single decode
    for case in cases {
        let (val, _) = Value::decode(&case.data[..], 0).unwrap();
        assert_eq!(val, case.want);
    }

    // multiple decode
    let mut all: Vec<u8> = Vec::new();
    for case in cases {
        all.extend_from_slice(case.data.as_slice());
    }
    let mut offset = 0;
    for case in cases {
        let (val, _offset) = Value::decode(&all, offset).unwrap();
        assert_eq!(val, case.want);
        offset = _offset;
    }
}

fn assert_round_trip(v: Value) {
    let enc = v.encode();
    let (back, used) = Value::decode(&enc, 0).unwrap();
    assert_eq!(back, v);
    assert_eq!(used, enc.len());
}

#[test]
fn encode_decode_round_trip() {
    assert_round_trip(Value::Nil);
    assert_round_trip(Value::NullArray);
    assert_round_trip(Value::Int(0));
    assert_round_trip(Value::Int(-1));
    assert_round_trip(Value::Int(i64::MAX));
    assert_round_trip(Value::Int(i64::MIN));
    assert_round_trip(Value::Status("".to_string()));
    assert_round_trip(Value::Status("OK".to_string()));
    assert_round_trip(Value::Status("中文".to_string()));
    assert_round_trip(Value::Error("Error Message".to_string()));
    assert_round_trip(Value::Data(Vec::new()));
    assert_round_trip(Value::Data(b"foobar".to_vec()));
    // a payload containing the line terminator itself
    assert_round_trip(Value::Data(b"a\r\nb\r\nc".to_vec()));
    assert_round_trip(Value::Bulk(Vec::new()));
    assert_round_trip(Value::Bulk(vec![
        Value::Int(1),
        Value::Nil,
        Value::Bulk(vec![Value::Status("deep".to_string()), Value::NullArray]),
        Value::Data(b"bin\x00\xff".to_vec()),
    ]));
}

#[test]
fn nil_encodes_as_null_bulk_string() {
    assert_eq!(Value::Nil.encode(), b"$-1\r\n".to_vec());
    assert_eq!(Value::NullArray.encode(), b"*-1\r\n".to_vec());
    assert_eq!(Value::Int(4400).encode(), b":4400\r\n".to_vec());
    assert_eq!(Value::Status("OK".to_string()).encode(), b"+OK\r\n".to_vec());
    assert_eq!(Value::Data(b"foobar".to_vec()).encode(), b"$6\r\nfoobar\r\n".to_vec());
}

#[test]
fn multibyte_payload_length_counts_bytes() {
    // the declared length counts bytes, not characters
    let text = "你好！\n 换行";
    assert_eq!(text.as_bytes().len(), 17);
    let v = Value::Data(text.as_bytes().to_vec());
    let enc = v.encode();
    assert_eq!(enc, "$17\r\n你好！\n 换行\r\n".as_bytes().to_vec());
    let (back, used) = Value::decode(&enc, 0).unwrap();
    assert_eq!(back, v);
    assert_eq!(used, enc.len());
}

#[test]
fn length_bounds() {
    // one past the ceiling, and below -1, are rejected; -1 itself is the null form
    let too_long = format!("${}\r\n", 512 * 1024 * 1024 + 1).into_bytes();
    assert_eq!(Value::decode(&too_long, 0).unwrap_err(), DecodeError::BadLength);
    let too_many = format!("*{}\r\n", 512 * 1024 * 1024 + 1).into_bytes();
    assert_eq!(Value::decode(&too_many, 0).unwrap_err(), DecodeError::BadLength);
    assert_eq!(Value::decode(b"$-2\r\n", 0).unwrap_err(), DecodeError::BadLength);
    assert_eq!(Value::decode(b"*-2\r\n", 0).unwrap_err(), DecodeError::BadLength);
    assert_eq!(Value::decode(b"$-1\r\n", 0).unwrap(), (Value::Nil, 5));
    assert_eq!(Value::decode(b"*-1\r\n", 0).unwrap(), (Value::NullArray, 5));
    // exactly the ceiling is structurally fine: the payload just has not arrived
    let at_limit = format!("${}\r\n", 512 * 1024 * 1024).into_bytes();
    assert_eq!(Value::decode(&at_limit, 0).unwrap(), (Value::Nil, 0));
}

#[test]
fn decode_error_kinds() {
    // line not terminated by CRLF
    assert_eq!(Value::decode(b"+OK\rx\n", 0).unwrap_err(), DecodeError::BadTerminator);
    assert_eq!(Value::decode(b"\n", 0).unwrap_err(), DecodeError::BadTerminator);
    // status line that is not UTF-8
    assert_eq!(Value::decode(b"+\xff\xfe\r\n", 0).unwrap_err(), DecodeError::BadText);
    // unparseable integer and length
    assert_eq!(Value::decode(b":abc\r\n", 0).unwrap_err(), DecodeError::BadNumber);
    assert_eq!(Value::decode(b":\r\n", 0).unwrap_err(), DecodeError::BadNumber);
    assert_eq!(Value::decode(b"$\r\n", 0).unwrap_err(), DecodeError::BadNumber);
    assert_eq!(
        Value::decode(b":99999999999999999999\r\n", 0).unwrap_err(),
        DecodeError::BadNumber
    );
    // unknown leading marker
    assert_eq!(Value::decode(b"?boom\r\n", 0).unwrap_err(), DecodeError::BadMarker);
    // a syntax error inside an array aborts the whole attempt
    assert_eq!(
        Value::decode(b"*2\r\n:1\r\n?x\r\n", 0).unwrap_err(),
        DecodeError::BadMarker
    );
}

#[test]
fn incomplete_is_not_an_error() {
    // missing terminator, missing payload bytes, missing array elements
    assert_eq!(Value::decode(b"+OK", 0).unwrap(), (Value::Nil, 0));
    assert_eq!(Value::decode(b"$6\r\nfoo", 0).unwrap(), (Value::Nil, 0));
    assert_eq!(Value::decode(b"$6\r\nfoobar\r", 0).unwrap(), (Value::Nil, 0));
    assert_eq!(Value::decode(b"*2\r\n$3\r\nfoo\r\n", 0).unwrap(), (Value::Nil, 0));
    assert_eq!(Value::decode(b"", 0).unwrap(), (Value::Nil, 0));
}

#[test]
fn encode_slice_builds_a_command() {
    let array = ["SET", "a", "1"];
    assert_eq!(
        encode_slice(&array),
        "*3\r\n$3\r\nSET\r\n$1\r\na\r\n$1\r\n1\r\n".to_string().into_bytes()
    );
}

#[test]
fn text_view() {
    assert_eq!(
        Value::Status("OK".to_string()).to_string().unwrap(),
        Some("OK".to_string())
    );
    assert_eq!(
        Value::Error("bad".to_string()).to_string().unwrap(),
        Some("bad".to_string())
    );
    assert_eq!(Value::Int(4400).to_string().unwrap(), Some("4400".to_string()));
    assert_eq!(Value::Int(-7).to_string().unwrap(), Some("-7".to_string()));
    assert_eq!(
        Value::Int(i64::MIN).to_string().unwrap(),
        Some("-9223372036854775808".to_string())
    );
    assert_eq!(
        Value::Data(b"foobar".to_vec()).to_string().unwrap(),
        Some("foobar".to_string())
    );
    assert!(Value::Data(b"\xff\xfe".to_vec()).to_string().is_err());
    assert_eq!(Value::Nil.to_string().unwrap(), None);
    assert_eq!(Value::NullArray.to_string().unwrap(), None);
    assert_eq!(Value::Bulk(Vec::new()).to_string().unwrap(), None);
}

#[test]
fn data_as_slice() {
    assert_eq!(Value::Data(b"foobar".to_vec()).as_slice(), b"foobar");
    assert_eq!(Value::Int(1).as_slice(), b"");
    assert_eq!(Value::Nil.as_slice(), b"");
}
