use mredis::codec::decode;
use mredis::frame::{Frame, FrameData, FrameError, FrameID};

/// Decode one frame from the front of `buf` and drop the consumed
/// bytes, as the session loop does.
fn decode_next(buf: &mut Vec<u8>) -> Result<Frame, FrameError> {
    match decode(buf) {
        Ok((frame, used)) => {
            *buf = buf[used..].to_vec();
            Ok(frame)
        },
        Err(e) => Err(e),
    }
}

#[test]
fn decode_test() {
    //
    // good simple string + decode from the same buffer
    //
    let mut buf = b"+OK\r\n+\r\n".to_vec();
    let frame = decode_next(&mut buf).unwrap();
    assert_eq!(frame.frame_type, FrameID::SimpleString);
    assert_eq!(frame.frame_data, FrameData::Simple(b"OK".to_vec()));

    let frame = decode_next(&mut buf).unwrap();
    assert_eq!(frame.frame_type, FrameID::SimpleString);
    assert_eq!(frame.frame_data, FrameData::Simple(b"".to_vec()));

    // wrongly terminated frame
    let mut buf = b"-err\n".to_vec();
    let frame = decode_next(&mut buf);
    assert_eq!(
        frame,
        Err(FrameError::Invalid),
        "There is no CRLF at the end"
    );

    // an empty buffer needs more bytes before anything can decode
    let mut buf = Vec::new();
    let frame = decode_next(&mut buf);
    assert_eq!(frame, Err(FrameError::Incomplete));

    //
    // Bulk + err + int + bool
    //
    let mut buf = b"$5\r\nhello\r\n-err\r\n:66\r\n:-5\r\n:0\r\n#t\r\n#f\r\n#n\r\n".to_vec();
    let frame = decode_next(&mut buf).unwrap();
    assert_eq!(frame.frame_type, FrameID::BulkString);
    assert_eq!(frame.frame_data, FrameData::Bulk(b"hello".to_vec()));

    let frame = decode_next(&mut buf).unwrap();
    assert_eq!(frame.frame_type, FrameID::SimpleError);
    assert_eq!(frame.frame_data, FrameData::Simple(b"err".to_vec()));

    let frame = decode_next(&mut buf).unwrap();
    assert_eq!(frame.frame_type, FrameID::Integer);
    assert_eq!(frame.frame_data, FrameData::Integer(66));

    let frame = decode_next(&mut buf).unwrap();
    assert_eq!(frame.frame_type, FrameID::Integer);
    assert_eq!(frame.frame_data, FrameData::Integer(-5));

    let frame = decode_next(&mut buf).unwrap();
    assert_eq!(frame.frame_type, FrameID::Integer);
    assert_eq!(frame.frame_data, FrameData::Integer(0));

    let frame = decode_next(&mut buf).unwrap();
    assert_eq!(frame.frame_type, FrameID::Boolean);
    assert_eq!(frame.frame_data, FrameData::Boolean(true));

    let frame = decode_next(&mut buf).unwrap();
    assert_eq!(frame.frame_type, FrameID::Boolean);
    assert_eq!(frame.frame_data, FrameData::Boolean(false));

    let frame = decode_next(&mut buf);
    assert_eq!(frame, Err(FrameError::Invalid), "invalid bool payload");

    //
    // Array
    //
    let mut buf = b"*3\r\n:1\r\n+Two\r\n$5\r\nThree\r\n".to_vec();
    let frame = decode_next(&mut buf).unwrap();
    assert_eq!(frame.frame_type, FrameID::Array);
    let frame_data = FrameData::Nested(vec![
        Frame {
            frame_type: FrameID::Integer,
            frame_data: FrameData::Integer(1),
        },
        Frame {
            frame_type: FrameID::SimpleString,
            frame_data: FrameData::Simple(b"Two".to_vec()),
        },
        Frame {
            frame_type: FrameID::BulkString,
            frame_data: FrameData::Bulk(b"Three".to_vec()),
        },
    ]);
    assert_eq!(frame.frame_data, frame_data);

    // nested 1
    let mut buf = b"*2\r\n:1\r\n*1\r\n+Three\r\n".to_vec();
    let frame = decode_next(&mut buf).unwrap();
    assert_eq!(frame.frame_type, FrameID::Array);
    let frame_data = FrameData::Nested(vec![
        Frame {
            frame_type: FrameID::Integer,
            frame_data: FrameData::Integer(1),
        },
        Frame {
            frame_type: FrameID::Array,
            frame_data: FrameData::Nested(vec![Frame {
                frame_type: FrameID::SimpleString,
                frame_data: FrameData::Simple(b"Three".to_vec()),
            }]),
        },
    ]);
    assert_eq!(frame.frame_data, frame_data);

    // nested 2
    let mut buf = b"*3\r\n:1\r\n*1\r\n+Three\r\n-Err\r\n".to_vec();
    let frame = decode_next(&mut buf).unwrap();
    assert_eq!(frame.frame_type, FrameID::Array);
    let frame_data = FrameData::Nested(vec![
        Frame {
            frame_type: FrameID::Integer,
            frame_data: FrameData::Integer(1),
        },
        Frame {
            frame_type: FrameID::Array,
            frame_data: FrameData::Nested(vec![Frame {
                frame_type: FrameID::SimpleString,
                frame_data: FrameData::Simple(b"Three".to_vec()),
            }]),
        },
        Frame {
            frame_type: FrameID::SimpleError,
            frame_data: FrameData::Simple(b"Err".to_vec()),
        },
    ]);
    assert_eq!(frame.frame_data, frame_data);
}

#[test]
fn test_decode_frame_integer() {
    let mut buf = b":33\r\n:0\r\n:-50\r\n:hello\r\n".to_vec();

    let frame = decode_next(&mut buf).unwrap();
    assert_eq!(frame, Frame::new_integer(33), "can decode a positive number");

    let frame = decode_next(&mut buf).unwrap();
    assert_eq!(frame, Frame::new_integer(0), "can decode 0 as a number");

    let frame = decode_next(&mut buf).unwrap();
    assert_eq!(frame, Frame::new_integer(-50), "can decode a negative number");

    let frame = decode_next(&mut buf);
    assert_eq!(
        frame,
        Err(FrameError::UTF8ToInt),
        "cannot convert an non-number  frame to a number"
    );
}

#[test]
fn test_decode_frame_simple_string() {
    let mut buf = b"+hello\r\n+58\r\n+\r\n".to_vec();

    let frame = decode_next(&mut buf).unwrap();
    assert_eq!(
        frame,
        Frame::new_simple_string(b"hello".to_vec()),
        "can decode a simple string"
    );

    let frame = decode_next(&mut buf).unwrap();
    assert_eq!(
        frame,
        Frame::new_simple_string(b"58".to_vec()),
        "can decode a simple string which is a number"
    );

    let frame = decode_next(&mut buf).unwrap();
    assert_eq!(
        frame,
        Frame::new_simple_string(b"".to_vec()),
        "can decode a simple string which is empty"
    );

    let mut buf = b"+hello\n".to_vec();
    let frame = decode_next(&mut buf);
    assert_eq!(
        frame,
        Err(FrameError::Invalid),
        "simple frame cannot be terminated with a single LF"
    );

    let mut buf = b"+Incompet".to_vec();
    let frame = decode_next(&mut buf);
    assert_eq!(
        frame,
        Err(FrameError::Incomplete),
        "frames are terminated with CRLF"
    );
}

#[test]
fn test_decode_frame_simple_error() {
    let mut buf = b"-hello\r\n-58\r\n-\r\n".to_vec();

    let frame = decode_next(&mut buf).unwrap();
    assert_eq!(
        frame,
        Frame::new_simple_error(b"hello".to_vec()),
        "can decode a simple error"
    );

    let frame = decode_next(&mut buf).unwrap();
    assert_eq!(
        frame,
        Frame::new_simple_error(b"58".to_vec()),
        "can decode a simple error which is a number"
    );

    let frame = decode_next(&mut buf).unwrap();
    assert_eq!(
        frame,
        Frame::new_simple_error(b"".to_vec()),
        "can decode a simple error which is empty"
    );

    let mut buf = b"-hello\n".to_vec();
    let frame = decode_next(&mut buf);
    assert_eq!(
        frame,
        Err(FrameError::Invalid),
        "simple frame cannot be terminated with a single LF"
    );

    let mut buf = b"-Incompet".to_vec();
    let frame = decode_next(&mut buf);
    assert_eq!(
        frame,
        Err(FrameError::Incomplete),
        "frames are terminated with CRLF"
    );
}

#[test]
fn test_decode_frame_bulk_string() {
    let mut buf = b"$5\r\nhello\r\n$6\r\nhel\rlo\r\n$6\r\nhel\nlo\r\n".to_vec();

    let frame = decode_next(&mut buf).unwrap();
    assert_eq!(
        frame,
        Frame::new_bulk_string(b"hello".to_vec()),
        "can decode a bulk string"
    );

    let frame = decode_next(&mut buf).unwrap();
    assert_eq!(
        frame,
        Frame::new_bulk_string(b"hel\rlo".to_vec()),
        "bulk frame can contain CR in the middle"
    );

    let frame = decode_next(&mut buf).unwrap();
    assert_eq!(
        frame,
        Frame::new_bulk_string(b"hel\nlo".to_vec()),
        "bulk frame can contain LF in the middle"
    );

    let mut buf = b"$6\r\nhellojj\r".to_vec();
    let frame = decode_next(&mut buf);
    assert_eq!(
        frame,
        Err(FrameError::Invalid),
        "bulk string is terminated by CRLF"
    );
}

#[test]
fn test_decode_frame_bulk_error() {
    let mut buf = b"!5\r\nhello\r\n!6\r\nhel\rlo\r\n!6\r\nhel\nlo\r\n".to_vec();

    let frame = decode_next(&mut buf).unwrap();
    assert_eq!(
        frame,
        Frame::new_bulk_error(b"hello".to_vec()),
        "can decode a bulk string"
    );

    let frame = decode_next(&mut buf).unwrap();
    assert_eq!(
        frame,
        Frame::new_bulk_error(b"hel\rlo".to_vec()),
        "bulk frame can contain CR in the middle"
    );

    let frame = decode_next(&mut buf).unwrap();
    assert_eq!(
        frame,
        Frame::new_bulk_error(b"hel\nlo".to_vec()),
        "bulk frame can contain LF in the middle"
    );

    let mut buf = b"!6\r\nhellojj\r".to_vec();
    let frame = decode_next(&mut buf);
    assert_eq!(
        frame,
        Err(FrameError::Invalid),
        "bulk string is terminated by CRLF"
    );
}

#[test]
fn test_decode_frame_bool() {
    let mut buf = b"#t\r\n#f\r\n#u\r\n".to_vec();

    let frame = decode_next(&mut buf).unwrap();
    assert_eq!(
        frame,
        Frame::new_bool(true),
        "can decode a bool frame with value true"
    );

    let frame = decode_next(&mut buf).unwrap();
    assert_eq!(
        frame,
        Frame::new_bool(false),
        "can decode a bool frame with value false"
    );

    let frame = decode_next(&mut buf);
    assert_eq!(
        frame,
        Err(FrameError::Invalid),
        "can detect an invalid bool frame (value other than t or f)"
    );
}

#[test]
fn test_decode_frame_null() {
    let mut buf = b"_\r\n_f\r\n".to_vec();

    let frame = decode_next(&mut buf).unwrap();
    assert_eq!(frame, Frame::new_null(), "can decode a null frame");

    let frame = decode_next(&mut buf);
    assert_eq!(
        frame,
        Err(FrameError::Invalid),
        "can spot a null frame which has value, null should not have one"
    );
}

#[test]
fn test_decode_frame_array() {
    let mut buf =
        b"*3\r\n:1\r\n+Two\r\n$5\r\nThree\r\n*2\r\n:1\r\n*1\r\n+Three\r\n*1\r\n$4\r\nPING\r\n"
            .to_vec();

    let frame = decode_next(&mut buf).unwrap();
    let response_frame = Frame {
        frame_type: FrameID::Array,
        frame_data: FrameData::Nested(vec![
            Frame::new_integer(1),
            Frame::new_simple_string(b"Two".to_vec()),
            Frame::new_bulk_string(b"Three".to_vec()),
        ]),
    };
    assert_eq!(
        frame, response_frame,
        "can decode a non nested array with mixed elements"
    );

    let frame_nested = decode_next(&mut buf).unwrap();
    let response_frame_nested = Frame {
        frame_type: FrameID::Array,
        frame_data: FrameData::Nested(vec![
            Frame::new_integer(1),
            Frame {
                frame_type: FrameID::Array,
                frame_data: FrameData::Nested(vec![Frame::new_simple_string(b"Three".to_vec())]),
            },
        ]),
    };
    assert_eq!(
        frame_nested, response_frame_nested,
        "can decode a nested array"
    );

    let frame_ping = decode_next(&mut buf).unwrap();
    let response_frame_ping = Frame {
        frame_type: FrameID::Array,
        frame_data: FrameData::Nested(vec![Frame::new_bulk_string(b"PING".to_vec())]),
    };
    assert_eq!(frame_ping, response_frame_ping, "can decode ping command");
}

#[test]
fn unknown_marker_is_rejected() {
    let buf = b"@hello\r\n".to_vec();
    assert_eq!(decode(&buf), Err(FrameError::Unknown));
}

#[test]
fn non_aggregate_helper_rejects_arrays() {
    let buf = b"*1\r\n:1\r\n".to_vec();
    let r = mredis::codec::process_non_aggregate(FrameID::Array, &buf, 0);
    assert_eq!(
        r,
        Err(FrameError::Syntax(
            b"received aggregate frame in non aggregate decoding".to_vec()
        ))
    );
}

#[test]
fn encode_renders_each_frame_type() {
    assert_eq!(Frame::new_simple_string(b"PONG".to_vec()).encode(), b"+PONG\r\n");
    assert_eq!(Frame::new_simple_error(b"oops".to_vec()).encode(), b"-oops\r\n");
    assert_eq!(Frame::new_integer(-42).encode(), b":-42\r\n");
    assert_eq!(Frame::new_bulk_string(b"hi\r\nthere".to_vec()).encode(), b"$9\r\nhi\r\nthere\r\n");
    assert_eq!(Frame::new_bulk_error(b"bad".to_vec()).encode(), b"!3\r\nbad\r\n");
    assert_eq!(Frame::new_bool(true).encode(), b"#t\r\n");
    assert_eq!(Frame::new_bool(false).encode(), b"#f\r\n");
    assert_eq!(Frame::new_null().encode(), b"_\r\n");
}

#[test]
fn round_trip_every_frame_type() {
    // Round trip: decode(encode(f)) == f, leaf frames and nested
    // arrays alike.
    let frames = vec![
        Frame::new_simple_string(b"OK".to_vec()),
        Frame::new_simple_error(b"err".to_vec()),
        Frame::new_integer(i64::MIN),
        Frame::new_integer(i64::MAX),
        Frame::new_integer(0),
        Frame::new_bool(true),
        Frame::new_bool(false),
        Frame::new_null(),
        Frame::new_bulk_string(b"binary\r\n\x00data".to_vec()),
        Frame::new_bulk_error(b"".to_vec()),
        Frame {
            frame_type: FrameID::BigNumber,
            frame_data: FrameData::Simple(b"3492890328409238509324850943850943825024385".to_vec()),
        },
        Frame {
            frame_type: FrameID::Array,
            frame_data: FrameData::Nested(vec![]),
        },
    ];
    for f in frames {
        let bytes = f.encode();
        let (back, used) = decode(&bytes).unwrap();
        assert_eq!(used, bytes.len());
        assert_eq!(back, f);
    }

    // a deeply nested array round trips too
    let mut f = Frame::new_integer(7);
    for _ in 0..100 {
        f = Frame {
            frame_type: FrameID::Array,
            frame_data: FrameData::Nested(vec![f]),
        };
    }
    let bytes = f.encode();
    let (back, used) = decode(&bytes).unwrap();
    assert_eq!(used, bytes.len());
    assert_eq!(back, f);
}

#[test]
fn incremental_decode_matches_whole_decode() {
    // Feeding the encoded form one byte at a time yields the same
    // result as feeding it whole: every strict prefix asks for more
    // bytes, and the full buffer decodes the frame.
    let f = Frame {
        frame_type: FrameID::Array,
        frame_data: FrameData::Nested(vec![
            Frame::new_bulk_string(b"SET".to_vec()),
            Frame::new_bulk_string(b"k".to_vec()),
            Frame::new_integer(5),
        ]),
    };
    let bytes = f.encode();
    let whole = decode(&bytes).unwrap();
    let mut fed: Vec<u8> = Vec::new();
    for (i, b) in bytes.iter().enumerate() {
        fed.push(*b);
        if i + 1 < bytes.len() {
            assert_eq!(decode(&fed), Err(FrameError::Incomplete));
        } else {
            assert_eq!(decode(&fed).unwrap(), whole);
        }
    }
}

#[test]
fn deeply_nested_array_decodes_iteratively() {
    // An array nested ten thousand deep decodes without exhausting
    // the call stack.
    let mut bytes: Vec<u8> = Vec::new();
    for _ in 0..9999 {
        bytes.extend_from_slice(b"*1\r\n");
    }
    bytes.extend_from_slice(b"*0\r\n");
    let (frame, used) = decode(&bytes).unwrap();
    assert_eq!(used, bytes.len());
    assert_eq!(frame.get_id(), FrameID::Array);
    // take the result apart iteratively as well
    let mut stack = vec![frame];
    let mut depth = 0u32;
    while let Some(f) = stack.pop() {
        depth += 1;
        if let Some(children) = f.into_nested() {
            stack.extend(children);
        }
    }
    assert_eq!(depth, 10000);
}
