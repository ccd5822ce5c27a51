use mredis::codec::decode;
use mredis::db::Storage;
use mredis::frame::FrameError;
use mredis::server::Admission;
use mredis::session::{
    execute, handle_decode_error, respond_if_readonly, respond_to_frame, resync_after_error,
    ErrorDisposition,
};

/// One request/response exchange, as the session loop performs it:
/// decode the request bytes, apply the command, encode the reply.
fn exchange(storage: &mut Storage, request: &[u8], now_ms: u64) -> Vec<u8> {
    let buf = request.to_vec();
    let (frame, used) = decode(&buf).expect("request should decode");
    assert_eq!(used, request.len(), "the decoder consumes exactly one frame");
    let reply = respond_to_frame(storage, frame, now_ms);
    reply.encode()
}

#[test]
fn wire_ping_replies_pong() {
    let mut storage = Storage::new(100, 8);
    let reply = exchange(&mut storage, b"*1\r\n$4\r\nPING\r\n", 0);
    assert_eq!(reply, b"+PONG\r\n");
}

#[test]
fn wire_ping_echoes_message() {
    let mut storage = Storage::new(100, 8);
    let reply = exchange(&mut storage, b"*2\r\n$4\r\nPING\r\n$5\r\nhello\r\n", 0);
    assert_eq!(reply, b"$5\r\nhello\r\n");
}

#[test]
fn wire_set_then_get() {
    let mut storage = Storage::new(100, 8);
    let reply = exchange(&mut storage, b"*3\r\n$3\r\nSET\r\n$1\r\nk\r\n$1\r\nv\r\n", 0);
    assert_eq!(reply, b"+OK\r\n");
    let reply = exchange(&mut storage, b"*2\r\n$3\r\nGET\r\n$1\r\nk\r\n", 0);
    assert_eq!(reply, b"+v\r\n");
}

#[test]
fn wire_set_with_ttl_expires() {
    let mut storage = Storage::new(100, 8);
    let epoch = std::time::Instant::now();
    let now = |e: &std::time::Instant| e.elapsed().as_millis() as u64;
    let reply = exchange(
        &mut storage,
        b"*5\r\n$3\r\nSET\r\n$1\r\nk\r\n$1\r\nv\r\n$2\r\nPX\r\n$2\r\n10\r\n",
        now(&epoch),
    );
    assert_eq!(reply, b"+OK\r\n");
    // sleep 50 ms, then the entry has expired
    let start = std::time::Instant::now();
    while start.elapsed() < std::time::Duration::from_millis(50) {}
    let reply = exchange(&mut storage, b"*2\r\n$3\r\nGET\r\n$1\r\nk\r\n", now(&epoch));
    assert_eq!(reply, b"_\r\n");
}

#[test]
fn wire_del_counts_then_zero() {
    let mut storage = Storage::new(100, 8);
    exchange(&mut storage, b"*3\r\n$3\r\nSET\r\n$2\r\nk1\r\n$1\r\nv\r\n", 0);
    exchange(&mut storage, b"*3\r\n$3\r\nSET\r\n$2\r\nk2\r\n$1\r\nv\r\n", 0);
    let reply = exchange(&mut storage, b"*3\r\n$3\r\nDEL\r\n$2\r\nk1\r\n$2\r\nk2\r\n", 0);
    assert_eq!(reply, b":2\r\n");
    let reply = exchange(&mut storage, b"*3\r\n$3\r\nDEL\r\n$2\r\nk1\r\n$2\r\nk2\r\n", 0);
    assert_eq!(reply, b":0\r\n");
}

#[test]
fn wire_unknown_command_is_reported() {
    let mut storage = Storage::new(100, 8);
    let reply = exchange(&mut storage, b"*1\r\n$3\r\nFOO\r\n", 0);
    assert_eq!(reply, b"-unknown command: FOO\r\n");
}

#[test]
fn wire_unknown_set_option_is_rejected() {
    let mut storage = Storage::new(100, 8);
    let reply = exchange(
        &mut storage,
        b"*5\r\n$3\r\nSET\r\n$1\r\nk\r\n$1\r\nv\r\n$2\r\nEX\r\n$2\r\n10\r\n",
        0,
    );
    assert_eq!(reply, b"-unknown option 'EX' for SET command\r\n");
    // nothing was stored
    let reply = exchange(&mut storage, b"*2\r\n$3\r\nGET\r\n$1\r\nk\r\n", 0);
    assert_eq!(reply, b"_\r\n");
}

#[test]
fn wire_arity_error_is_reported() {
    let mut storage = Storage::new(100, 8);
    let reply = exchange(&mut storage, b"*2\r\n$3\r\nSET\r\n$1\r\nk\r\n", 0);
    assert_eq!(reply, b"-SET should take 2 or 4 arguments\r\n");
}

#[test]
fn readonly_path_matches_the_write_path() {
    // the shared-borrow fast path answers reads itself and hands
    // writes back for exclusive execution, as the server loop uses it
    let mut storage = Storage::new(100, 8);
    let decode_one = |bytes: &[u8]| decode(&bytes.to_vec()).unwrap().0;

    let frame = decode_one(b"*1\r\n$4\r\nPING\r\n");
    let reply = respond_if_readonly(&storage, frame, 0).unwrap();
    assert_eq!(reply.encode(), b"+PONG\r\n");

    let frame = decode_one(b"*3\r\n$3\r\nSET\r\n$1\r\nk\r\n$1\r\nv\r\n");
    let cmd = respond_if_readonly(&storage, frame, 0).unwrap_err();
    let reply = execute(&mut storage, cmd, 0);
    assert_eq!(reply.encode(), b"+OK\r\n");

    let frame = decode_one(b"*2\r\n$3\r\nGET\r\n$1\r\nk\r\n");
    let reply = respond_if_readonly(&storage, frame, 0).unwrap();
    assert_eq!(reply.encode(), b"+v\r\n");

    let frame = decode_one(b"*1\r\n$3\r\nFOO\r\n");
    let reply = respond_if_readonly(&storage, frame, 0).unwrap();
    assert_eq!(reply.encode(), b"-unknown command: FOO\r\n");
}

#[test]
fn resync_skips_exactly_the_malformed_line() {
    // after an error the session resumes at the next line terminator
    let mut buf = b"#n\r\n*1\r\n$4\r\nPING\r\n".to_vec();
    assert!(decode(&buf).is_err());
    let skip = resync_after_error(&buf);
    assert_eq!(skip, 4);
    buf.drain(..skip);
    let mut storage = Storage::new(100, 8);
    let (frame, _) = decode(&buf).unwrap();
    let reply = respond_to_frame(&mut storage, frame, 0);
    assert_eq!(reply.encode(), b"+PONG\r\n");
    // with no terminator yet, everything pending is dropped
    let garbage = b"@@@".to_vec();
    assert_eq!(resync_after_error(&garbage), 3);
}

#[test]
fn admission_caps_concurrent_sessions() {
    // with max_conn = 3, the fourth concurrent session is admitted
    // only after one of the first three releases its permit
    let mut admission = Admission::new(3);
    assert!(admission.try_acquire());
    assert!(admission.try_acquire());
    assert!(admission.try_acquire());
    assert!(!admission.try_acquire(), "the cap holds");
    admission.release();
    assert!(admission.try_acquire(), "a freed permit admits the next session");
    assert!(!admission.try_acquire());
}

#[test]
fn decode_errors_follow_session_policy() {
    assert!(matches!(
        handle_decode_error(&FrameError::Eof),
        ErrorDisposition::Close
    ));
    assert!(matches!(
        handle_decode_error(&FrameError::FatalNetwork),
        ErrorDisposition::Close
    ));
    match handle_decode_error(&FrameError::Unknown) {
        ErrorDisposition::Reply(f) => {
            assert_eq!(f.encode(), b"-unable to identify the frame type\r\n");
        },
        ErrorDisposition::Close => panic!("non-fatal errors keep the session"),
    }
    match handle_decode_error(&FrameError::Invalid) {
        ErrorDisposition::Reply(f) => {
            assert_eq!(f.encode(), b"-frame is not correctly formatted\r\n");
        },
        ErrorDisposition::Close => panic!("non-fatal errors keep the session"),
    }
}
