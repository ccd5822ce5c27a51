use mredis::command::Command as CmdEnum;
use mredis::frame::{Frame, FrameData, FrameError, FrameID};
use mredis::parser::command::{Command, CommandType};

#[test]
fn test_frame_to_command_ping() {
    let ping_frame = Frame {
        frame_type: FrameID::Array,
        frame_data: FrameData::Nested(vec![Frame::new_bulk_string(b"PING".to_vec())]),
    };
    let response = Command::new(CommandType::PING, &vec![b"PONG".to_vec()]);
    assert_eq!(
        ping_frame.to_command(),
        response,
        "can parse ping command without args"
    );

    let ping_frame = Frame {
        frame_type: FrameID::Array,
        frame_data: FrameData::Nested(vec![
            Frame::new_bulk_string(b"PING".to_vec()),
            Frame::new_bulk_string(b"Hello".to_vec()),
        ]),
    };
    let response = Command::new(CommandType::PING, &vec![b"Hello".to_vec()]);
    assert_eq!(
        ping_frame.to_command(),
        response,
        "can parse ping command with args"
    );

    let ping_frame = Frame {
        frame_type: FrameID::Array,
        frame_data: FrameData::Nested(vec![
            Frame::new_bulk_string(b"PING".to_vec()),
            Frame::new_bulk_string(b"Hello".to_vec()),
            Frame::new_bulk_string(b"World".to_vec()),
        ]),
    };
    let response = Command::new(
        CommandType::ERROR,
        &vec![b"PING command must have at most 1 argument".to_vec()],
    );
    assert_eq!(
        ping_frame.to_command(),
        response,
        "can spot ping command with wrong number of args"
    );
}

#[test]
fn test_frame_to_command_unknown() {
    let ping_frame = Frame {
        frame_type: FrameID::Array,
        frame_data: FrameData::Nested(vec![
            Frame::new_bulk_string(b"PIN".to_vec()),
            Frame::new_bulk_string(b"Hello".to_vec()),
            Frame::new_bulk_string(b"World".to_vec()),
        ]),
    };
    let response = Command::new(
        CommandType::ERROR,
        &vec![b"unknown command 'PIN'".to_vec()],
    );
    assert_eq!(
        ping_frame.to_command(),
        response,
        "can spot ping command with wrong number of args"
    );
}

#[test]
fn to_command_rejects_non_commands() {
    let not_array = Frame::new_integer(5);
    let c = not_array.to_command();
    assert_eq!(c.command_type, CommandType::ERROR);
    assert_eq!(c.args, vec![b"only array can represent a redis command".to_vec()]);

    let empty = Frame {
        frame_type: FrameID::Array,
        frame_data: FrameData::Nested(vec![]),
    };
    let c = empty.to_command();
    assert_eq!(c.command_type, CommandType::ERROR);
    assert_eq!(
        c.args,
        vec![b"cannot parse command from empty frame array".to_vec()]
    );

    let mixed = Frame {
        frame_type: FrameID::Array,
        frame_data: FrameData::Nested(vec![
            Frame::new_bulk_string(b"GET".to_vec()),
            Frame::new_integer(9),
        ]),
    };
    let c = mixed.to_command();
    assert_eq!(c.command_type, CommandType::ERROR);
    assert_eq!(c.args, vec![b"invalid frame type: Integer".to_vec()]);
}

#[test]
fn to_command_set_variants() {
    let set5 = Frame {
        frame_type: FrameID::Array,
        frame_data: FrameData::Nested(vec![
            Frame::new_bulk_string(b"set".to_vec()),
            Frame::new_bulk_string(b"k".to_vec()),
            Frame::new_bulk_string(b"v".to_vec()),
            Frame::new_bulk_string(b"px".to_vec()),
            Frame::new_bulk_string(b"250".to_vec()),
        ]),
    };
    let c = set5.to_command();
    assert_eq!(c.command_type, CommandType::SET);
    assert_eq!(c.args, vec![b"k".to_vec(), b"v".to_vec(), b"250".to_vec()]);

    let bad_exp = Frame {
        frame_type: FrameID::Array,
        frame_data: FrameData::Nested(vec![
            Frame::new_bulk_string(b"SET".to_vec()),
            Frame::new_bulk_string(b"k".to_vec()),
            Frame::new_bulk_string(b"v".to_vec()),
            Frame::new_bulk_string(b"PX".to_vec()),
            Frame::new_bulk_string(b"soon".to_vec()),
        ]),
    };
    let c = bad_exp.to_command();
    assert_eq!(c.command_type, CommandType::ERROR);
    assert_eq!(c.args, vec![b"expiration should be a valid number".to_vec()]);

    let bad_opt = Frame {
        frame_type: FrameID::Array,
        frame_data: FrameData::Nested(vec![
            Frame::new_bulk_string(b"SET".to_vec()),
            Frame::new_bulk_string(b"k".to_vec()),
            Frame::new_bulk_string(b"v".to_vec()),
            Frame::new_bulk_string(b"EX".to_vec()),
            Frame::new_bulk_string(b"10".to_vec()),
        ]),
    };
    let c = bad_opt.to_command();
    assert_eq!(c.command_type, CommandType::ERROR);
    assert_eq!(c.args, vec![b"unknown option 'EX' for SET command".to_vec()]);
}

fn array_of_bulks(words: &[&[u8]]) -> Frame {
    let children: Vec<Frame> = words
        .iter()
        .map(|w| Frame::new_bulk_string(w.to_vec()))
        .collect();
    Frame {
        frame_type: FrameID::Array,
        frame_data: FrameData::Nested(children),
    }
}

#[test]
fn from_frame_parses_each_command() {
    let c = CmdEnum::from_frame(array_of_bulks(&[b"ping"])).unwrap();
    assert_eq!(c, CmdEnum::Ping(None));

    let c = CmdEnum::from_frame(array_of_bulks(&[b"PING", b"hey"])).unwrap();
    assert_eq!(c, CmdEnum::Ping(Some(b"hey".to_vec())));

    let c = CmdEnum::from_frame(array_of_bulks(&[b"GET", b"k1"])).unwrap();
    assert_eq!(c, CmdEnum::Get(b"k1".to_vec()));

    let c = CmdEnum::from_frame(array_of_bulks(&[b"SET", b"k1", b"v1"])).unwrap();
    assert_eq!(c, CmdEnum::Store(b"k1".to_vec(), b"v1".to_vec(), 0));

    let c = CmdEnum::from_frame(array_of_bulks(&[b"SET", b"k1", b"v1", b"px", b"700"])).unwrap();
    assert_eq!(c, CmdEnum::Store(b"k1".to_vec(), b"v1".to_vec(), 700));

    let c = CmdEnum::from_frame(array_of_bulks(&[b"del", b"a", b"b"])).unwrap();
    assert_eq!(c, CmdEnum::Del(vec![b"a".to_vec(), b"b".to_vec()]));

    let c = CmdEnum::from_frame(array_of_bulks(&[b"FLUSH"])).unwrap();
    assert_eq!(c, CmdEnum::Unknown(b"FLUSH".to_vec()));
}

#[test]
fn from_frame_reports_errors() {
    let e = CmdEnum::from_frame(Frame::new_null()).unwrap_err();
    assert_eq!(
        e,
        FrameError::Syntax(b"commands can only be frame array".to_vec())
    );

    let e = CmdEnum::from_frame(array_of_bulks(&[b"PING", b"a", b"b"])).unwrap_err();
    assert_eq!(
        e,
        FrameError::Syntax(b"PING command takes at most 1 argument".to_vec())
    );

    let e = CmdEnum::from_frame(array_of_bulks(&[b"GET", b"k", b"extra"])).unwrap_err();
    assert_eq!(
        e,
        FrameError::Syntax(b"GET command must have at exactly 1 argument".to_vec())
    );

    let e = CmdEnum::from_frame(array_of_bulks(&[b"SET", b"k"])).unwrap_err();
    assert_eq!(
        e,
        FrameError::Syntax(b"SET should take 2 or 4 arguments".to_vec())
    );

    let e = CmdEnum::from_frame(array_of_bulks(&[b"SET", b"k", b"v", b"EX", b"10"])).unwrap_err();
    assert_eq!(
        e,
        FrameError::Syntax(b"unknown option 'EX' for SET command".to_vec()),
        "the five-word SET admits no option but PX"
    );

    let e = CmdEnum::from_frame(array_of_bulks(&[b"SET", b"k", b"v", b"PX", b"x9"])).unwrap_err();
    assert_eq!(e, FrameError::UTF8ToInt);

    let e = CmdEnum::from_frame(array_of_bulks(&[b"DEL"])).unwrap_err();
    assert_eq!(
        e,
        FrameError::Syntax(b"DEL command takes at least one key".to_vec())
    );
}

#[test]
fn command_map_lists_recognized_names() {
    let map = Command::make_redis_command_map();
    assert_eq!(map.len(), 5);
    assert_eq!(map[0], (b"PING".to_vec(), CommandType::PING));
    assert_eq!(map[1], (b"GET".to_vec(), CommandType::GET));
    assert_eq!(map[2], (b"SET".to_vec(), CommandType::SET));
    assert_eq!(map[3], (b"DEL".to_vec(), CommandType::DEL));
    assert_eq!(map[4], (b"EXPIRE".to_vec(), CommandType::EXPIRE));
}
