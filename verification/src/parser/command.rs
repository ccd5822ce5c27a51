//! The frame-to-command layer the session pipeline grew out of: a
//! command tagged with its type plus raw byte arguments, synthesized
//! from a validated array of bulk strings.
//!
//! Errors never escape: any violation becomes a command of type
//! `ERROR` whose single argument is the message sent back to the
//! client.

use vstd::prelude::*;
use vstd::slice::slice_to_vec;

use crate::ascii;
use crate::ascii::clone_bytes;
use crate::command::{
    spec_bulk_of, MSG_UNKNOWN_OPTION_POST, MSG_UNKNOWN_OPTION_PRE, NAME_DEL, NAME_GET, NAME_PING,
    NAME_PX, NAME_SET,
};
use crate::frame::{
    frame_view, frame_wf, frames_view, lemma_frames_view_index, view_wf, views_wf,
    lemma_views_wf_index, Frame, FrameData, FrameDataView, FrameID, FrameView,
};

verus! {

/// The commands this server distinguishes.  `ERROR` is not a wire
/// command: it carries an erroneous reply back to the session.
#[derive(Debug, Clone, Copy, PartialEq, Eq, Structural)]
pub enum CommandType {
    PING,
    GET,
    SET,
    DEL,
    EXPIRE,
    ERROR,
}

/// A typed command with raw byte-string arguments.
#[derive(Debug, PartialEq, Eq)]
pub struct Command {
    pub command_type: CommandType,
    pub args: Vec<Vec<u8>>,
}

impl View for Command {
    type V = (CommandType, Seq<Seq<u8>>);

    open spec fn view(&self) -> (CommandType, Seq<Seq<u8>>) {
        (self.command_type, self.args@.map_values(|a: Vec<u8>| a@))
    }
}

// "PONG"
pub const PONG_REPLY: [u8; 4] = [80, 79, 78, 71];
// "PING command must have at most 1 argument"
pub const MSG_PING_MOST: [u8; 41] = [80, 73, 78, 71, 32, 99, 111, 109, 109, 97, 110, 100, 32, 109, 117, 115, 116, 32, 104, 97, 118, 101, 32, 97, 116, 32, 109, 111, 115, 116, 32, 49, 32, 97, 114, 103, 117, 109, 101, 110, 116];
// "GET command must have at exactly 1 argument"
pub const MSG_GET_EXACT: [u8; 43] = [71, 69, 84, 32, 99, 111, 109, 109, 97, 110, 100, 32, 109, 117, 115, 116, 32, 104, 97, 118, 101, 32, 97, 116, 32, 101, 120, 97, 99, 116, 108, 121, 32, 49, 32, 97, 114, 103, 117, 109, 101, 110, 116];
// "SET should take 2 or 4 arguments"
pub const MSG_SET_TAKES: [u8; 32] = [83, 69, 84, 32, 115, 104, 111, 117, 108, 100, 32, 116, 97, 107, 101, 32, 50, 32, 111, 114, 32, 52, 32, 97, 114, 103, 117, 109, 101, 110, 116, 115];
// "expiration should be a valid number"
pub const MSG_EXPIRATION_NUMBER: [u8; 35] = [101, 120, 112, 105, 114, 97, 116, 105, 111, 110, 32, 115, 104, 111, 117, 108, 100, 32, 98, 101, 32, 97, 32, 118, 97, 108, 105, 100, 32, 110, 117, 109, 98, 101, 114];
// "DEL command must at least one arg"
pub const MSG_DEL_LEAST: [u8; 33] = [68, 69, 76, 32, 99, 111, 109, 109, 97, 110, 100, 32, 109, 117, 115, 116, 32, 97, 116, 32, 108, 101, 97, 115, 116, 32, 111, 110, 101, 32, 97, 114, 103];
// "only array can represent a redis command"
pub const MSG_ONLY_ARRAY_CMD: [u8; 40] = [111, 110, 108, 121, 32, 97, 114, 114, 97, 121, 32, 99, 97, 110, 32, 114, 101, 112, 114, 101, 115, 101, 110, 116, 32, 97, 32, 114, 101, 100, 105, 115, 32, 99, 111, 109, 109, 97, 110, 100];
// "cannot parse command from empty frame array"
pub const MSG_EMPTY_ARRAY: [u8; 43] = [99, 97, 110, 110, 111, 116, 32, 112, 97, 114, 115, 101, 32, 99, 111, 109, 109, 97, 110, 100, 32, 102, 114, 111, 109, 32, 101, 109, 112, 116, 121, 32, 102, 114, 97, 109, 101, 32, 97, 114, 114, 97, 121];
// "invalid frame type: "
pub const MSG_INVALID_TYPE_PRE: [u8; 20] = [105, 110, 118, 97, 108, 105, 100, 32, 102, 114, 97, 109, 101, 32, 116, 121, 112, 101, 58, 32];
// "unknown command '"
pub const MSG_UNKNOWN_CMD_PRE: [u8; 17] = [117, 110, 107, 110, 111, 119, 110, 32, 99, 111, 109, 109, 97, 110, 100, 32, 39];
// "'"
pub const MSG_QUOTE: [u8; 1] = [39];
// "EXPIRE is not implemented"
pub const MSG_EXPIRE_STUB: [u8; 25] = [69, 88, 80, 73, 82, 69, 32, 105, 115, 32, 110, 111, 116, 32, 105, 109, 112, 108, 101, 109, 101, 110, 116, 101, 100];
// "Integer"
pub const TN_INTEGER: [u8; 7] = [73, 110, 116, 101, 103, 101, 114];
// "SimpleString"
pub const TN_SIMPLE_STRING: [u8; 12] = [83, 105, 109, 112, 108, 101, 83, 116, 114, 105, 110, 103];
// "SimpleError"
pub const TN_SIMPLE_ERROR: [u8; 11] = [83, 105, 109, 112, 108, 101, 69, 114, 114, 111, 114];
// "BulkString"
pub const TN_BULK_STRING: [u8; 10] = [66, 117, 108, 107, 83, 116, 114, 105, 110, 103];
// "BulkError"
pub const TN_BULK_ERROR: [u8; 9] = [66, 117, 108, 107, 69, 114, 114, 111, 114];
// "Boolean"
pub const TN_BOOLEAN: [u8; 7] = [66, 111, 111, 108, 101, 97, 110];
// "Null"
pub const TN_NULL: [u8; 4] = [78, 117, 108, 108];
// "BigNumber"
pub const TN_BIG_NUMBER: [u8; 9] = [66, 105, 103, 78, 117, 109, 98, 101, 114];
// "Array"
pub const TN_ARRAY: [u8; 5] = [65, 114, 114, 97, 121];
// "EXPIRE"
pub const NAME_EXPIRE: [u8; 6] = [69, 88, 80, 73, 82, 69];


/// Bulk payloads of a run of frames, which must all carry them.
pub open spec fn spec_bulks_of(vs: Seq<FrameView>) -> Seq<Seq<u8>> {
    vs.map_values(|v: FrameView| spec_bulk_of(v)->0)
}

/// All frames in the run are bulk strings carrying a payload.
pub open spec fn all_bulk(vs: Seq<FrameView>) -> bool {
    forall|i: int|
        0 <= i < vs.len() ==> (#[trigger] vs[i]).id == FrameID::BulkString && spec_bulk_of(
            vs[i],
        ) is Some
}

/// Name of a frame type, as the invalid-frame message spells it.
pub open spec fn spec_type_label(id: FrameID) -> Seq<u8> {
    match id {
        FrameID::Integer => TN_INTEGER@,
        FrameID::SimpleString => TN_SIMPLE_STRING@,
        FrameID::SimpleError => TN_SIMPLE_ERROR@,
        FrameID::BulkString => TN_BULK_STRING@,
        FrameID::BulkError => TN_BULK_ERROR@,
        FrameID::Boolean => TN_BOOLEAN@,
        FrameID::Null => TN_NULL@,
        FrameID::BigNumber => TN_BIG_NUMBER@,
        FrameID::Array => TN_ARRAY@,
    }
}

/// First frame in the run that is not a bulk string, if any.
pub open spec fn first_non_bulk(vs: Seq<FrameView>) -> Option<int>
    decreases vs.len(),
{
    if vs.len() == 0 {
        None
    } else if vs[0].id != FrameID::BulkString {
        Some(0)
    } else {
        match first_non_bulk(vs.drop_first()) {
            Some(j) => Some(j + 1),
            None => None,
        }
    }
}

proof fn lemma_first_non_bulk(vs: Seq<FrameView>)
    ensures
        match first_non_bulk(vs) {
            Some(j) => 0 <= j < vs.len() && vs[j].id != FrameID::BulkString && (forall|k: int|
                0 <= k < j ==> (#[trigger] vs[k]).id == FrameID::BulkString),
            None => forall|k: int|
                0 <= k < vs.len() ==> (#[trigger] vs[k]).id == FrameID::BulkString,
        },
    decreases vs.len(),
{
    if vs.len() > 0 && vs[0].id == FrameID::BulkString {
        lemma_first_non_bulk(vs.drop_first());
        match first_non_bulk(vs.drop_first()) {
            Some(j) => {
                assert(vs.drop_first()[j] == vs[j + 1]);
                assert forall|k: int| 0 <= k < j + 1 implies (#[trigger] vs[k]).id
                    == FrameID::BulkString by {
                    if k > 0 {
                        assert(vs.drop_first()[k - 1] == vs[k]);
                    }
                }
            },
            None => {
                assert forall|k: int| 0 <= k < vs.len() implies (#[trigger] vs[k]).id
                    == FrameID::BulkString by {
                    if k > 0 {
                        assert(vs.drop_first()[k - 1] == vs[k]);
                    }
                }
            },
        }
    }
}

/// The complaint `validate_command_array` raises, if any.
pub open spec fn spec_validate(v: FrameView) -> Option<Seq<u8>> {
    if !(v.id == FrameID::Array && v.data matches FrameDataView::Nested(_)) {
        Some(MSG_ONLY_ARRAY_CMD@)
    } else {
        let children = v.data->Nested_0;
        if children.len() == 0 {
            Some(MSG_EMPTY_ARRAY@)
        } else {
            match first_non_bulk(children) {
                Some(j) => Some(MSG_INVALID_TYPE_PRE@ + spec_type_label(children[j].id)),
                None => None,
            }
        }
    }
}

pub open spec fn spec_parse_ping_command(vs: Seq<FrameView>) -> (CommandType, Seq<Seq<u8>>) {
    if vs.len() > 2 {
        (CommandType::ERROR, seq![MSG_PING_MOST@])
    } else if vs.len() == 2 {
        (CommandType::PING, seq![spec_bulk_of(vs[1])->0])
    } else {
        (CommandType::PING, seq![PONG_REPLY@])
    }
}

pub open spec fn spec_parse_get_command(vs: Seq<FrameView>) -> (CommandType, Seq<Seq<u8>>) {
    if vs.len() != 2 {
        (CommandType::ERROR, seq![MSG_GET_EXACT@])
    } else {
        (CommandType::GET, seq![spec_bulk_of(vs[1])->0])
    }
}

pub open spec fn spec_parse_set_command(vs: Seq<FrameView>) -> (CommandType, Seq<Seq<u8>>) {
    if vs.len() != 3 && vs.len() != 5 {
        (CommandType::ERROR, seq![MSG_SET_TAKES@])
    } else {
        let key = spec_bulk_of(vs[1])->0;
        let value = spec_bulk_of(vs[2])->0;
        if vs.len() == 5 {
            let opt = spec_bulk_of(vs[3])->0;
            if ascii::spec_upper(opt) == NAME_PX@ {
                let exp = spec_bulk_of(vs[4])->0;
                if ascii::spec_parse_u64(exp) is Some {
                    (CommandType::SET, seq![key, value, exp])
                } else {
                    (CommandType::ERROR, seq![MSG_EXPIRATION_NUMBER@])
                }
            } else {
                (CommandType::ERROR, seq![MSG_UNKNOWN_OPTION_PRE@ + opt + MSG_UNKNOWN_OPTION_POST@])
            }
        } else {
            (CommandType::SET, seq![key, value])
        }
    }
}

pub open spec fn spec_parse_del_command(vs: Seq<FrameView>) -> (CommandType, Seq<Seq<u8>>) {
    if vs.len() < 2 {
        (CommandType::ERROR, seq![MSG_DEL_LEAST@])
    } else {
        (CommandType::DEL, spec_bulks_of(vs.drop_first()))
    }
}

/// What `to_command` yields for a given frame.
pub open spec fn spec_to_command(v: FrameView) -> (CommandType, Seq<Seq<u8>>) {
    match spec_validate(v) {
        Some(msg) => (CommandType::ERROR, seq![msg]),
        None => {
            let children = v.data->Nested_0;
            let name = spec_bulk_of(children[0])->0;
            let upper = ascii::spec_upper(name);
            if upper == NAME_PING@ {
                spec_parse_ping_command(children)
            } else if upper == NAME_GET@ {
                spec_parse_get_command(children)
            } else if upper == NAME_SET@ {
                spec_parse_set_command(children)
            } else if upper == NAME_DEL@ {
                spec_parse_del_command(children)
            } else if upper == NAME_EXPIRE@ {
                (CommandType::ERROR, seq![MSG_EXPIRE_STUB@])
            } else {
                (CommandType::ERROR, seq![MSG_UNKNOWN_CMD_PRE@ + upper + MSG_QUOTE@])
            }
        },
    }
}

impl Command {
    pub fn new(cmd_type: CommandType, args: &Vec<Vec<u8>>) -> (r: Command)
        ensures
            r@ == (cmd_type, args@.map_values(|a: Vec<u8>| a@)),
    {
        let mut copied: Vec<Vec<u8>> = Vec::new();
        let mut i: usize = 0;
        while i < args.len()
            invariant
                i <= args@.len(),
                copied@.len() == i,
                forall|j: int| 0 <= j < i ==> (#[trigger] copied@[j])@ == args@[j]@,
            decreases args@.len() - i,
        {
            copied.push(clone_bytes(&args[i]));
            i = i + 1;
        }
        let r = Command { command_type: cmd_type, args: copied };
        proof {
            assert(copied@.map_values(|a: Vec<u8>| a@) =~= args@.map_values(|a: Vec<u8>| a@));
        }
        r
    }

    /// The command names this server recognizes, paired with their
    /// types.
    pub fn make_redis_command_map() -> (r: Vec<(Vec<u8>, CommandType)>)
        ensures
            r@.len() == 5,
            r@[0].0@ == NAME_PING@ && r@[0].1 == CommandType::PING,
            r@[1].0@ == NAME_GET@ && r@[1].1 == CommandType::GET,
            r@[2].0@ == NAME_SET@ && r@[2].1 == CommandType::SET,
            r@[3].0@ == NAME_DEL@ && r@[3].1 == CommandType::DEL,
            r@[4].0@ == NAME_EXPIRE@ && r@[4].1 == CommandType::EXPIRE,
    {
        let mut r: Vec<(Vec<u8>, CommandType)> = Vec::new();
        r.push((slice_to_vec(NAME_PING.as_slice()), CommandType::PING));
        r.push((slice_to_vec(NAME_GET.as_slice()), CommandType::GET));
        r.push((slice_to_vec(NAME_SET.as_slice()), CommandType::SET));
        r.push((slice_to_vec(NAME_DEL.as_slice()), CommandType::DEL));
        r.push((slice_to_vec(NAME_EXPIRE.as_slice()), CommandType::EXPIRE));
        r
    }

    /// `PING` replies `PONG` or echoes its single argument.
    pub fn parse_ping_command(frames: &[Frame]) -> (r: Command)
        requires
            all_bulk(frames_view(frames@)),
        ensures
            r@ == spec_parse_ping_command(frames_view(frames@)),
    {
        proof {
            lemma_frames_view_index(frames@);
        }
        if frames.len() > 2 {
            return Command {
                command_type: CommandType::ERROR,
                args: vec![slice_to_vec(MSG_PING_MOST.as_slice())],
            };
        }
        if frames.len() == 2 {
            let msg = bulk_payload(frames, 1);
            return Command { command_type: CommandType::PING, args: vec![msg] };
        }
        Command {
            command_type: CommandType::PING,
            args: vec![slice_to_vec(PONG_REPLY.as_slice())],
        }
    }

    /// `GET` takes exactly one key.
    pub fn parse_get_command(frames: &[Frame]) -> (r: Command)
        requires
            all_bulk(frames_view(frames@)),
        ensures
            r@ == spec_parse_get_command(frames_view(frames@)),
    {
        proof {
            lemma_frames_view_index(frames@);
        }
        if frames.len() != 2 {
            return Command {
                command_type: CommandType::ERROR,
                args: vec![slice_to_vec(MSG_GET_EXACT.as_slice())],
            };
        }
        let key = bulk_payload(frames, 1);
        Command { command_type: CommandType::GET, args: vec![key] }
    }

    /// `SET` takes a key and value, optionally `PX` and a TTL; the
    /// TTL is kept as the digits the client sent, already checked to
    /// parse.
    pub fn parse_set_command(frames: &[Frame]) -> (r: Command)
        requires
            all_bulk(frames_view(frames@)),
        ensures
            r@ == spec_parse_set_command(frames_view(frames@)),
    {
        proof {
            lemma_frames_view_index(frames@);
        }
        let len = frames.len();
        if len != 3 && len != 5 {
            return Command {
                command_type: CommandType::ERROR,
                args: vec![slice_to_vec(MSG_SET_TAKES.as_slice())],
            };
        }
        let key = bulk_payload(frames, 1);
        let value = bulk_payload(frames, 2);
        if len == 5 {
            let opt = bulk_payload(frames, 3);
            let upper = ascii::to_ascii_upper(opt.as_slice());
            if ascii::bytes_eq(upper.as_slice(), NAME_PX.as_slice()) {
                let exp = bulk_payload(frames, 4);
                if ascii::parse_u64(exp.as_slice()).is_some() {
                    return Command { command_type: CommandType::SET, args: vec![key, value, exp] };
                }
                return Command {
                    command_type: CommandType::ERROR,
                    args: vec![slice_to_vec(MSG_EXPIRATION_NUMBER.as_slice())],
                };
            }
            let mut msg = slice_to_vec(MSG_UNKNOWN_OPTION_PRE.as_slice());
            msg.extend_from_slice(opt.as_slice());
            msg.extend_from_slice(MSG_UNKNOWN_OPTION_POST.as_slice());
            proof {
                assert(msg@ =~= MSG_UNKNOWN_OPTION_PRE@ + opt@ + MSG_UNKNOWN_OPTION_POST@);
            }
            return Command { command_type: CommandType::ERROR, args: vec![msg] };
        }
        Command { command_type: CommandType::SET, args: vec![key, value] }
    }

    /// `DEL` takes one or more keys.
    pub fn parse_del_command(frames: &[Frame]) -> (r: Command)
        requires
            all_bulk(frames_view(frames@)),
        ensures
            r@ == spec_parse_del_command(frames_view(frames@)),
    {
        let ghost vs = frames_view(frames@);
        proof {
            lemma_frames_view_index(frames@);
        }
        let len = frames.len();
        if len < 2 {
            return Command {
                command_type: CommandType::ERROR,
                args: vec![slice_to_vec(MSG_DEL_LEAST.as_slice())],
            };
        }
        let mut keys: Vec<Vec<u8>> = Vec::new();
        let mut i: usize = 1;
        while i < len
            invariant
                1 <= i <= len,
                len == frames@.len(),
                vs == frames_view(frames@),
                vs.len() == len,
                all_bulk(vs),
                forall|j: int| 0 <= j < len ==> vs[j] == frame_view(#[trigger] frames@[j]),
                keys@.len() == i - 1,
                forall|j: int| 0 <= j < i - 1 ==> (#[trigger] keys@[j])@ == spec_bulk_of(
                    vs[j + 1],
                )->0,
            decreases len - i,
        {
            let k = bulk_payload(frames, i);
            keys.push(k);
            i = i + 1;
        }
        proof {
            assert(keys@.map_values(|a: Vec<u8>| a@) =~= spec_bulks_of(vs.drop_first()));
        }
        Command { command_type: CommandType::DEL, args: keys }
    }

    /// `EXPIRE` is recognized but not implemented; it reports so
    /// rather than doing anything.
    pub fn parse_expire_command(frames: &[Frame]) -> (r: Command)
        ensures
            r@ == (CommandType::ERROR, seq![MSG_EXPIRE_STUB@]),
    {
        Command {
            command_type: CommandType::ERROR,
            args: vec![slice_to_vec(MSG_EXPIRE_STUB.as_slice())],
        }
    }
}

/// Bulk payload of the frame at `i`, which the caller has validated.
fn bulk_payload(frames: &[Frame], i: usize) -> (r: Vec<u8>)
    requires
        i < frames@.len(),
        spec_bulk_of(frames_view(frames@)[i as int]) is Some,
    ensures
        r@ == spec_bulk_of(frames_view(frames@)[i as int])->0,
{
    proof {
        lemma_frames_view_index(frames@);
    }
    match frames[i].get_bulk() {
        Some((_, b)) => slice_to_vec(b.as_slice()),
        None => {
            proof {
                assert(false);
            }
            vstd::pervasive::unreached()
        },
    }
}

impl Frame {
    /// Reject a frame that cannot be a command: only a non-empty
    /// array of bulk strings qualifies.  Returns the error command
    /// to reply with, or nothing when the frame is acceptable.
    pub fn validate_command_array(&self) -> (r: Option<Command>)
        requires
            frame_wf(*self),
        ensures
            match r {
                Some(c) => spec_validate(self@) matches Some(msg) && c@ == (
                    CommandType::ERROR,
                    seq![msg],
                ),
                None => spec_validate(self@) is None,
            },
    {
        let children = match self.get_array() {
            Some(c) => c,
            None => {
                return Some(
                    Command {
                        command_type: CommandType::ERROR,
                        args: vec![slice_to_vec(MSG_ONLY_ARRAY_CMD.as_slice())],
                    },
                );
            },
        };
        let ghost cv = frames_view(children@);
        proof {
            lemma_frames_view_index(children@);
            assert(self@.data == FrameDataView::Nested(cv));
        }
        if children.len() == 0 {
            return Some(
                Command {
                    command_type: CommandType::ERROR,
                    args: vec![slice_to_vec(MSG_EMPTY_ARRAY.as_slice())],
                },
            );
        }
        let mut i: usize = 0;
        while i < children.len()
            invariant
                i <= children@.len(),
                self.frame_type == FrameID::Array,
                self.frame_data matches FrameData::Nested(c) && c == *children,
                self@.data == FrameDataView::Nested(cv),
                cv == frames_view(children@),
                cv.len() == children@.len(),
                forall|j: int| 0 <= j < children@.len() ==> cv[j] == frame_view(
                    #[trigger] children@[j],
                ),
                forall|k: int| 0 <= k < i ==> (#[trigger] cv[k]).id == FrameID::BulkString,
            decreases children@.len() - i,
        {
            let id = children[i].get_id();
            if !(id == FrameID::BulkString) {
                proof {
                    lemma_first_non_bulk(cv);
                    match first_non_bulk(cv) {
                        Some(j) => {
                            if j < i {
                                assert(cv[j].id == FrameID::BulkString);
                            }
                            if j > i {
                                assert(cv[i as int].id == FrameID::BulkString);
                            }
                            assert(j == i);
                        },
                        None => {
                            assert(cv[i as int].id == FrameID::BulkString);
                        },
                    }
                }
                let mut msg = slice_to_vec(MSG_INVALID_TYPE_PRE.as_slice());
                let tn = type_label(id);
                msg.extend_from_slice(tn.as_slice());
                proof {
                    assert(msg@ =~= MSG_INVALID_TYPE_PRE@ + spec_type_label(id));
                    assert(cv[i as int] == frame_view(children@[i as int]));
                    assert(cv[i as int].id == id);
                    assert(spec_validate(self@) == Some(MSG_INVALID_TYPE_PRE@ + spec_type_label(id)));
                }
                return Some(Command { command_type: CommandType::ERROR, args: vec![msg] });
            }
            i = i + 1;
        }
        proof {
            lemma_first_non_bulk(cv);
            match first_non_bulk(cv) {
                Some(j) => {
                    assert(cv[j].id == FrameID::BulkString);
                },
                None => {},
            }
        }
        None
    }

    /// Synthesize the command a frame carries, validating lazily as
    /// the grammar allows.
    pub fn to_command(&self) -> (r: Command)
        requires
            frame_wf(*self),
        ensures
            r@ == spec_to_command(self@),
    {
        if let Some(err) = self.validate_command_array() {
            return err;
        }
        let children = match self.get_array() {
            Some(c) => c,
            None => {
                proof {
                    assert(false);
                }
                vstd::pervasive::unreached()
            },
        };
        let ghost cv = frames_view(children@);
        proof {
            lemma_frames_view_index(children@);
            lemma_views_wf_index(cv);
            lemma_first_non_bulk(cv);
            assert(self@.data == FrameDataView::Nested(cv));
            assert forall|j: int| 0 <= j < cv.len() implies (#[trigger] cv[j]).id
                == FrameID::BulkString && spec_bulk_of(cv[j]) is Some by {
                assert(view_wf(cv[j]));
            }
            assert(all_bulk(cv));
        }
        let cs = children.as_slice();
        let name = match cs[0].get_bulk() {
            Some((_, b)) => b,
            None => {
                proof {
                    assert(false);
                }
                vstd::pervasive::unreached()
            },
        };
        let upper = ascii::to_ascii_upper(name.as_slice());
        if ascii::bytes_eq(upper.as_slice(), NAME_PING.as_slice()) {
            Command::parse_ping_command(cs)
        } else if ascii::bytes_eq(upper.as_slice(), NAME_GET.as_slice()) {
            Command::parse_get_command(cs)
        } else if ascii::bytes_eq(upper.as_slice(), NAME_SET.as_slice()) {
            Command::parse_set_command(cs)
        } else if ascii::bytes_eq(upper.as_slice(), NAME_DEL.as_slice()) {
            Command::parse_del_command(cs)
        } else if ascii::bytes_eq(upper.as_slice(), NAME_EXPIRE.as_slice()) {
            Command::parse_expire_command(cs)
        } else {
            let mut msg = slice_to_vec(MSG_UNKNOWN_CMD_PRE.as_slice());
            msg.extend_from_slice(upper.as_slice());
            msg.extend_from_slice(MSG_QUOTE.as_slice());
            proof {
                assert(msg@ =~= MSG_UNKNOWN_CMD_PRE@ + ascii::spec_upper(name@) + MSG_QUOTE@);
            }
            Command { command_type: CommandType::ERROR, args: vec![msg] }
        }
    }
}

/// Printable name of a frame type.
fn type_label(id: FrameID) -> (r: Vec<u8>)
    ensures
        r@ == spec_type_label(id),
{
    match id {
        FrameID::Integer => slice_to_vec(TN_INTEGER.as_slice()),
        FrameID::SimpleString => slice_to_vec(TN_SIMPLE_STRING.as_slice()),
        FrameID::SimpleError => slice_to_vec(TN_SIMPLE_ERROR.as_slice()),
        FrameID::BulkString => slice_to_vec(TN_BULK_STRING.as_slice()),
        FrameID::BulkError => slice_to_vec(TN_BULK_ERROR.as_slice()),
        FrameID::Boolean => slice_to_vec(TN_BOOLEAN.as_slice()),
        FrameID::Null => slice_to_vec(TN_NULL.as_slice()),
        FrameID::BigNumber => slice_to_vec(TN_BIG_NUMBER.as_slice()),
        FrameID::Array => slice_to_vec(TN_ARRAY.as_slice()),
    }
}

} // verus!
