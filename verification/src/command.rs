//! Commands, decoded from a top-level array of bulk strings.
//!
//! `Command::from_frame` validates lazily, as the session needs it:
//! the frame must be an array whose first child is a bulk string
//! naming the command; arity and numeric checks happen only for
//! recognized names.  `spec_from_frame` is the exact mathematical
//! account of what comes out, including which error and message.

use vstd::prelude::*;
use vstd::slice::slice_to_vec;

use crate::ascii;
use crate::frame::{
    frame_view, frames_view, lemma_frames_view_index, Frame, FrameData, FrameDataView, FrameError,
    FrameID, FrameView,
};

verus! {

/// A client command with its arguments; TTLs are milliseconds, `0`
/// meaning no expiry.
#[derive(Debug, PartialEq, Eq)]
pub enum Command {
    Ping(Option<Vec<u8>>),
    Store(Vec<u8>, Vec<u8>, u64),
    Get(Vec<u8>),
    Del(Vec<Vec<u8>>),
    Unknown(Vec<u8>),
}

/// Mathematical model of a command.
pub enum CommandModel {
    Ping(Option<Seq<u8>>),
    Store(Seq<u8>, Seq<u8>, u64),
    Get(Seq<u8>),
    Del(Seq<Seq<u8>>),
    Unknown(Seq<u8>),
}

impl View for Command {
    type V = CommandModel;

    open spec fn view(&self) -> CommandModel {
        match self {
            Command::Ping(m) => CommandModel::Ping(
                match m {
                    Some(v) => Some(v@),
                    None => None,
                },
            ),
            Command::Store(k, v, ttl) => CommandModel::Store(k@, v@, *ttl),
            Command::Get(k) => CommandModel::Get(k@),
            Command::Del(keys) => CommandModel::Del(keys@.map_values(|k: Vec<u8>| k@)),
            Command::Unknown(name) => CommandModel::Unknown(name@),
        }
    }
}

/// How a frame can fail to be a command: a syntax complaint with its
/// message, or a TTL that does not parse as a number.
pub enum CommandFailure {
    Syntax(Seq<u8>),
    IntParse,
}

// "commands can only be frame array"
pub const MSG_ONLY_ARRAY: [u8; 32] = [
    99,
    111,
    109,
    109,
    97,
    110,
    100,
    115,
    32,
    99,
    97,
    110,
    32,
    111,
    110,
    108,
    121,
    32,
    98,
    101,
    32,
    102,
    114,
    97,
    109,
    101,
    32,
    97,
    114,
    114,
    97,
    121,
];

// "RESP command name should be of type bulk frame"
pub const MSG_NAME_BULK: [u8; 46] = [
    82,
    69,
    83,
    80,
    32,
    99,
    111,
    109,
    109,
    97,
    110,
    100,
    32,
    110,
    97,
    109,
    101,
    32,
    115,
    104,
    111,
    117,
    108,
    100,
    32,
    98,
    101,
    32,
    111,
    102,
    32,
    116,
    121,
    112,
    101,
    32,
    98,
    117,
    108,
    107,
    32,
    102,
    114,
    97,
    109,
    101,
];

// "RESP args should be of type bulk frame"
pub const MSG_ARGS_BULK: [u8; 38] = [
    82,
    69,
    83,
    80,
    32,
    97,
    114,
    103,
    115,
    32,
    115,
    104,
    111,
    117,
    108,
    100,
    32,
    98,
    101,
    32,
    111,
    102,
    32,
    116,
    121,
    112,
    101,
    32,
    98,
    117,
    108,
    107,
    32,
    102,
    114,
    97,
    109,
    101,
];

// "PING command takes at most 1 argument"
pub const MSG_PING_ARITY: [u8; 37] = [
    80,
    73,
    78,
    71,
    32,
    99,
    111,
    109,
    109,
    97,
    110,
    100,
    32,
    116,
    97,
    107,
    101,
    115,
    32,
    97,
    116,
    32,
    109,
    111,
    115,
    116,
    32,
    49,
    32,
    97,
    114,
    103,
    117,
    109,
    101,
    110,
    116,
];


// "GET command must have at exactly 1 argument"
pub const MSG_GET_ARITY: [u8; 43] = [
    71,
    69,
    84,
    32,
    99,
    111,
    109,
    109,
    97,
    110,
    100,
    32,
    109,
    117,
    115,
    116,
    32,
    104,
    97,
    118,
    101,
    32,
    97,
    116,
    32,
    101,
    120,
    97,
    99,
    116,
    108,
    121,
    32,
    49,
    32,
    97,
    114,
    103,
    117,
    109,
    101,
    110,
    116,
];

// "unknown option '"
pub const MSG_UNKNOWN_OPTION_PRE: [u8; 16] = [
    117,
    110,
    107,
    110,
    111,
    119,
    110,
    32,
    111,
    112,
    116,
    105,
    111,
    110,
    32,
    39,
];

// "' for SET command"
pub const MSG_UNKNOWN_OPTION_POST: [u8; 17] = [
    39,
    32,
    102,
    111,
    114,
    32,
    83,
    69,
    84,
    32,
    99,
    111,
    109,
    109,
    97,
    110,
    100,
];

// "SET should take 2 or 4 arguments"
pub const MSG_SET_ARITY: [u8; 32] = [
    83,
    69,
    84,
    32,
    115,
    104,
    111,
    117,
    108,
    100,
    32,
    116,
    97,
    107,
    101,
    32,
    50,
    32,
    111,
    114,
    32,
    52,
    32,
    97,
    114,
    103,
    117,
    109,
    101,
    110,
    116,
    115,
];

// "DEL command takes at least one key"
pub const MSG_DEL_ARITY: [u8; 34] = [
    68,
    69,
    76,
    32,
    99,
    111,
    109,
    109,
    97,
    110,
    100,
    32,
    116,
    97,
    107,
    101,
    115,
    32,
    97,
    116,
    32,
    108,
    101,
    97,
    115,
    116,
    32,
    111,
    110,
    101,
    32,
    107,
    101,
    121,
];

// "PING"
pub const NAME_PING: [u8; 4] = [80, 73, 78, 71];

// "GET"
pub const NAME_GET: [u8; 3] = [71, 69, 84];

// "SET"
pub const NAME_SET: [u8; 3] = [83, 69, 84];

// "DEL"
pub const NAME_DEL: [u8; 3] = [68, 69, 76];

// "PX"
pub const NAME_PX: [u8; 2] = [80, 88];

/// The bulk payload of a frame, whatever its tag says.
pub open spec fn spec_bulk_of(v: FrameView) -> Option<Seq<u8>> {
    match v.data {
        FrameDataView::Bulk(b) => Some(b),
        _ => None,
    }
}

pub open spec fn spec_get_string(args: Seq<FrameView>, i: int) -> Result<Seq<u8>, CommandFailure>
    recommends
        0 <= i < args.len(),
{
    match spec_bulk_of(args[i]) {
        Some(b) => Ok(b),
        None => Err(CommandFailure::Syntax(MSG_ARGS_BULK@)),
    }
}

pub open spec fn spec_parse_ping(args: Seq<FrameView>) -> Result<CommandModel, CommandFailure> {
    if args.len() == 0 {
        Ok(CommandModel::Ping(None))
    } else if args.len() == 1 {
        match spec_get_string(args, 0) {
            Ok(b) => Ok(CommandModel::Ping(Some(b))),
            Err(e) => Err(e),
        }
    } else {
        Err(CommandFailure::Syntax(MSG_PING_ARITY@))
    }
}

pub open spec fn spec_parse_get(args: Seq<FrameView>) -> Result<CommandModel, CommandFailure> {
    if args.len() != 1 {
        Err(CommandFailure::Syntax(MSG_GET_ARITY@))
    } else {
        match spec_get_string(args, 0) {
            Ok(b) => Ok(CommandModel::Get(b)),
            Err(e) => Err(e),
        }
    }
}

pub open spec fn spec_parse_set(args: Seq<FrameView>) -> Result<CommandModel, CommandFailure> {
    if args.len() != 2 && args.len() != 4 {
        Err(CommandFailure::Syntax(MSG_SET_ARITY@))
    } else {
        match spec_get_string(args, 0) {
            Err(e) => Err(e),
            Ok(key) => match spec_get_string(args, 1) {
                Err(e) => Err(e),
                Ok(value) => {
                    if args.len() > 2 {
                        match spec_get_string(args, 2) {
                            Err(e) => Err(e),
                            Ok(opt) => {
                                if ascii::spec_upper(opt) == NAME_PX@ {
                                    match spec_get_string(args, 3) {
                                        Err(e) => Err(e),
                                        Ok(exp) => match ascii::spec_parse_u64(exp) {
                                            Some(t) => Ok(CommandModel::Store(key, value, t)),
                                            None => Err(CommandFailure::IntParse),
                                        },
                                    }
                                } else {
                                    Err(
                                        CommandFailure::Syntax(
                                            MSG_UNKNOWN_OPTION_PRE@ + opt
                                                + MSG_UNKNOWN_OPTION_POST@,
                                        ),
                                    )
                                }
                            },
                        }
                    } else {
                        Ok(CommandModel::Store(key, value, 0))
                    }
                },
            },
        }
    }
}

pub open spec fn spec_collect_keys(args: Seq<FrameView>) -> Result<Seq<Seq<u8>>, CommandFailure>
    decreases args.len(),
{
    if args.len() == 0 {
        Ok(Seq::empty())
    } else {
        match spec_get_string(args, 0) {
            Err(e) => Err(e),
            Ok(k) => match spec_collect_keys(args.drop_first()) {
                Err(e) => Err(e),
                Ok(rest) => Ok(seq![k] + rest),
            },
        }
    }
}

pub open spec fn spec_parse_del(args: Seq<FrameView>) -> Result<CommandModel, CommandFailure> {
    if args.len() == 0 {
        Err(CommandFailure::Syntax(MSG_DEL_ARITY@))
    } else {
        match spec_collect_keys(args) {
            Ok(keys) => Ok(CommandModel::Del(keys)),
            Err(e) => Err(e),
        }
    }
}

/// What `Command::from_frame` yields for a given frame.
pub open spec fn spec_from_frame(v: FrameView) -> Result<CommandModel, CommandFailure> {
    if !(v.id == FrameID::Array && v.data matches FrameDataView::Nested(_)) {
        Err(CommandFailure::Syntax(MSG_ONLY_ARRAY@))
    } else {
        let children = v.data->Nested_0;
        if children.len() == 0 || spec_bulk_of(children[0]) is None {
            Err(CommandFailure::Syntax(MSG_NAME_BULK@))
        } else {
            let name = spec_bulk_of(children[0])->0;
            let upper = ascii::spec_upper(name);
            let args = children.drop_first();
            if upper == NAME_PING@ {
                spec_parse_ping(args)
            } else if upper == NAME_GET@ {
                spec_parse_get(args)
            } else if upper == NAME_SET@ {
                spec_parse_set(args)
            } else if upper == NAME_DEL@ {
                spec_parse_del(args)
            } else {
                Ok(CommandModel::Unknown(name))
            }
        }
    }
}

/// What an executable result must look like to agree with the spec.
pub open spec fn matches_from_frame(v: FrameView, r: Result<Command, FrameError>) -> bool {
    match spec_from_frame(v) {
        Ok(cm) => r matches Ok(c) && c@ == cm,
        Err(CommandFailure::Syntax(msg)) => r matches Err(e) && (e matches FrameError::Syntax(m)
            && m@ == msg),
        Err(CommandFailure::IntParse) => r == Err::<Command, FrameError>(FrameError::UTF8ToInt),
    }
}

impl Command {
    fn get_name<'a>(frames: &'a [Frame]) -> (r: Option<&'a Vec<u8>>)
        ensures
            ({
                let vs = frames_view(frames@);
                match r {
                    Some(b) => vs.len() > 0 && spec_bulk_of(vs[0]) == Some(b@),
                    None => vs.len() == 0 || spec_bulk_of(vs[0]) is None,
                }
            }),
    {
        proof {
            lemma_frames_view_index(frames@);
        }
        if frames.len() == 0 {
            return None;
        }
        match frames[0].get_bulk() {
            Some((_, b)) => Some(b),
            None => None,
        }
    }

    fn get_string(frames: &[Frame], index: usize) -> (r: Result<Vec<u8>, FrameError>)
        requires
            index < frames@.len(),
        ensures
            ({
                let sp = spec_get_string(frames_view(frames@), index as int);
                match r {
                    Ok(b) => sp == Ok::<Seq<u8>, CommandFailure>(b@),
                    Err(e) => sp matches Err(f) && (f matches CommandFailure::Syntax(m) && (e
                        matches FrameError::Syntax(m2) && m2@ == m)),
                }
            }),
    {
        proof {
            lemma_frames_view_index(frames@);
        }
        match frames[index].get_bulk() {
            Some((_, b)) => Ok(slice_to_vec(b.as_slice())),
            None => Err(FrameError::Syntax(slice_to_vec(MSG_ARGS_BULK.as_slice()))),
        }
    }

    fn get_u64(frames: &[Frame], index: usize) -> (r: Result<u64, FrameError>)
        requires
            index < frames@.len(),
        ensures
            ({
                let sp = spec_get_string(frames_view(frames@), index as int);
                match r {
                    Ok(t) => sp matches Ok(b) && ascii::spec_parse_u64(b) == Some(t),
                    Err(e) => (sp matches Err(f) && (f matches CommandFailure::Syntax(m) && (e
                        matches FrameError::Syntax(m2) && m2@ == m))) || (sp matches Ok(b)
                        && ascii::spec_parse_u64(b) is None && e == FrameError::UTF8ToInt),
                }
            }),
    {
        let content = match Self::get_string(frames, index) {
            Ok(b) => b,
            Err(e) => {
                return Err(e);
            },
        };
        match ascii::parse_u64(content.as_slice()) {
            Some(t) => Ok(t),
            None => Err(FrameError::UTF8ToInt),
        }
    }

    /// `PING` takes at most one argument, echoed back if present.
    fn parse_ping(frames: &[Frame]) -> (r: Result<Command, FrameError>)
        ensures
            ({
                let sp = spec_parse_ping(frames_view(frames@));
                match r {
                    Ok(c) => sp == Ok::<CommandModel, CommandFailure>(c@),
                    Err(e) => sp matches Err(f) && (f matches CommandFailure::Syntax(m) && (e
                        matches FrameError::Syntax(m2) && m2@ == m)),
                }
            }),
    {
        proof {
            lemma_frames_view_index(frames@);
        }
        if frames.len() == 0 {
            Ok(Command::Ping(None))
        } else if frames.len() == 1 {
            match Self::get_string(frames, 0) {
                Ok(b) => Ok(Command::Ping(Some(b))),
                Err(e) => Err(e),
            }
        } else {
            Err(FrameError::Syntax(slice_to_vec(MSG_PING_ARITY.as_slice())))
        }
    }

    /// `GET` takes exactly one key.
    fn parse_get(frames: &[Frame]) -> (r: Result<Command, FrameError>)
        ensures
            ({
                let sp = spec_parse_get(frames_view(frames@));
                match r {
                    Ok(c) => sp == Ok::<CommandModel, CommandFailure>(c@),
                    Err(e) => sp matches Err(f) && (f matches CommandFailure::Syntax(m) && (e
                        matches FrameError::Syntax(m2) && m2@ == m)),
                }
            }),
    {
        proof {
            lemma_frames_view_index(frames@);
        }
        if frames.len() != 1 {
            return Err(FrameError::Syntax(slice_to_vec(MSG_GET_ARITY.as_slice())));
        }
        match Self::get_string(frames, 0) {
            Ok(b) => Ok(Command::Get(b)),
            Err(e) => Err(e),
        }
    }

    /// `SET` takes a key and value, optionally followed by `PX` and
    /// a TTL in milliseconds; any other option is rejected.
    fn parse_set(frames: &[Frame]) -> (r: Result<Command, FrameError>)
        ensures
            ({
                let sp = spec_parse_set(frames_view(frames@));
                match r {
                    Ok(c) => sp == Ok::<CommandModel, CommandFailure>(c@),
                    Err(e) => (sp matches Err(f) && (f matches CommandFailure::Syntax(m) && (e
                        matches FrameError::Syntax(m2) && m2@ == m))) || (sp == Err::<
                        CommandModel,
                        CommandFailure,
                    >(CommandFailure::IntParse) && e == FrameError::UTF8ToInt),
                }
            }),
    {
        proof {
            lemma_frames_view_index(frames@);
        }
        let len = frames.len();
        if len != 2 && len != 4 {
            return Err(FrameError::Syntax(slice_to_vec(MSG_SET_ARITY.as_slice())));
        }
        let key = match Self::get_string(frames, 0) {
            Ok(b) => b,
            Err(e) => {
                return Err(e);
            },
        };
        let value = match Self::get_string(frames, 1) {
            Ok(b) => b,
            Err(e) => {
                return Err(e);
            },
        };
        let mut ttl: u64 = 0;
        if len > 2 {
            let opt = match Self::get_string(frames, 2) {
                Ok(b) => b,
                Err(e) => {
                    return Err(e);
                },
            };
            let upper = ascii::to_ascii_upper(opt.as_slice());
            if ascii::bytes_eq(upper.as_slice(), NAME_PX.as_slice()) {
                ttl = match Self::get_u64(frames, 3) {
                    Ok(t) => t,
                    Err(e) => {
                        return Err(e);
                    },
                };
            } else {
                // the five-word form admits no option but PX
                let mut msg = slice_to_vec(MSG_UNKNOWN_OPTION_PRE.as_slice());
                msg.extend_from_slice(opt.as_slice());
                msg.extend_from_slice(MSG_UNKNOWN_OPTION_POST.as_slice());
                proof {
                    assert(msg@ =~= MSG_UNKNOWN_OPTION_PRE@ + opt@ + MSG_UNKNOWN_OPTION_POST@);
                }
                return Err(FrameError::Syntax(msg));
            }
        }
        Ok(Command::Store(key, value, ttl))
    }

    /// `DEL` takes one or more keys.
    fn parse_del(frames: &[Frame]) -> (r: Result<Command, FrameError>)
        ensures
            ({
                let sp = spec_parse_del(frames_view(frames@));
                match r {
                    Ok(c) => sp == Ok::<CommandModel, CommandFailure>(c@),
                    Err(e) => sp matches Err(f) && (f matches CommandFailure::Syntax(m) && (e
                        matches FrameError::Syntax(m2) && m2@ == m)),
                }
            }),
    {
        let ghost vs = frames_view(frames@);
        proof {
            lemma_frames_view_index(frames@);
        }
        let len = frames.len();
        if len == 0 {
            return Err(FrameError::Syntax(slice_to_vec(MSG_DEL_ARITY.as_slice())));
        }
        let mut keys: Vec<Vec<u8>> = Vec::new();
        let mut i: usize = 0;
        proof {
            assert(vs.skip(0) =~= vs);
            assert(keys@.map_values(|k: Vec<u8>| k@) =~= Seq::<Seq<u8>>::empty());
            match spec_collect_keys(vs) {
                Ok(rest) => {
                    assert(Seq::<Seq<u8>>::empty() + rest =~= rest);
                },
                Err(_) => {},
            }
        }
        while i < len
            invariant
                i <= len,
                len == frames@.len(),
                vs == frames_view(frames@),
                vs.len() == len,
                forall|j: int| 0 <= j < len ==> vs[j] == frame_view(#[trigger] frames@[j]),
                spec_collect_keys(vs.skip(i as int)) matches Ok(rest) ==> spec_collect_keys(vs)
                    == Ok::<Seq<Seq<u8>>, CommandFailure>(
                    keys@.map_values(|k: Vec<u8>| k@) + rest,
                ),
                spec_collect_keys(vs.skip(i as int)) matches Err(e) ==> spec_collect_keys(vs)
                    == Err::<Seq<Seq<u8>>, CommandFailure>(e),
            decreases len - i,
        {
            let ghost pre_keys = keys@;
            let b = match Self::get_string(frames, i) {
                Ok(b) => b,
                Err(e) => {
                    return Err(e);
                },
            };
            keys.push(b);
            proof {
                assert(vs.skip(i as int)[0] == vs[i as int]);
                assert(vs.skip(i as int).drop_first() =~= vs.skip(i + 1));
                assert(keys@.map_values(|k: Vec<u8>| k@) =~= pre_keys.map_values(
                    |k: Vec<u8>| k@,
                ).push(keys@.last()@));
                match spec_collect_keys(vs.skip(i + 1)) {
                    Ok(rest) => {
                        assert(pre_keys.map_values(|k: Vec<u8>| k@) + (seq![vs[i as int].data
                            ->Bulk_0] + rest) =~= keys@.map_values(|k: Vec<u8>| k@) + rest);
                    },
                    Err(_) => {},
                }
            }
            i = i + 1;
        }
        proof {
            assert(vs.skip(len as int) =~= Seq::<FrameView>::empty());
            assert(spec_collect_keys(Seq::<FrameView>::empty()) == Ok::<
                Seq<Seq<u8>>,
                CommandFailure,
            >(Seq::empty()));
            assert(keys@.map_values(|k: Vec<u8>| k@) + Seq::<Seq<u8>>::empty() =~= keys@.map_values(
                |k: Vec<u8>| k@,
            ));
        }
        Ok(Command::Del(keys))
    }

    /// Parse a command from a frame, which must be an array of bulk
    /// strings naming the command first.
    pub fn from_frame(frame: Frame) -> (r: Result<Command, FrameError>)
        ensures
            matches_from_frame(frame@, r),
    {
        let children = match frame.get_array() {
            Some(c) => c,
            None => {
                return Err(FrameError::Syntax(slice_to_vec(MSG_ONLY_ARRAY.as_slice())));
            },
        };
        let ghost cv = frames_view(children@);
        proof {
            lemma_frames_view_index(children@);
            assert(frame@.data == FrameDataView::Nested(cv));
        }
        let cs = children.as_slice();
        let name = match Self::get_name(cs) {
            Some(b) => b,
            None => {
                return Err(FrameError::Syntax(slice_to_vec(MSG_NAME_BULK.as_slice())));
            },
        };
        let upper = ascii::to_ascii_upper(name.as_slice());
        let args: &[Frame] = &cs[1..cs.len()];
        proof {
            assert(args@ =~= children@.drop_first());
            lemma_frames_view_index(args@);
            assert(frames_view(args@) =~= cv.drop_first());
        }
        if ascii::bytes_eq(upper.as_slice(), NAME_PING.as_slice()) {
            Self::parse_ping(args)
        } else if ascii::bytes_eq(upper.as_slice(), NAME_GET.as_slice()) {
            Self::parse_get(args)
        } else if ascii::bytes_eq(upper.as_slice(), NAME_SET.as_slice()) {
            Self::parse_set(args)
        } else if ascii::bytes_eq(upper.as_slice(), NAME_DEL.as_slice()) {
            Self::parse_del(args)
        } else {
            Ok(Command::Unknown(slice_to_vec(name.as_slice())))
        }
    }
}

} // verus!
