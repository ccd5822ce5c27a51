//! One session step: apply a decoded command to the store and build
//! the reply frame, and decide what a decode error means for the
//! session.
//!
//! The asynchronous loop around this module reads bytes, feeds them
//! to the decoder, and writes the replies; every decision it takes
//! is a function here, with a contract.

use vstd::prelude::*;
use vstd::slice::slice_to_vec;

use crate::ascii;
use crate::ascii::LF;
use crate::codec::{first_lf, lemma_first_lf, lemma_first_lf_at};
use crate::command::{spec_from_frame, Command, CommandFailure, CommandModel};
use crate::db::{del_fold, spec_deadline, Storage};
use crate::frame::{
    frame_wf, is_bulk_error, is_bulk_string, is_integer, is_null, is_simple_error,
    is_simple_string, Frame, FrameError,
};

verus! {

// "OK"
pub const OK_REPLY: [u8; 2] = [79, 75];
// "PONG"
pub const PONG: [u8; 4] = [80, 79, 78, 71];
// "unknown command: "
pub const MSG_UNKNOWN_COMMAND_PRE: [u8; 17] = [117, 110, 107, 110, 111, 119, 110, 32, 99, 111, 109, 109, 97, 110, 100, 58, 32];


/// A count, saturated into the signed integer a reply frame carries.
pub open spec fn spec_count_i64(n: int) -> i64 {
    if n > i64::MAX {
        i64::MAX
    } else {
        n as i64
    }
}

/// An error reply: a simple error when the message fits on a simple
/// line, a bulk error otherwise.
pub open spec fn is_error_reply(f: Frame, msg: Seq<u8>) -> bool {
    if ascii::line_ok(msg) {
        is_simple_error(f, msg)
    } else {
        is_bulk_error(f, msg)
    }
}

/// A value reply: the value as a simple string when it fits on a
/// simple line, as a bulk string otherwise (simple lines cannot
/// carry CR or LF).
pub open spec fn is_value_reply(f: Frame, value: Seq<u8>) -> bool {
    if ascii::line_ok(value) {
        is_simple_string(f, value)
    } else {
        is_bulk_string(f, value)
    }
}

/// Reply to `PING`: `PONG`, or the echoed argument as a bulk string.
pub fn reply_for_ping(msg: Option<Vec<u8>>) -> (r: Frame)
    ensures
        frame_wf(r),
        match msg {
            None => is_simple_string(r, PONG@),
            Some(m) => is_bulk_string(r, m@),
        },
{
    match msg {
        Some(m) => Frame::new_bulk_string(m),
        None => {
            proof {
                assert(ascii::line_ok(PONG@));
            }
            Frame::new_simple_string(slice_to_vec(PONG.as_slice()))
        },
    }
}

/// Reply to a successful `SET`: `OK`.
pub fn reply_for_set() -> (r: Frame)
    ensures
        frame_wf(r),
        is_simple_string(r, OK_REPLY@),
{
    proof {
        assert(ascii::line_ok(OK_REPLY@));
    }
    Frame::new_simple_string(slice_to_vec(OK_REPLY.as_slice()))
}

/// Reply to `GET`: the value if the store returned one, null
/// otherwise.
pub fn reply_for_get(value: Option<Vec<u8>>) -> (r: Frame)
    ensures
        frame_wf(r),
        match value {
            Some(v) => is_value_reply(r, v@),
            None => is_null(r),
        },
{
    match value {
        Some(v) => {
            if ascii::is_line_ok(v.as_slice()) {
                Frame::new_simple_string(v)
            } else {
                Frame::new_bulk_string(v)
            }
        },
        None => Frame::new_null(),
    }
}

/// Reply to `DEL`: how many keys existed and were removed.
pub fn reply_for_del(count: usize) -> (r: Frame)
    ensures
        frame_wf(r),
        is_integer(r, spec_count_i64(count as int)),
{
    let c: i64 = if (count as u64) > (i64::MAX as u64) {
        i64::MAX
    } else {
        count as i64
    };
    Frame::new_integer(c)
}

/// Reply to an unknown command, naming it.
pub fn reply_for_unknown(name: Vec<u8>) -> (r: Frame)
    ensures
        frame_wf(r),
        is_error_reply(r, MSG_UNKNOWN_COMMAND_PRE@ + name@),
{
    let mut msg = slice_to_vec(MSG_UNKNOWN_COMMAND_PRE.as_slice());
    msg.extend_from_slice(name.as_slice());
    proof {
        assert(msg@ =~= MSG_UNKNOWN_COMMAND_PRE@ + name@);
    }
    reply_for_error(msg)
}

/// Carry an error message back to the client.
pub fn reply_for_error(msg: Vec<u8>) -> (r: Frame)
    ensures
        frame_wf(r),
        is_error_reply(r, msg@),
{
    if ascii::is_line_ok(msg.as_slice()) {
        Frame::new_simple_error(msg)
    } else {
        Frame::new_bulk_error(msg)
    }
}

/// What executing one command does: the reply it earns and the store
/// it leaves behind.
pub open spec fn execute_post(
    pre: Storage,
    post: Storage,
    cm: CommandModel,
    now_ms: u64,
    reply: Frame,
) -> bool {
    &&& post.wf()
    &&& post.spec_shard_count() == pre.spec_shard_count()
    &&& post.spec_capacity() == pre.spec_capacity()
    &&& frame_wf(reply)
    &&& match cm {
        CommandModel::Ping(None) => is_simple_string(reply, PONG@) && post == pre,
        CommandModel::Ping(Some(m)) => is_bulk_string(reply, m) && post == pre,
        CommandModel::Get(k) => {
            &&& post == pre
            &&& if pre@.contains_key(k) && (pre@[k].1 == 0 || pre@[k].1 > now_ms) {
                is_value_reply(reply, pre@[k].0)
            } else {
                is_null(reply)
            }
        },
        CommandModel::Store(k, v, ttl) => {
            &&& is_simple_string(reply, OK_REPLY@)
            &&& post@.contains_key(k)
            &&& post@[k] == (v, spec_deadline(ttl, now_ms))
            &&& forall|k2: Seq<u8>|
                k2 != k && #[trigger] post@.contains_key(k2) ==> pre@.contains_key(k2) && post@[k2]
                    == pre@[k2]
            &&& forall|k2: Seq<u8>|
                k2 != k && #[trigger] pre@.contains_key(k2) && (pre@[k2].1 == 0 || pre@[k2].1
                    >= now_ms) ==> post@.contains_key(k2)
        },
        CommandModel::Del(keys) => {
            &&& post@ == del_fold(pre@, keys).0
            &&& is_integer(reply, spec_count_i64(del_fold(pre@, keys).1))
        },
        CommandModel::Unknown(name) => is_error_reply(reply, MSG_UNKNOWN_COMMAND_PRE@ + name)
            && post == pre,
    }
}

/// Apply one command to the store and build its reply, as the
/// response table prescribes.
pub fn execute(storage: &mut Storage, cmd: Command, now_ms: u64) -> (reply: Frame)
    requires
        old(storage).wf(),
    ensures
        execute_post(*old(storage), *final(storage), cmd@, now_ms, reply),
{
    match cmd {
        Command::Ping(m) => reply_for_ping(m),
        Command::Get(k) => {
            let v = storage.get_v(&k, now_ms);
            reply_for_get(v)
        },
        Command::Store(k, v, ttl) => {
            let _prev = storage.set_kv(&k, &v, ttl, now_ms);
            reply_for_set()
        },
        Command::Del(keys) => {
            let c = storage.del_entries(&keys);
            reply_for_del(c)
        },
        Command::Unknown(name) => reply_for_unknown(name),
    }
}

/// Respond to one decoded frame: parse it as a command and execute
/// it; a frame that fails to parse earns an error reply and changes
/// nothing.
pub fn respond_to_frame(storage: &mut Storage, frame: Frame, now_ms: u64) -> (reply: Frame)
    requires
        old(storage).wf(),
    ensures
        final(storage).wf(),
        final(storage).spec_shard_count() == old(storage).spec_shard_count(),
        final(storage).spec_capacity() == old(storage).spec_capacity(),
        frame_wf(reply),
        match spec_from_frame(frame@) {
            Ok(cm) => execute_post(*old(storage), *final(storage), cm, now_ms, reply),
            Err(CommandFailure::Syntax(msg)) => is_error_reply(reply, msg) && *final(storage)
                == *old(storage),
            Err(CommandFailure::IntParse) => is_error_reply(
                reply,
                FrameError::UTF8ToInt.spec_message(),
            ) && *final(storage) == *old(storage),
        },
{
    match Command::from_frame(frame) {
        Ok(cmd) => execute(storage, cmd, now_ms),
        Err(e) => {
            let msg = e.message();
            proof {
                match spec_from_frame(frame@) {
                    Ok(_) => {
                        assert(false);
                    },
                    Err(CommandFailure::Syntax(m)) => {
                        assert(msg@ == m);
                    },
                    Err(CommandFailure::IntParse) => {},
                }
            }
            reply_for_error(msg)
        },
    }
}


/// Respond to a frame that needs no write access to the store: parse
/// it and, when the command only reads, build the reply against a
/// shared borrow.  A command that mutates comes back parsed, for the
/// caller to hand to `execute` under exclusive access.  This lets a
/// session serve reads under a shared lock.
pub fn respond_if_readonly(storage: &Storage, frame: Frame, now_ms: u64) -> (r: Result<
    Frame,
    Command,
>)
    requires
        storage.wf(),
    ensures
        match r {
            Ok(reply) => {
                &&& frame_wf(reply)
                &&& match spec_from_frame(frame@) {
                    Ok(cm) => match cm {
                        CommandModel::Ping(None) => is_simple_string(reply, PONG@),
                        CommandModel::Ping(Some(m)) => is_bulk_string(reply, m),
                        CommandModel::Get(k) => if storage@.contains_key(k) && (storage@[k].1 == 0
                            || storage@[k].1 > now_ms) {
                            is_value_reply(reply, storage@[k].0)
                        } else {
                            is_null(reply)
                        },
                        CommandModel::Unknown(name) => is_error_reply(
                            reply,
                            MSG_UNKNOWN_COMMAND_PRE@ + name,
                        ),
                        _ => false,
                    },
                    Err(CommandFailure::Syntax(msg)) => is_error_reply(reply, msg),
                    Err(CommandFailure::IntParse) => is_error_reply(
                        reply,
                        FrameError::UTF8ToInt.spec_message(),
                    ),
                }
            },
            Err(cmd) => {
                &&& spec_from_frame(frame@) == Ok::<CommandModel, CommandFailure>(cmd@)
                &&& ((cmd@ matches CommandModel::Store(k, v, t)) || (cmd@
                    matches CommandModel::Del(ks)))
            },
        },
{
    match Command::from_frame(frame) {
        Err(e) => {
            let msg = e.message();
            proof {
                match spec_from_frame(frame@) {
                    Ok(_) => {
                        assert(false);
                    },
                    Err(CommandFailure::Syntax(m)) => {
                        assert(msg@ == m);
                    },
                    Err(CommandFailure::IntParse) => {},
                }
            }
            Ok(reply_for_error(msg))
        },
        Ok(cmd) => match cmd {
            Command::Ping(m) => Ok(reply_for_ping(m)),
            Command::Get(k) => {
                let v = storage.get_v(&k, now_ms);
                Ok(reply_for_get(v))
            },
            Command::Unknown(name) => Ok(reply_for_unknown(name)),
            Command::Store(k, v, ttl) => Err(Command::Store(k, v, ttl)),
            Command::Del(keys) => Err(Command::Del(keys)),
        },
    }
}

/// How many buffered bytes to discard after a malformed frame: up to
/// and including the first line terminator, so the session resumes
/// at the next line, or the whole buffer when no terminator has
/// arrived yet.
pub fn resync_after_error(buf: &Vec<u8>) -> (n: usize)
    ensures
        n <= buf@.len(),
        match first_lf(buf@) {
            Some(j) => n == j + 1,
            None => n == buf@.len(),
        },
{
    let mut i: usize = 0;
    while i < buf.len()
        invariant
            i <= buf@.len(),
            forall|k: int| 0 <= k < i ==> buf@[k] != LF,
        decreases buf@.len() - i,
    {
        if buf[i] == LF {
            proof {
                lemma_first_lf_at(buf@, i as int);
            }
            return i + 1;
        }
        i = i + 1;
    }
    proof {
        lemma_first_lf(buf@);
        match first_lf(buf@) {
            Some(j) => {
                assert(buf@[j] != LF);
            },
            None => {},
        }
    }
    buf.len()
}

/// What the session does with a decode error: close, or send an
/// error reply and continue.
pub enum ErrorDisposition {
    /// End the session; `Eof` is a clean close, `FatalNetwork` an
    /// abnormal one.
    Close,
    /// Report the error to the client and keep the session.
    Reply(Frame),
}

/// The session's error policy: end on `Eof` and on a fatal network
/// error, report everything else to the client and continue.
pub fn handle_decode_error(err: &FrameError) -> (d: ErrorDisposition)
    ensures
        match err {
            FrameError::Eof => d == ErrorDisposition::Close,
            FrameError::FatalNetwork => d == ErrorDisposition::Close,
            _ => d matches ErrorDisposition::Reply(f) && frame_wf(f) && is_error_reply(
                f,
                err.spec_message(),
            ),
        },
{
    match err {
        FrameError::Eof => ErrorDisposition::Close,
        FrameError::FatalNetwork => ErrorDisposition::Close,
        _ => {
            let msg = err.message();
            ErrorDisposition::Reply(reply_for_error(msg))
        },
    }
}

} // verus!
