//! The streaming RESP decoder.
//!
//! `spec_decode` is the mathematical decoder: given the bytes
//! received so far, it yields either one complete frame model with
//! the exact number of bytes it occupies, or the error the grammar
//! assigns to that input (`Incomplete` simply means more bytes are
//! needed).  `decode` is the executable decoder, proved to agree
//! with `spec_decode`; arrays are decoded iteratively with an
//! explicit stack, so nesting depth never grows the call stack.

use vstd::prelude::*;
use vstd::slice::slice_to_vec;

use crate::ascii;
use crate::ascii::{CR, LF};
use crate::frame::{
    frame_view, frame_wf, frames_view, frames_wf, lemma_frames_view_index, lemma_frames_wf_index, lemma_marker_from_u8,
    lemma_views_wf_index, spec_encode, spec_encode_seq, view_wf, views_wf, Frame, FrameData,
    FrameDataView, FrameError, FrameID, FrameView,
};

verus! {

/// Index of the first LF in `s`, if any.
pub open spec fn first_lf(s: Seq<u8>) -> Option<int>
    decreases s.len(),
{
    if s.len() == 0 {
        None
    } else if s[0] == LF {
        Some(0)
    } else {
        match first_lf(s.drop_first()) {
            Some(j) => Some(j + 1),
            None => None,
        }
    }
}

pub proof fn lemma_first_lf(s: Seq<u8>)
    ensures
        match first_lf(s) {
            Some(j) => 0 <= j < s.len() && s[j] == LF && (forall|k: int| 0 <= k < j ==> s[k] != LF),
            None => forall|k: int| 0 <= k < s.len() ==> s[k] != LF,
        },
    decreases s.len(),
{
    if s.len() > 0 && s[0] != LF {
        lemma_first_lf(s.drop_first());
        match first_lf(s.drop_first()) {
            Some(j) => {
                assert(s.drop_first()[j] == s[j + 1]);
                assert forall|k: int| 0 <= k < j + 1 implies s[k] != LF by {
                    if k > 0 {
                        assert(s.drop_first()[k - 1] == s[k]);
                    }
                }
            },
            None => {
                assert forall|k: int| 0 <= k < s.len() implies s[k] != LF by {
                    if k > 0 {
                        assert(s.drop_first()[k - 1] == s[k]);
                    }
                }
            },
        }
    }
}

/// The characterization pins `first_lf` down.
pub proof fn lemma_first_lf_at(s: Seq<u8>, j: int)
    requires
        0 <= j < s.len(),
        s[j] == LF,
        forall|k: int| 0 <= k < j ==> s[k] != LF,
    ensures
        first_lf(s) == Some(j),
{
    lemma_first_lf(s);
    match first_lf(s) {
        Some(j2) => {
            if j2 < j {
                assert(s[j2] != LF);
            }
            if j < j2 {
                assert(s[j] != LF);
            }
        },
        None => {
            assert(s[j] != LF);
        },
    }
}

/// Take one CR LF terminated line from the head of `s`: the content
/// without the terminator, and how many bytes the line occupies.
pub open spec fn spec_take_line(s: Seq<u8>) -> Result<(Seq<u8>, int), FrameError> {
    match first_lf(s) {
        None => Err(FrameError::Incomplete),
        Some(j) => if j < 1 {
            Err(FrameError::Incomplete)
        } else if s[j - 1] != CR {
            Err(FrameError::Invalid)
        } else {
            Ok((s.subrange(0, j - 1), j + 1))
        },
    }
}

pub proof fn lemma_take_line_bounds(s: Seq<u8>)
    ensures
        spec_take_line(s) matches Ok((line, used)) ==> 2 <= used <= s.len() && line == s.subrange(
            0,
            used - 2,
        ) && (forall|k: int| 0 <= k < line.len() ==> line[k] != LF),
{
    lemma_first_lf(s);
    match spec_take_line(s) {
        Ok((line, used)) => {
            let j = used - 1;
            assert(line == s.subrange(0, j - 1));
            assert forall|k: int| 0 <= k < line.len() implies line[k] != LF by {
                assert(line[k] == s[k]);
            }
        },
        Err(_) => {},
    }
}

/// Leaf frame built from a simple line, as the marker demands:
/// booleans must be exactly `t` or `f`, integers must parse, null
/// must be empty, and the other simple lines must be free of CR.
pub open spec fn spec_leaf_from_line(id: FrameID, line: Seq<u8>) -> Result<
    FrameView,
    FrameError,
> {
    match id {
        FrameID::Boolean => if line == seq![116u8] {
            Ok(FrameView { id, data: FrameDataView::Boolean(true) })
        } else if line == seq![102u8] {
            Ok(FrameView { id, data: FrameDataView::Boolean(false) })
        } else {
            Err(FrameError::Invalid)
        },
        FrameID::Integer => match ascii::spec_parse_i64(line) {
            Some(v) => Ok(FrameView { id, data: FrameDataView::Integer(v) }),
            None => Err(FrameError::UTF8ToInt),
        },
        FrameID::Null => if line.len() == 0 {
            Ok(FrameView { id, data: FrameDataView::Null })
        } else {
            Err(FrameError::Invalid)
        },
        FrameID::SimpleString => if ascii::line_ok(line) {
            Ok(FrameView { id, data: FrameDataView::Simple(line) })
        } else {
            Err(FrameError::Invalid)
        },
        FrameID::SimpleError => if ascii::line_ok(line) {
            Ok(FrameView { id, data: FrameDataView::Simple(line) })
        } else {
            Err(FrameError::Invalid)
        },
        FrameID::BigNumber => if ascii::line_ok(line) {
            Ok(FrameView { id, data: FrameDataView::Simple(line) })
        } else {
            Err(FrameError::Invalid)
        },
        _ => Err(FrameError::Invalid),
    }
}

/// Decode one frame from the head of `s`: the frame model and the
/// exact number of bytes it occupies.
pub open spec fn spec_decode(s: Seq<u8>) -> Result<(FrameView, int), FrameError>
    decreases s.len(), 0int,
{
    if s.len() == 0 {
        Err(FrameError::Incomplete)
    } else {
        match FrameID::spec_from_u8(s[0]) {
            None => Err(FrameError::Unknown),
            Some(id) => {
                if id == FrameID::Array {
                    match spec_take_line(s.drop_first()) {
                        Err(e) => Err(e),
                        Ok((line, used)) => match ascii::spec_parse_i64(line) {
                            None => Err(FrameError::Invalid),
                            Some(n) => if n < 0 {
                                Err(FrameError::Invalid)
                            } else if used < 2 || 1 + used > s.len() {
                                Err(FrameError::Invalid)
                            } else {
                                match spec_decode_elems(s.skip(1 + used), n as int) {
                                    Err(e) => Err(e),
                                    Ok((children, c)) => Ok(
                                        (
                                            FrameView {
                                                id: FrameID::Array,
                                                data: FrameDataView::Nested(children),
                                            },
                                            1 + used + c,
                                        ),
                                    ),
                                }
                            },
                        },
                    }
                } else if id == FrameID::BulkString || id == FrameID::BulkError {
                    match spec_take_line(s.drop_first()) {
                        Err(e) => Err(e),
                        Ok((line, used)) => match ascii::spec_parse_i64(line) {
                            None => Err(FrameError::Invalid),
                            Some(n) => if n < 0 {
                                Err(FrameError::Invalid)
                            } else if s.len() < 1 + used + n + 2 {
                                Err(FrameError::Incomplete)
                            } else if s[1 + used + n] == CR && s[1 + used + n + 1] == LF {
                                Ok(
                                    (
                                        FrameView {
                                            id,
                                            data: FrameDataView::Bulk(
                                                s.subrange(1 + used, 1 + used + n),
                                            ),
                                        },
                                        1 + used + n + 2,
                                    ),
                                )
                            } else {
                                Err(FrameError::Invalid)
                            },
                        },
                    }
                } else {
                    match spec_take_line(s.drop_first()) {
                        Err(e) => Err(e),
                        Ok((line, used)) => match spec_leaf_from_line(id, line) {
                            Err(e) => Err(e),
                            Ok(v) => Ok((v, 1 + used)),
                        },
                    }
                }
            },
        }
    }
}

/// Decode exactly `n` frames from the head of `s`.
pub open spec fn spec_decode_elems(s: Seq<u8>, n: int) -> Result<
    (Seq<FrameView>, int),
    FrameError,
>
    decreases s.len(), n + 1,
{
    if n <= 0 {
        if n == 0 {
            Ok((Seq::empty(), 0))
        } else {
            Err(FrameError::Invalid)
        }
    } else {
        match spec_decode(s) {
            Err(e) => Err(e),
            Ok((f, c)) => if c < 1 || c > s.len() {
                Err(FrameError::Invalid)
            } else {
                match spec_decode_elems(s.skip(c), n - 1) {
                    Err(e) => Err(e),
                    Ok((rest, c2)) => Ok((seq![f] + rest, c + c2)),
                }
            },
        }
    }
}

/// A decoded frame occupies at least one byte and never more than
/// the buffer holds.
pub proof fn lemma_decode_consumed(s: Seq<u8>)
    ensures
        spec_decode(s) matches Ok((v, c)) ==> 1 <= c <= s.len(),
    decreases s.len(), 0int,
{
    if s.len() > 0 {
        match FrameID::spec_from_u8(s[0]) {
            None => {},
            Some(id) => {
                lemma_take_line_bounds(s.drop_first());
                match spec_take_line(s.drop_first()) {
                    Ok((line, used)) => {
                        if id == FrameID::Array {
                            match ascii::spec_parse_i64(line) {
                                Some(n) => {
                                    if n >= 0 && used >= 2 && 1 + used <= s.len() {
                                        lemma_decode_elems_consumed(s.skip(1 + used), n as int);
                                    }
                                },
                                None => {},
                            }
                        } else {
                            assert(used <= s.drop_first().len());
                        }
                    },
                    Err(_) => {},
                }
            },
        }
    }
}

/// Decoding `n` frames consumes between zero bytes and the whole
/// buffer, and yields exactly `n` frames.
pub proof fn lemma_decode_elems_consumed(s: Seq<u8>, n: int)
    ensures
        spec_decode_elems(s, n) matches Ok((vs, c)) ==> 0 <= c <= s.len() && vs.len() == n,
    decreases s.len(), n + 1,
{
    if n > 0 {
        lemma_decode_consumed(s);
        match spec_decode(s) {
            Ok((f, c)) => {
                if 1 <= c <= s.len() {
                    lemma_decode_elems_consumed(s.skip(c), n - 1);
                }
            },
            Err(_) => {},
        }
    }
}

/// What it means for an executable decode result to agree with the
/// mathematical decoder on input `s`.
pub open spec fn matches_decode(s: Seq<u8>, r: Result<(Frame, usize), FrameError>) -> bool {
    match r {
        Ok((f, n)) => spec_decode(s) == Ok::<(FrameView, int), FrameError>((f@, n as int))
            && frame_wf(f),
        Err(e) => spec_decode(s) == Err::<(FrameView, int), FrameError>(e),
    }
}

/// Read one CR LF terminated line starting at `pos`, returning the
/// content and the number of bytes the line occupies.
fn take_line(buf: &Vec<u8>, pos: usize) -> (r: Result<(Vec<u8>, usize), FrameError>)
    requires
        pos <= buf@.len(),
    ensures
        ({
            let s = buf@.skip(pos as int);
            match r {
                Ok((line, used)) => spec_take_line(s) == Ok::<(Seq<u8>, int), FrameError>(
                    (line@, used as int),
                ) && 2 <= used && pos + used <= buf@.len(),
                Err(e) => spec_take_line(s) == Err::<(Seq<u8>, int), FrameError>(e),
            }
        }),
{
    let ghost s = buf@.skip(pos as int);
    let n = buf.len();
    let mut i: usize = pos;
    while i < n
        invariant
            pos <= i <= n,
            n == buf@.len(),
            s == buf@.skip(pos as int),
            forall|k: int| 0 <= k < i - pos ==> s[k] != LF,
        decreases n - i,
    {
        proof {
            assert(s[i - pos] == buf@[i as int]);
        }
        if buf[i] == LF {
            proof {
                lemma_first_lf_at(s, i - pos);
            }
            let j_rel = i - pos;
            if j_rel < 1 {
                return Err(FrameError::Incomplete);
            }
            proof {
                assert(s[j_rel - 1] == buf@[i - 1]);
            }
            if buf[i - 1] != CR {
                return Err(FrameError::Invalid);
            }
            let line = slice_to_vec(&buf.as_slice()[pos..i - 1]);
            proof {
                assert(buf@.subrange(pos as int, i - 1) =~= s.subrange(0, j_rel - 1));
            }
            return Ok((line, j_rel + 1));
        }
        i = i + 1;
    }
    proof {
        lemma_first_lf(s);
        match first_lf(s) {
            Some(j) => {
                assert(s[j] != LF);
            },
            None => {},
        }
    }
    Err(FrameError::Incomplete)
}

/// Read the marker byte at `pos` and identify the frame type.
fn get_frame_id(buf: &Vec<u8>, pos: usize) -> (r: Result<FrameID, FrameError>)
    requires
        pos <= buf@.len(),
    ensures
        ({
            let s = buf@.skip(pos as int);
            match r {
                Ok(id) => s.len() > 0 && FrameID::spec_from_u8(s[0]) == Some(id),
                Err(e) => (s.len() == 0 && e == FrameError::Incomplete) || (s.len() > 0
                    && FrameID::spec_from_u8(s[0]) is None && e == FrameError::Unknown),
            }
        }),
{
    if pos >= buf.len() {
        return Err(FrameError::Incomplete);
    }
    proof {
        assert(buf@.skip(pos as int)[0] == buf@[pos as int]);
    }
    match FrameID::from_u8(&buf[pos]) {
        Some(id) => Ok(id),
        None => Err(FrameError::Unknown),
    }
}

/// Check that a boolean payload is exactly `t` or `f`.
pub fn validate_bool(data: &Vec<u8>) -> (r: Result<bool, FrameError>)
    ensures
        data@ == seq![116u8] ==> r == Ok::<bool, FrameError>(true),
        data@ == seq![102u8] ==> r == Ok::<bool, FrameError>(false),
        data@ != seq![116u8] && data@ != seq![102u8] ==> r == Err::<bool, FrameError>(
            FrameError::Invalid,
        ),
{
    if data.len() == 1 {
        let b = data[0];
        if b == 116 {
            proof {
                assert(data@ =~= seq![116u8]);
            }
            return Ok(true);
        }
        if b == 102 {
            proof {
                assert(data@ =~= seq![102u8]);
            }
            return Ok(false);
        }
    }
    Err(FrameError::Invalid)
}

/// Decode a simple-line frame whose marker stands at `pos`.
fn process_simple_frames(id: FrameID, buf: &Vec<u8>, pos: usize) -> (r: Result<
    (Frame, usize),
    FrameError,
>)
    requires
        pos < buf@.len(),
        FrameID::spec_from_u8(buf@[pos as int]) == Some(id),
        id != FrameID::Array && id != FrameID::BulkString && id != FrameID::BulkError,
    ensures
        matches_decode(buf@.skip(pos as int), r),
{
    let ghost s = buf@.skip(pos as int);
    proof {
        assert(buf.len() == buf@.len());
        assert(s[0] == buf@[pos as int]);
        assert(s.drop_first() =~= buf@.skip(pos + 1));
    }
    match take_line(buf, pos + 1) {
        Err(e) => Err(e),
        Ok((line, used)) => {
            match id {
                FrameID::Boolean => match validate_bool(&line) {
                    Ok(b) => Ok((Frame::new_bool(b), 1 + used)),
                    Err(e) => Err(e),
                },
                FrameID::Integer => match ascii::parse_i64(line.as_slice()) {
                    Some(v) => Ok((Frame::new_integer(v), 1 + used)),
                    None => Err(FrameError::UTF8ToInt),
                },
                FrameID::Null => if line.len() == 0 {
                    Ok((Frame::new_null(), 1 + used))
                } else {
                    Err(FrameError::Invalid)
                },
                _ => {
                    if ascii::is_line_ok(line.as_slice()) {
                        let f = Frame { frame_type: id, frame_data: FrameData::Simple(line) };
                        Ok((f, 1 + used))
                    } else {
                        Err(FrameError::Invalid)
                    }
                },
            }
        },
    }
}

/// Decode a bulk frame whose marker stands at `pos`: a decimal
/// length line, that many payload bytes, and a final CR LF.
fn process_bulk_frames(id: FrameID, buf: &Vec<u8>, pos: usize) -> (r: Result<
    (Frame, usize),
    FrameError,
>)
    requires
        pos < buf@.len(),
        FrameID::spec_from_u8(buf@[pos as int]) == Some(id),
        id == FrameID::BulkString || id == FrameID::BulkError,
    ensures
        matches_decode(buf@.skip(pos as int), r),
{
    let ghost s = buf@.skip(pos as int);
    proof {
        assert(buf.len() == buf@.len());
        assert(s[0] == buf@[pos as int]);
        assert(s.drop_first() =~= buf@.skip(pos + 1));
    }
    match take_line(buf, pos + 1) {
        Err(e) => Err(e),
        Ok((line, used)) => {
            match ascii::parse_i64(line.as_slice()) {
                None => Err(FrameError::Invalid),
                Some(n) => {
                    if n < 0 {
                        return Err(FrameError::Invalid);
                    }
                    let start = pos + 1 + used;
                    let remaining = buf.len() - start;
                    if remaining < 2 || (n as u64) > (remaining as u64) - 2 {
                        assert(s.len() < 1 + used + n + 2);
                        return Err(FrameError::Incomplete);
                    }
                    let n_us = n as usize;
                    let data = slice_to_vec(&buf.as_slice()[start..start + n_us]);
                    proof {
                        assert(buf@.subrange(start as int, start + n_us) =~= s.subrange(
                            1 + used,
                            1 + used + n,
                        ));
                        assert(s[1 + used as int + n] == buf@[start + n_us]);
                        assert(s[1 + used as int + n + 1] == buf@[start + n_us + 1]);
                    }
                    if buf[start + n_us] == CR && buf[start + n_us + 1] == LF {
                        let f = Frame { frame_type: id, frame_data: FrameData::Bulk(data) };
                        Ok((f, 1 + used + n_us + 2))
                    } else {
                        Err(FrameError::Invalid)
                    }
                },
            }
        },
    }
}

// "received aggregate frame in non aggregate decoding"
pub const MSG_NON_AGGREGATE: [u8; 50] = [
    114,
    101,
    99,
    101,
    105,
    118,
    101,
    100,
    32,
    97,
    103,
    103,
    114,
    101,
    103,
    97,
    116,
    101,
    32,
    102,
    114,
    97,
    109,
    101,
    32,
    105,
    110,
    32,
    110,
    111,
    110,
    32,
    97,
    103,
    103,
    114,
    101,
    103,
    97,
    116,
    101,
    32,
    100,
    101,
    99,
    111,
    100,
    105,
    110,
    103,
];

/// Decode any non-aggregate frame whose marker stands at `pos`.  It
/// is a misuse to hand this helper the array marker; that case
/// reports a syntax error rather than decoding anything.
pub fn process_non_aggregate(id: FrameID, buf: &Vec<u8>, pos: usize) -> (r: Result<
    (Frame, usize),
    FrameError,
>)
    requires
        pos < buf@.len(),
        FrameID::spec_from_u8(buf@[pos as int]) == Some(id),
    ensures
        id == FrameID::Array ==> (r matches Err(e) && (e matches FrameError::Syntax(m) && m@
            == MSG_NON_AGGREGATE@)),
        id != FrameID::Array ==> matches_decode(buf@.skip(pos as int), r),
{
    match id {
        FrameID::Array => Err(FrameError::Syntax(slice_to_vec(MSG_NON_AGGREGATE.as_slice()))),
        FrameID::BulkString => process_bulk_frames(id, buf, pos),
        FrameID::BulkError => process_bulk_frames(id, buf, pos),
        _ => process_simple_frames(id, buf, pos),
    }
}

/// The model of a frame sequence grows element-wise.
pub proof fn lemma_frames_view_push(s: Seq<Frame>, f: Frame)
    ensures
        frames_view(s.push(f)) == frames_view(s).push(frame_view(f)),
{
    lemma_frames_view_index(s.push(f));
    lemma_frames_view_index(s);
    assert forall|i: int|
        0 <= i < frames_view(s.push(f)).len() implies frames_view(s.push(f))[i] == frames_view(
        s,
    ).push(frame_view(f))[i] by {
        assert(frames_view(s.push(f))[i] == frame_view(s.push(f)[i]));
        if i < s.len() {
            assert(s.push(f)[i] == s[i]);
            assert(frames_view(s)[i] == frame_view(s[i]));
        } else {
            assert(s.push(f)[i] == f);
        }
    }
    assert(frames_view(s.push(f)) =~= frames_view(s).push(frame_view(f)));
}

/// Shift the consumed count of a decode result by `c` bytes.
pub open spec fn add_consumed(r: Result<(FrameView, int), FrameError>, c: int) -> Result<
    (FrameView, int),
    FrameError,
> {
    match r {
        Ok((v, n)) => Ok((v, n + c)),
        Err(e) => Err(e),
    }
}

proof fn lemma_add_consumed_zero(r: Result<(FrameView, int), FrameError>)
    ensures
        add_consumed(r, 0) == r,
{
    match r {
        Ok((v, n)) => {
            assert(n + 0 == n);
        },
        Err(_) => {},
    }
}

proof fn lemma_add_consumed_add(r: Result<(FrameView, int), FrameError>, a: int, b: int)
    ensures
        add_consumed(add_consumed(r, a), b) == add_consumed(r, a + b),
{
    match r {
        Ok((v, n)) => {
            assert(n + a + b == n + (a + b));
        },
        Err(_) => {},
    }
}

/// The frame the whole decode will produce, given the stack of
/// partially decoded arrays (innermost last; each entry carries the
/// number of children still missing and the children built so far)
/// and the bytes not yet consumed.
pub open spec fn spec_finish(stack: Seq<(int, Seq<FrameView>)>, s: Seq<u8>) -> Result<
    (FrameView, int),
    FrameError,
>
    decreases stack.len(),
{
    if stack.len() == 0 {
        Err(FrameError::Invalid)
    } else {
        let top = stack.last();
        match spec_decode_elems(s, top.0) {
            Err(e) => Err(e),
            Ok((more, c)) => {
                let arr = FrameView {
                    id: FrameID::Array,
                    data: FrameDataView::Nested(top.1 + more),
                };
                if stack.len() == 1 {
                    Ok((arr, c))
                } else {
                    let parent = stack[stack.len() - 2];
                    let popped = stack.take(stack.len() - 2).push(
                        (parent.0 - 1, parent.1.push(arr)),
                    );
                    add_consumed(spec_finish(popped, s.skip(c)), c)
                }
            },
        }
    }
}

/// Completing a fully-decoded array: pop it from the stack and hand
/// it to its parent, or finish the whole decode.
pub proof fn lemma_finish_pop(stack: Seq<(int, Seq<FrameView>)>, kids: Seq<FrameView>, s: Seq<u8>)
    ensures
        ({
            let arr = FrameView { id: FrameID::Array, data: FrameDataView::Nested(kids) };
            spec_finish(stack.push((0int, kids)), s) == if stack.len() == 0 {
                Ok::<(FrameView, int), FrameError>((arr, 0))
            } else {
                let parent = stack.last();
                spec_finish(stack.drop_last().push((parent.0 - 1, parent.1.push(arr))), s)
            }
        }),
{
    let st = stack.push((0int, kids));
    let arr = FrameView { id: FrameID::Array, data: FrameDataView::Nested(kids) };
    assert(st.last() == (0int, kids));
    assert(spec_decode_elems(s, 0) == Ok::<(Seq<FrameView>, int), FrameError>(
        (Seq::<FrameView>::empty(), 0),
    ));
    assert(kids + Seq::<FrameView>::empty() =~= kids);
    if stack.len() > 0 {
        let parent = st[st.len() - 2];
        assert(parent == stack.last());
        assert(st.take(st.len() - 2) =~= stack.drop_last());
        assert(s.skip(0) =~= s);
        lemma_add_consumed_zero(
            spec_finish(stack.drop_last().push((parent.0 - 1, parent.1.push(arr))), s),
        );
    }
}

/// Decoding one complete frame advances the topmost pending array by
/// one child.
pub proof fn lemma_finish_step(
    stack: Seq<(int, Seq<FrameView>)>,
    n: int,
    kids: Seq<FrameView>,
    s: Seq<u8>,
    f: FrameView,
    c: int,
)
    requires
        n >= 1,
        spec_decode(s) == Ok::<(FrameView, int), FrameError>((f, c)),
    ensures
        spec_finish(stack.push((n, kids)), s) == add_consumed(
            spec_finish(stack.push((n - 1, kids.push(f))), s.skip(c)),
            c,
        ),
{
    lemma_decode_consumed(s);
    let s2 = s.skip(c);
    let st_l = stack.push((n, kids));
    let st_r = stack.push((n - 1, kids.push(f)));
    assert(st_l.last() == (n, kids));
    assert(st_r.last() == (n - 1, kids.push(f)));
    match spec_decode_elems(s2, n - 1) {
        Err(e) => {
            assert(spec_decode_elems(s, n) == Err::<(Seq<FrameView>, int), FrameError>(e));
        },
        Ok((rest, c2)) => {
            lemma_decode_elems_consumed(s2, n - 1);
            assert(spec_decode_elems(s, n) == Ok::<(Seq<FrameView>, int), FrameError>(
                (seq![f] + rest, c + c2),
            ));
            assert(kids + (seq![f] + rest) =~= kids.push(f) + rest);
            let arr = FrameView {
                id: FrameID::Array,
                data: FrameDataView::Nested(kids + (seq![f] + rest)),
            };
            assert(arr == (FrameView {
                id: FrameID::Array,
                data: FrameDataView::Nested(kids.push(f) + rest),
            }));
            if stack.len() == 0 {
            } else {
                let parent = stack.last();
                assert(st_l[st_l.len() - 2] == parent);
                assert(st_r[st_r.len() - 2] == parent);
                assert(st_l.take(st_l.len() - 2) =~= stack.drop_last());
                assert(st_r.take(st_r.len() - 2) =~= stack.drop_last());
                let st2 = stack.drop_last().push((parent.0 - 1, parent.1.push(arr)));
                assert(s2.skip(c2) =~= s.skip(c + c2));
                lemma_add_consumed_add(spec_finish(st2, s.skip(c + c2)), c2, c);
            }
        },
    }
}

/// A failed decode of the next child fails the whole decode.
pub proof fn lemma_finish_err(
    stack: Seq<(int, Seq<FrameView>)>,
    n: int,
    kids: Seq<FrameView>,
    s: Seq<u8>,
    e: FrameError,
)
    requires
        n >= 1,
        spec_decode(s) == Err::<(FrameView, int), FrameError>(e),
    ensures
        spec_finish(stack.push((n, kids)), s) == Err::<(FrameView, int), FrameError>(e),
{
    let st = stack.push((n, kids));
    assert(st.last() == (n, kids));
    assert(spec_decode_elems(s, n) == Err::<(Seq<FrameView>, int), FrameError>(e));
}

/// An array header at the head of `s` opens a new pending array on
/// the stack.
pub proof fn lemma_finish_open(
    stack: Seq<(int, Seq<FrameView>)>,
    n: int,
    kids: Seq<FrameView>,
    s: Seq<u8>,
    line: Seq<u8>,
    used: int,
    m: int,
)
    requires
        n >= 1,
        s.len() >= 1,
        FrameID::spec_from_u8(s[0]) == Some(FrameID::Array),
        spec_take_line(s.drop_first()) == Ok::<(Seq<u8>, int), FrameError>((line, used)),
        ascii::spec_parse_i64(line) == Some(m as i64),
        0 <= m <= i64::MAX,
        2 <= used,
        1 + used <= s.len(),
    ensures
        spec_finish(stack.push((n, kids)), s) == add_consumed(
            spec_finish(stack.push((n, kids)).push((m, Seq::<FrameView>::empty())), s.skip(1 + used)),
            1 + used,
        ),
{
    let s3 = s.skip(1 + used);
    let st_l = stack.push((n, kids));
    let st_r = st_l.push((m, Seq::<FrameView>::empty()));
    assert(st_l.last() == (n, kids));
    assert(st_r.last() == (m, Seq::<FrameView>::empty()));
    match spec_decode_elems(s3, m) {
        Err(e) => {
            assert(spec_decode(s) == Err::<(FrameView, int), FrameError>(e));
            lemma_finish_err(stack, n, kids, s, e);
        },
        Ok((children, cm)) => {
            lemma_decode_elems_consumed(s3, m);
            assert(Seq::<FrameView>::empty() + children =~= children);
            let av = FrameView { id: FrameID::Array, data: FrameDataView::Nested(children) };
            assert(spec_decode(s) == Ok::<(FrameView, int), FrameError>((av, 1 + used + cm)));
            lemma_finish_step(stack, n, kids, s, av, 1 + used + cm);
            // The inner finish on the right pops the new entry and
            // attaches the completed array to (n, kids).
            assert(st_r[st_r.len() - 2] == (n, kids));
            assert(st_r.take(st_r.len() - 2) =~= stack);
            let st2 = stack.push((n - 1, kids.push(av)));
            assert(s3.skip(cm) =~= s.skip(1 + used + cm));
            let inner = spec_finish(st2, s3.skip(cm));
            assert(spec_finish(st_r, s3) == add_consumed(inner, cm));
            lemma_add_consumed_add(inner, cm, 1 + used);
        },
    }
}

/// Model of the executable decoding stack.
pub open spec fn stack_view(s: Seq<(u64, Vec<Frame>)>) -> Seq<(int, Seq<FrameView>)> {
    s.map_values(|e: (u64, Vec<Frame>)| (e.0 as int, frames_view(e.1@)))
}

/// Starting the decode of a top-level array: the header line has
/// been consumed and one pending array with `n` missing children
/// opens the stack.
proof fn lemma_finish_init(s: Seq<u8>, line: Seq<u8>, used: int, n: int)
    requires
        s.len() >= 1,
        FrameID::spec_from_u8(s[0]) == Some(FrameID::Array),
        spec_take_line(s.drop_first()) == Ok::<(Seq<u8>, int), FrameError>((line, used)),
        ascii::spec_parse_i64(line) == Some(n as i64),
        0 <= n <= i64::MAX,
        2 <= used,
        1 + used <= s.len(),
    ensures
        spec_decode(s) == add_consumed(
            spec_finish(seq![(n, Seq::<FrameView>::empty())], s.skip(1 + used)),
            1 + used,
        ),
{
    let s3 = s.skip(1 + used);
    let st = seq![(n, Seq::<FrameView>::empty())];
    assert(st.last() == (n, Seq::<FrameView>::empty()));
    match spec_decode_elems(s3, n) {
        Err(e) => {
            assert(spec_decode(s) == Err::<(FrameView, int), FrameError>(e));
        },
        Ok((children, cm)) => {
            assert(Seq::<FrameView>::empty() + children =~= children);
            let av = FrameView { id: FrameID::Array, data: FrameDataView::Nested(children) };
            assert(spec_decode(s) == Ok::<(FrameView, int), FrameError>((av, 1 + used + cm)));
            assert(spec_finish(st, s3) == Ok::<(FrameView, int), FrameError>((av, cm)));
        },
    }
}

/// Decode an array frame, iteratively: an explicit stack of pending
/// arrays replaces recursion, so nesting depth is bounded only by
/// the input, never by the call stack.
fn process_aggregate_frames(buf: &Vec<u8>, pos: usize) -> (r: Result<(Frame, usize), FrameError>)
    requires
        pos < buf@.len(),
        FrameID::spec_from_u8(buf@[pos as int]) == Some(FrameID::Array),
    ensures
        matches_decode(buf@.skip(pos as int), r),
{
    let ghost s0 = buf@.skip(pos as int);
    proof {
        assert(buf.len() == buf@.len());
        assert(s0[0] == buf@[pos as int]);
        assert(s0.drop_first() =~= buf@.skip(pos + 1));
    }
    let (line, used) = match take_line(buf, pos + 1) {
        Ok(lu) => lu,
        Err(e) => {
            return Err(e);
        },
    };
    let n: i64 = match ascii::parse_i64(line.as_slice()) {
        Some(v) => v,
        None => {
            return Err(FrameError::Invalid);
        },
    };
    if n < 0 {
        return Err(FrameError::Invalid);
    }
    let mut stack: Vec<(u64, Vec<Frame>)> = Vec::new();
    stack.push((n as u64, Vec::new()));
    let mut cur: usize = pos + 1 + used;
    proof {
        lemma_finish_init(s0, line@, used as int, n as int);
        assert(stack_view(stack@) =~= seq![(n as int, Seq::<FrameView>::empty())]);
        assert(buf@.skip(cur as int) =~= s0.skip(1 + used));
        assert(frames_view(Seq::<Frame>::empty()) == Seq::<FrameView>::empty());
    }
    loop
        invariant
            stack@.len() >= 1,
            pos <= cur <= buf@.len(),
            buf@.len() <= usize::MAX,
            s0 == buf@.skip(pos as int),
            pos < buf@.len(),
            spec_decode(s0) == add_consumed(
                spec_finish(stack_view(stack@), buf@.skip(cur as int)),
                cur - pos,
            ),
            forall|k: int| 0 <= k < stack@.len() ==> frames_wf((#[trigger] stack@[k]).1@),
            forall|k: int| 0 <= k < stack@.len() - 1 ==> (#[trigger] stack@[k]).0 >= 1,
        decreases 2 * (buf@.len() - cur) + stack@.len(),
    {
        let last_idx = stack.len() - 1;
        let top_count = stack[last_idx].0;
        let ghost st0 = stack@;
        let ghost stv = stack_view(st0);
        let ghost below = stv.drop_last();
        let ghost topn = stv.last().0;
        let ghost topkids = stv.last().1;
        proof {
            assert(stv.len() == st0.len());
            assert(stv.last() == (st0.last().0 as int, frames_view(st0.last().1@)));
            assert(stv =~= below.push((topn, topkids)));
            assert(topn == top_count as int);
        }
        if top_count == 0 {
            // The topmost array is complete: close it and hand it to
            // its parent, or return it as the whole frame.
            let (_zero, kids) = match stack.pop() {
                Some(entry) => entry,
                None => {
                    proof {
                        assert(false);
                    }
                    vstd::pervasive::unreached()
                },
            };
            let arr = Frame { frame_type: FrameID::Array, frame_data: FrameData::Nested(kids) };
            let ghost vk = frames_view(kids@);
            proof {
                assert((_zero, kids) == st0.last());
                assert(topkids == vk);
                assert(stack@ =~= st0.drop_last());
                lemma_finish_pop(below, vk, buf@.skip(cur as int));
                assert(arr@.data == FrameDataView::Nested(vk));
                assert(frames_wf(kids@));
                assert(frame_wf(arr));
            }
            if stack.len() == 0 {
                proof {
                    assert(below.len() == 0);
                    assert(spec_finish(stv, buf@.skip(cur as int)) == Ok::<
                        (FrameView, int),
                        FrameError,
                    >((arr@, 0)));
                }
                return Ok((arr, cur - pos));
            }
            let ghost st1 = stack@;
            let (pn, mut pkids) = match stack.pop() {
                Some(entry) => entry,
                None => {
                    proof {
                        assert(false);
                    }
                    vstd::pervasive::unreached()
                },
            };
            let ghost pk0 = pkids@;
            proof {
                assert((pn, pkids) == st1.last());
                assert(st1.last() == st0[st0.len() - 2]);
                assert(pn >= 1);
                assert(stack@ =~= st1.drop_last());
                assert forall|k: int| 0 <= k < below.len() implies below[k] == (
                    ((#[trigger] st0[k]).0 as int),
                    frames_view(st0[k].1@),
                ) by {}
                assert(below.last() == (pn as int, frames_view(pk0)));
            }
            pkids.push(arr);
            let ghost pk1 = pkids@;
            stack.push((pn - 1, pkids));
            proof {
                assert(pk1 == pk0.push(arr));
                lemma_frames_view_push(pk0, arr);
                assert(frames_view(pk1) == frames_view(pk0).push(arr@));
                let parent = below.last();
                let target = below.drop_last().push((parent.0 - 1, parent.1.push(arr@)));
                assert((pn - 1) as int == parent.0 - 1);
                assert(stack_view(stack@) =~= target);
                assert(spec_finish(stv, buf@.skip(cur as int)) == spec_finish(
                    stack_view(stack@),
                    buf@.skip(cur as int),
                ));
                // Well-formedness of every stack entry is preserved.
                lemma_views_wf_index(frames_view(pk0));
                lemma_views_wf_index(frames_view(pk1));
                assert(views_wf(vk));
                assert(view_wf(arr@));
                assert forall|i: int| 0 <= i < frames_view(pk1).len() implies view_wf(
                    #[trigger] frames_view(pk1)[i],
                ) by {
                    if i < frames_view(pk0).len() {
                        assert(frames_view(pk1)[i] == frames_view(pk0)[i]);
                    } else {
                        assert(frames_view(pk1)[i] == arr@);
                    }
                }
                assert(frames_wf(pk1));
                assert forall|k: int| 0 <= k < stack@.len() implies frames_wf(
                    (#[trigger] stack@[k]).1@,
                ) by {
                    if k < stack@.len() - 1 {
                        assert(stack@[k] == st0[k]);
                    }
                }
                assert forall|k: int| 0 <= k < stack@.len() - 1 implies (#[trigger] stack@[k]).0
                    >= 1 by {
                    assert(stack@[k] == st0[k]);
                }
            }
        } else {
            // The topmost array still misses children: decode the
            // next frame at `cur`.
            let ghost scur = buf@.skip(cur as int);
            proof {
                assert(topn >= 1);
            }
            let id = match get_frame_id(buf, cur) {
                Ok(id) => id,
                Err(e) => {
                    proof {
                        assert(spec_decode(scur) == Err::<(FrameView, int), FrameError>(e));
                        lemma_finish_err(below, topn, topkids, scur, e);
                    }
                    return Err(e);
                },
            };
            proof {
                assert(scur[0] == buf@[cur as int]);
            }
            if id == FrameID::Array {
                proof {
                    assert(scur.drop_first() =~= buf@.skip(cur + 1));
                }
                let (line2, used2) = match take_line(buf, cur + 1) {
                    Ok(lu) => lu,
                    Err(e) => {
                        proof {
                            assert(spec_decode(scur) == Err::<(FrameView, int), FrameError>(e));
                            lemma_finish_err(below, topn, topkids, scur, e);
                        }
                        return Err(e);
                    },
                };
                let m: i64 = match ascii::parse_i64(line2.as_slice()) {
                    Some(v) => v,
                    None => {
                        proof {
                            assert(spec_decode(scur) == Err::<(FrameView, int), FrameError>(
                                FrameError::Invalid,
                            ));
                            lemma_finish_err(below, topn, topkids, scur, FrameError::Invalid);
                        }
                        return Err(FrameError::Invalid);
                    },
                };
                if m < 0 {
                    proof {
                        assert(spec_decode(scur) == Err::<(FrameView, int), FrameError>(
                            FrameError::Invalid,
                        ));
                        lemma_finish_err(below, topn, topkids, scur, FrameError::Invalid);
                    }
                    return Err(FrameError::Invalid);
                }
                stack.push((m as u64, Vec::new()));
                let old_cur = cur;
                cur = cur + 1 + used2;
                proof {
                    lemma_finish_open(below, topn, topkids, scur, line2@, used2 as int, m as int);
                    assert(frames_view(Seq::<Frame>::empty()) == Seq::<FrameView>::empty());
                    assert(stack@.last() == (m as u64, stack@.last().1));
                    assert(stack@.last().1@ =~= Seq::<Frame>::empty());
                    assert(stack@ =~= st0.push(stack@.last()));
                    assert(stack_view(stack@) =~= stv.push((m as int, Seq::<FrameView>::empty())));
                    assert(buf@.skip(cur as int) =~= scur.skip(1 + used2));
                    lemma_add_consumed_add(
                        spec_finish(stack_view(stack@), buf@.skip(cur as int)),
                        1 + used2,
                        old_cur - pos,
                    );
                    assert forall|k: int| 0 <= k < stack@.len() implies frames_wf(
                        (#[trigger] stack@[k]).1@,
                    ) by {
                        if k < stack@.len() - 1 {
                            assert(stack@[k] == st0[k]);
                        }
                    }
                    assert forall|k: int| 0 <= k < stack@.len() - 1 implies (
                    #[trigger] stack@[k]).0 >= 1 by {
                        assert(stack@[k] == st0[k]);
                    }
                }
            } else {
                let (f, c) = match process_non_aggregate(id, buf, cur) {
                    Ok(fc) => fc,
                    Err(e) => {
                        proof {
                            assert(spec_decode(scur) == Err::<(FrameView, int), FrameError>(e));
                            lemma_finish_err(below, topn, topkids, scur, e);
                        }
                        return Err(e);
                    },
                };
                proof {
                    lemma_decode_consumed(scur);
                }
                let (cnt, mut kids) = match stack.pop() {
                    Some(entry) => entry,
                    None => {
                        proof {
                            assert(false);
                        }
                        vstd::pervasive::unreached()
                    },
                };
                let ghost pk0 = kids@;
                proof {
                    assert((cnt, kids) == st0.last());
                    assert(cnt == top_count);
                }
                kids.push(f);
                let ghost pk1 = kids@;
                stack.push((cnt - 1, kids));
                let old_cur = cur;
                cur = cur + c;
                proof {
                    assert(pk1 == pk0.push(f));
                    lemma_frames_view_push(pk0, f);
                    assert(frames_view(pk1) == topkids.push(f@));
                    assert(stack@ =~= st0.drop_last().push(((cnt - 1) as u64, stack@.last().1)));
                    assert(stack_view(stack@) =~= below.push((topn - 1, topkids.push(f@))));
                    lemma_finish_step(below, topn, topkids, scur, f@, c as int);
                    assert(buf@.skip(cur as int) =~= scur.skip(c as int));
                    lemma_add_consumed_add(
                        spec_finish(stack_view(stack@), buf@.skip(cur as int)),
                        c as int,
                        old_cur - pos,
                    );
                    // Well-formedness of every stack entry is preserved.
                    lemma_views_wf_index(frames_view(pk0));
                    lemma_views_wf_index(frames_view(pk1));
                    assert forall|i: int| 0 <= i < frames_view(pk1).len() implies view_wf(
                        #[trigger] frames_view(pk1)[i],
                    ) by {
                        if i < frames_view(pk0).len() {
                            assert(frames_view(pk1)[i] == frames_view(pk0)[i]);
                        } else {
                            assert(frames_view(pk1)[i] == f@);
                        }
                    }
                    assert(frames_wf(pk1));
                    assert forall|k: int| 0 <= k < stack@.len() implies frames_wf(
                        (#[trigger] stack@[k]).1@,
                    ) by {
                        if k < stack@.len() - 1 {
                            assert(stack@[k] == st0[k]);
                        }
                    }
                    assert forall|k: int| 0 <= k < stack@.len() - 1 implies (
                    #[trigger] stack@[k]).0 >= 1 by {
                        assert(stack@[k] == st0[k]);
                    }
                }
            }
        }
    }
}

/// Decode one complete frame from the start of `buf`, returning the
/// frame and how many bytes it occupied.  The decoder never reads
/// past the frame it returns; `Incomplete` asks the caller for more
/// bytes.
pub fn decode(buf: &Vec<u8>) -> (r: Result<(Frame, usize), FrameError>)
    ensures
        matches_decode(buf@, r),
{
    proof {
        assert(buf@.skip(0) =~= buf@);
        assert(buf.len() == buf@.len());
    }
    match get_frame_id(buf, 0) {
        Err(e) => Err(e),
        Ok(id) => {
            proof {
                assert(buf@[0] == buf@.skip(0)[0]);
            }
            if id == FrameID::Array {
                let r = process_aggregate_frames(buf, 0);
                proof {
                    assert(matches_decode(buf@.skip(0), r));
                }
                r
            } else {
                let r = process_non_aggregate(id, buf, 0);
                proof {
                    assert(matches_decode(buf@.skip(0), r));
                }
                r
            }
        },
    }
}


/// Every length that the wire format writes as a decimal line must
/// fit in a signed 64-bit integer; this holds of any frame that fits
/// in memory.
pub open spec fn view_sized(v: FrameView) -> bool
    decreases v,
{
    match v.data {
        FrameDataView::Bulk(data) => data.len() <= i64::MAX,
        FrameDataView::Nested(children) => children.len() <= i64::MAX && views_sized(children),
        _ => true,
    }
}

pub open spec fn views_sized(s: Seq<FrameView>) -> bool
    decreases s,
{
    s.len() == 0 || (view_sized(s[0]) && views_sized(s.drop_first()))
}

/// A line followed by CR LF and anything else is taken back intact.
proof fn lemma_take_line_exact(content: Seq<u8>, tail: Seq<u8>)
    requires
        ascii::line_ok(content),
    ensures
        spec_take_line(content + seq![CR, LF] + tail) == Ok::<(Seq<u8>, int), FrameError>(
            (content, content.len() as int + 2),
        ),
{
    let s = content + seq![CR, LF] + tail;
    let j = content.len() as int + 1;
    assert(s[j] == LF);
    assert forall|k: int| 0 <= k < j implies s[k] != LF by {
        if k < content.len() {
            assert(s[k] == content[k]);
        } else {
            assert(s[k] == CR);
        }
    }
    lemma_first_lf_at(s, j);
    assert(s[j - 1] == CR);
    assert(s.subrange(0, j - 1) =~= content);
}

/// Round trip: decoding the encoding of a well-formed frame, with
/// any trailing bytes, gives the frame back and consumes exactly its
/// encoding.
#[verifier::spinoff_prover]
#[verifier::rlimit(60)]
pub proof fn lemma_round_trip(v: FrameView, rest: Seq<u8>)
    requires
        view_wf(v),
        view_sized(v),
    ensures
        spec_decode(spec_encode(v) + rest) == Ok::<(FrameView, int), FrameError>(
            (v, spec_encode(v).len() as int),
        ),
    decreases v,
{
    let enc = spec_encode(v);
    let s = enc + rest;
    let m = v.id.spec_marker();
    lemma_marker_from_u8(v.id);
    match v.data {
        FrameDataView::Null => {
            assert(s =~= seq![m] + (Seq::<u8>::empty() + seq![CR, LF] + rest));
            assert(s[0] == m);
            assert(s.drop_first() =~= Seq::<u8>::empty() + seq![CR, LF] + rest);
            lemma_take_line_exact(Seq::<u8>::empty(), rest);
            assert(enc.len() == 3);
        },
        FrameDataView::Simple(line) => {
            assert(s =~= seq![m] + (line + seq![CR, LF] + rest));
            assert(s[0] == m);
            assert(s.drop_first() =~= line + seq![CR, LF] + rest);
            lemma_take_line_exact(line, rest);
            assert(spec_leaf_from_line(v.id, line) == Ok::<FrameView, FrameError>(v));
            assert(enc.len() == 3 + line.len());
        },
        FrameDataView::Integer(i) => {
            let digits = ascii::spec_fmt_i64(i as int);
            ascii::lemma_fmt_i64_line_ok(i as int);
            assert(s =~= seq![m] + (digits + seq![CR, LF] + rest));
            assert(s[0] == m);
            assert(s.drop_first() =~= digits + seq![CR, LF] + rest);
            lemma_take_line_exact(digits, rest);
            ascii::lemma_parse_fmt_i64(i);
            assert(spec_leaf_from_line(v.id, digits) == Ok::<FrameView, FrameError>(v));
            assert(enc.len() == 3 + digits.len());
        },
        FrameDataView::Boolean(b) => {
            let payload = if b {
                seq![116u8]
            } else {
                seq![102u8]
            };
            assert(ascii::line_ok(payload)) by {
                assert(payload[0] != CR && payload[0] != LF);
            }
            assert(s =~= seq![m] + (payload + seq![CR, LF] + rest));
            assert(s[0] == m);
            assert(s.drop_first() =~= payload + seq![CR, LF] + rest);
            lemma_take_line_exact(payload, rest);
            if b {
                assert(payload == seq![116u8]);
            } else {
                assert(payload != seq![116u8]);
                assert(payload == seq![102u8]);
            }
            assert(spec_leaf_from_line(v.id, payload) == Ok::<FrameView, FrameError>(v));
            assert(enc.len() == 4);
        },
        FrameDataView::Bulk(data) => {
            let n = data.len() as int;
            let digits = ascii::spec_dec_u64(data.len());
            ascii::lemma_dec_u64_line_ok(data.len());
            ascii::lemma_parse_dec_i64(data.len());
            let used = digits.len() as int + 2;
            assert(s =~= seq![m] + (digits + seq![CR, LF] + (data + seq![CR, LF] + rest)));
            assert(s[0] == m);
            assert(s.drop_first() =~= digits + seq![CR, LF] + (data + seq![CR, LF] + rest));
            lemma_take_line_exact(digits, data + seq![CR, LF] + rest);
            let h = seq![m] + digits + seq![CR, LF];
            assert(h.len() == 1 + used);
            assert(s =~= h + (data + (seq![CR, LF] + rest)));
            assert(s.len() >= 1 + used + n + 2);
            assert(s[1 + used + n] == (seq![CR, LF] + rest)[0]);
            assert(s[1 + used + n] == CR);
            assert(s[1 + used + n + 1] == (seq![CR, LF] + rest)[1]);
            assert(s[1 + used + n + 1] == LF);
            assert forall|i: int| 0 <= i < n implies s[1 + used + i] == data[i] by {
                assert(s[h.len() + i] == (data + (seq![CR, LF] + rest))[i]);
            }
            assert(s.subrange(1 + used, 1 + used + n) =~= data);
            assert(enc.len() == 1 + used + n + 2);
        },
        FrameDataView::Nested(children) => {
            let cnt = children.len() as int;
            let digits = ascii::spec_dec_u64(children.len());
            ascii::lemma_dec_u64_line_ok(children.len());
            ascii::lemma_parse_dec_i64(children.len());
            let used = digits.len() as int + 2;
            let body = spec_encode_seq(children);
            assert(s =~= seq![m] + (digits + seq![CR, LF] + (body + rest)));
            assert(s[0] == m);
            assert(s.drop_first() =~= digits + seq![CR, LF] + (body + rest));
            lemma_take_line_exact(digits, body + rest);
            assert(s.drop_first().len() == used - 2 + 2 + body.len() + rest.len());
            assert(1 + used <= s.len());
            assert(s.skip(1 + used) =~= body + rest);
            assert(decreases_to!(v => v.data));
            assert(decreases_to!(v.data => v.data->Nested_0));
            assert(decreases_to!(v => children));
            lemma_round_trip_seq(children, rest);
            assert(spec_decode_elems(s.skip(1 + used), cnt) == Ok::<
                (Seq<FrameView>, int),
                FrameError,
            >((children, body.len() as int)));
            assert(enc.len() == 1 + used + body.len());
        },
    }
}

/// Round trip for a run of frames, in order.
pub proof fn lemma_round_trip_seq(children: Seq<FrameView>, rest: Seq<u8>)
    requires
        views_wf(children),
        views_sized(children),
    ensures
        spec_decode_elems(spec_encode_seq(children) + rest, children.len() as int) == Ok::<
            (Seq<FrameView>, int),
            FrameError,
        >((children, spec_encode_seq(children).len() as int)),
    decreases children,
{
    let body = spec_encode_seq(children);
    let s = body + rest;
    if children.len() == 0 {
        assert(s =~= rest);
        assert(spec_decode_elems(rest, 0) == Ok::<(Seq<FrameView>, int), FrameError>(
            (Seq::<FrameView>::empty(), 0),
        ));
        assert(children =~= Seq::<FrameView>::empty());
    } else {
        let head = children[0];
        let tail = children.drop_first();
        let enc_head = spec_encode(head);
        let enc_tail = spec_encode_seq(tail);
        assert(s =~= enc_head + (enc_tail + rest));
        lemma_round_trip(head, enc_tail + rest);
        let c0 = enc_head.len() as int;
        lemma_decode_consumed(s);
        assert(1 <= c0 <= s.len());
        assert(s.skip(c0) =~= enc_tail + rest);
        lemma_round_trip_seq(tail, rest);
        assert(spec_decode_elems(s.skip(c0), tail.len() as int) == Ok::<
            (Seq<FrameView>, int),
            FrameError,
        >((tail, enc_tail.len() as int)));
        assert(seq![head] + tail =~= children);
        assert(body.len() == enc_head.len() + enc_tail.len());
    }
}


/// Prefix relation between two byte buffers.
pub open spec fn is_prefix(s1: Seq<u8>, s2: Seq<u8>) -> bool {
    s1.len() <= s2.len() && s1 == s2.take(s1.len() as int)
}

proof fn lemma_take_line_prefix(s1: Seq<u8>, s2: Seq<u8>)
    requires
        is_prefix(s1, s2),
    ensures
        spec_take_line(s1) matches Ok(r) ==> spec_take_line(s2) == Ok::<
            (Seq<u8>, int),
            FrameError,
        >(r),
        spec_take_line(s2) matches Ok((line, used)) ==> {
            &&& used <= s1.len() ==> spec_take_line(s1) == Ok::<(Seq<u8>, int), FrameError>(
                (line, used),
            )
            &&& s1.len() < used ==> spec_take_line(s1) == Err::<(Seq<u8>, int), FrameError>(
                FrameError::Incomplete,
            )
        },
{
    assert forall|i: int| 0 <= i < s1.len() implies s1[i] == s2[i] by {
        assert(s2.take(s1.len() as int)[i] == s2[i]);
    }
    match spec_take_line(s1) {
        Ok((l, u)) => {
            lemma_first_lf(s1);
            let j = u - 1;
            assert(s2[j] == s1[j]);
            assert forall|k: int| 0 <= k < j implies s2[k] != LF by {
                assert(s2[k] == s1[k]);
            }
            lemma_first_lf_at(s2, j);
            assert(s2[j - 1] == s1[j - 1]);
            assert(s2.subrange(0, j - 1) =~= s1.subrange(0, j - 1));
        },
        Err(_) => {},
    }
    match spec_take_line(s2) {
        Ok((l, u)) => {
            lemma_first_lf(s2);
            let j = u - 1;
            if u <= s1.len() {
                assert(s1[j] == s2[j]);
                assert forall|k: int| 0 <= k < j implies s1[k] != LF by {
                    assert(s1[k] == s2[k]);
                }
                lemma_first_lf_at(s1, j);
                assert(s1[j - 1] == s2[j - 1]);
                assert(s1.subrange(0, j - 1) =~= s2.subrange(0, j - 1));
            } else {
                lemma_first_lf(s1);
                match first_lf(s1) {
                    Some(j1) => {
                        assert(s1[j1] == s2[j1]);
                        assert(s2[j1] != LF);
                    },
                    None => {},
                }
            }
        },
        Err(_) => {},
    }
}

/// The decoder is local: it looks only at the bytes of the frame it
/// returns.  Growing the buffer never changes a decoded frame, a
/// frame decoded from a longer buffer is decoded from any prefix
/// that still contains all of it, and a prefix that cuts the frame
/// short yields `Incomplete` and nothing else.  Together these say
/// that feeding a stream to the decoder byte by byte gives the same
/// result as feeding it whole.
#[verifier::spinoff_prover]
#[verifier::rlimit(60)]
pub proof fn lemma_decode_prefix(s1: Seq<u8>, s2: Seq<u8>)
    requires
        is_prefix(s1, s2),
    ensures
        spec_decode(s1) matches Ok(r) ==> spec_decode(s2) == Ok::<(FrameView, int), FrameError>(r),
        spec_decode(s2) matches Ok((v, c)) ==> {
            &&& c <= s1.len() ==> spec_decode(s1) == Ok::<(FrameView, int), FrameError>((v, c))
            &&& s1.len() < c ==> spec_decode(s1) == Err::<(FrameView, int), FrameError>(
                FrameError::Incomplete,
            )
        },
    decreases s1.len(), 0int, 2int,
{
    assert forall|i: int| 0 <= i < s1.len() implies s1[i] == s2[i] by {
        assert(s2.take(s1.len() as int)[i] == s2[i]);
    }
    lemma_decode_consumed(s1);
    lemma_decode_consumed(s2);
    if s1.len() == 0 {
        // an empty prefix decodes to nothing but `Incomplete`
    } else {
        assert(s1[0] == s2[0]);
        lemma_decode_prefix_nonempty(s1, s2);
    }
}

proof fn lemma_decode_prefix_nonempty(s1: Seq<u8>, s2: Seq<u8>)
    requires
        is_prefix(s1, s2),
        s1.len() >= 1,
    ensures
        spec_decode(s1) matches Ok(r) ==> spec_decode(s2) == Ok::<(FrameView, int), FrameError>(r),
        spec_decode(s2) matches Ok((v, c)) ==> {
            &&& c <= s1.len() ==> spec_decode(s1) == Ok::<(FrameView, int), FrameError>((v, c))
            &&& s1.len() < c ==> spec_decode(s1) == Err::<(FrameView, int), FrameError>(
                FrameError::Incomplete,
            )
        },
    decreases s1.len(), 0int, 1int,
{
    assert forall|i: int| 0 <= i < s1.len() implies s1[i] == s2[i] by {
        assert(s2.take(s1.len() as int)[i] == s2[i]);
    }
    lemma_decode_consumed(s1);
    lemma_decode_consumed(s2);
    assert(s1[0] == s2[0]);
    let s1t = s1.drop_first();
    let s2t = s2.drop_first();
    assert(is_prefix(s1t, s2t)) by {
        assert(s1t =~= s2t.take(s1t.len() as int));
    }
    assert(s1t.len() == s1.len() - 1);
    lemma_take_line_prefix(s1t, s2t);
    let id_opt = FrameID::spec_from_u8(s1[0]);
    if id_opt is None {
        // an unrecognized marker fails on both buffers alike
    } else {
        let id = id_opt->0;
        lemma_decode_prefix_body(s1, s2, id);
    }
}

proof fn lemma_decode_prefix_body(s1: Seq<u8>, s2: Seq<u8>, id: FrameID)
    requires
        is_prefix(s1, s2),
        s1.len() >= 1,
        FrameID::spec_from_u8(s1[0]) == Some(id),
    ensures
        spec_decode(s1) matches Ok(r) ==> spec_decode(s2) == Ok::<(FrameView, int), FrameError>(r),
        spec_decode(s2) matches Ok((v, c)) ==> {
            &&& c <= s1.len() ==> spec_decode(s1) == Ok::<(FrameView, int), FrameError>((v, c))
            &&& s1.len() < c ==> spec_decode(s1) == Err::<(FrameView, int), FrameError>(
                FrameError::Incomplete,
            )
        },
    decreases s1.len(), 0int, 0int,
{
    assert forall|i: int| 0 <= i < s1.len() implies s1[i] == s2[i] by {
        assert(s2.take(s1.len() as int)[i] == s2[i]);
    }
    lemma_decode_consumed(s1);
    lemma_decode_consumed(s2);
    assert(s1[0] == s2[0]);
    let s1t = s1.drop_first();
    let s2t = s2.drop_first();
    assert(is_prefix(s1t, s2t)) by {
        assert(s1t =~= s2t.take(s1t.len() as int));
    }
    assert(s1t.len() == s1.len() - 1);
    lemma_take_line_prefix(s1t, s2t);
    match spec_take_line(s2t) {
        Err(_) => {
            // The longer buffer has no complete header line, so
            // neither has the shorter one; both sides decode to the
            // same error or the upward case is vacuous.
        },
        Ok((line, used)) => {
            lemma_take_line_bounds(s2t);
            if id == FrameID::Array {
                match ascii::spec_parse_i64(line) {
                    None => {},
                    Some(m) => {
                        if m >= 0 {
                            let r1 = s1.skip(1 + used);
                            let r2 = s2.skip(1 + used);
                            lemma_decode_elems_consumed(r2, m as int);
                            match spec_decode_elems(r2, m as int) {
                                Ok((ch, cm)) => {
                                    assert(spec_decode(s2) == Ok::<
                                        (FrameView, int),
                                        FrameError,
                                    >(
                                        (
                                            FrameView {
                                                id: FrameID::Array,
                                                data: FrameDataView::Nested(ch),
                                            },
                                            1 + used + cm,
                                        ),
                                    ));
                                    if s1.len() < 1 + used {
                                        assert(s1t.len() < used);
                                        assert(spec_take_line(s1t) == Err::<
                                            (Seq<u8>, int),
                                            FrameError,
                                        >(FrameError::Incomplete));
                                        assert(spec_decode(s1) == Err::<
                                            (FrameView, int),
                                            FrameError,
                                        >(FrameError::Incomplete));
                                    } else {
                                        assert(used <= s1t.len());
                                        assert(spec_take_line(s1t) == Ok::<
                                            (Seq<u8>, int),
                                            FrameError,
                                        >((line, used)));
                                        assert(is_prefix(r1, r2)) by {
                                            assert(r1 =~= r2.take(r1.len() as int));
                                        }
                                        lemma_decode_elems_prefix(r1, r2, m as int);
                                        lemma_decode_elems_consumed(r1, m as int);
                                        if 1 + used + cm <= s1.len() {
                                            assert(cm <= r1.len());
                                            assert(spec_decode_elems(r1, m as int) == Ok::<
                                                (Seq<FrameView>, int),
                                                FrameError,
                                            >((ch, cm)));
                                        } else {
                                            assert(r1.len() < cm);
                                            assert(spec_decode_elems(r1, m as int) == Err::<
                                                (Seq<FrameView>, int),
                                                FrameError,
                                            >(FrameError::Incomplete));
                                            assert(spec_decode(s1) == Err::<
                                                (FrameView, int),
                                                FrameError,
                                            >(FrameError::Incomplete));
                                        }
                                    }
                                },
                                Err(_) => {
                                    // decode of the longer buffer fails;
                                    // if the shorter buffer decoded, the
                                    // elements of its array would decode
                                    // in the longer buffer too.
                                    if s1.len() >= 1 + used {
                                        assert(is_prefix(r1, r2)) by {
                                            assert(r1 =~= r2.take(r1.len() as int));
                                        }
                                        lemma_decode_elems_prefix(r1, r2, m as int);
                                    }
                                },
                            }
                        }
                    },
                }
            } else if id == FrameID::BulkString || id == FrameID::BulkError {
                match ascii::spec_parse_i64(line) {
                    None => {},
                    Some(m) => {
                        if m >= 0 {
                            if s2.len() >= 1 + used + m + 2 {
                                assert(spec_decode(s2) matches Ok((v, c)) ==> c == 1 + used + m
                                    + 2);
                                if 1 + used + m + 2 <= s1.len() {
                                    assert(used <= s1t.len());
                                    assert(spec_take_line(s1t) == Ok::<
                                        (Seq<u8>, int),
                                        FrameError,
                                    >((line, used)));
                                    assert(s1.len() >= 1 + used + m + 2);
                                    assert(s1[1 + used + m] == s2[1 + used + m]);
                                    assert(s1[1 + used + m + 1] == s2[1 + used + m + 1]);
                                    assert(s1.subrange(1 + used, 1 + used + m) =~= s2.subrange(
                                        1 + used,
                                        1 + used + m,
                                    ));
                                } else if s1.len() < 1 + used {
                                    assert(s1t.len() < used);
                                    assert(spec_take_line(s1t) == Err::<
                                        (Seq<u8>, int),
                                        FrameError,
                                    >(FrameError::Incomplete));
                                    assert(spec_decode(s1) == Err::<
                                        (FrameView, int),
                                        FrameError,
                                    >(FrameError::Incomplete));
                                } else {
                                    assert(used <= s1t.len());
                                    assert(spec_take_line(s1t) == Ok::<
                                        (Seq<u8>, int),
                                        FrameError,
                                    >((line, used)));
                                    assert(s1.len() < 1 + used + m + 2);
                                    assert(spec_decode(s1) == Err::<
                                        (FrameView, int),
                                        FrameError,
                                    >(FrameError::Incomplete));
                                }
                            } else {
                                // The longer buffer is itself incomplete.
                                if s1.len() >= 1 + used {
                                    assert(s1.len() < 1 + used + m + 2);
                                }
                            }
                        }
                    },
                }
            } else {
                // Simple-line frames: the whole frame is the header
                // line.
                if 1 + used <= s1.len() {
                    assert(used <= s1t.len());
                    assert(spec_take_line(s1t) == Ok::<(Seq<u8>, int), FrameError>((line, used)));
                } else {
                    assert(s1t.len() < used);
                    assert(spec_take_line(s1t) == Err::<(Seq<u8>, int), FrameError>(
                        FrameError::Incomplete,
                    ));
                    assert(spec_decode(s1) == Err::<(FrameView, int), FrameError>(
                        FrameError::Incomplete,
                    ));
                }
            }
        },
    }
}

/// `lemma_decode_prefix`, lifted to runs of `n` frames.
pub proof fn lemma_decode_elems_prefix(s1: Seq<u8>, s2: Seq<u8>, n: int)
    requires
        is_prefix(s1, s2),
    ensures
        spec_decode_elems(s1, n) matches Ok(r) ==> spec_decode_elems(s2, n) == Ok::<
            (Seq<FrameView>, int),
            FrameError,
        >(r),
        spec_decode_elems(s2, n) matches Ok((vs, c)) ==> {
            &&& c <= s1.len() ==> spec_decode_elems(s1, n) == Ok::<
                (Seq<FrameView>, int),
                FrameError,
            >((vs, c))
            &&& s1.len() < c ==> spec_decode_elems(s1, n) == Err::<
                (Seq<FrameView>, int),
                FrameError,
            >(FrameError::Incomplete)
        },
    decreases s1.len(), n + 1, 1int,
{
    if n <= 0 {
        // no frames asked for: both sides yield the empty run
    } else {
        lemma_decode_elems_prefix_pos(s1, s2, n);
    }
}

proof fn lemma_decode_elems_prefix_pos(s1: Seq<u8>, s2: Seq<u8>, n: int)
    requires
        is_prefix(s1, s2),
        n >= 1,
    ensures
        spec_decode_elems(s1, n) matches Ok(r) ==> spec_decode_elems(s2, n) == Ok::<
            (Seq<FrameView>, int),
            FrameError,
        >(r),
        spec_decode_elems(s2, n) matches Ok((vs, c)) ==> {
            &&& c <= s1.len() ==> spec_decode_elems(s1, n) == Ok::<
                (Seq<FrameView>, int),
                FrameError,
            >((vs, c))
            &&& s1.len() < c ==> spec_decode_elems(s1, n) == Err::<
                (Seq<FrameView>, int),
                FrameError,
            >(FrameError::Incomplete)
        },
    decreases s1.len(), n + 1, 0int,
{
    lemma_decode_prefix(s1, s2);
    lemma_decode_consumed(s1);
    lemma_decode_consumed(s2);
    match spec_decode(s2) {
        Ok((f, cf)) => {
            if s1.len() < cf {
                assert(spec_decode(s1) == Err::<(FrameView, int), FrameError>(
                    FrameError::Incomplete,
                ));
                assert(spec_decode_elems(s1, n) == Err::<(Seq<FrameView>, int), FrameError>(
                    FrameError::Incomplete,
                ));
                let r2 = s2.skip(cf);
                lemma_decode_elems_consumed(r2, n - 1);
                match spec_decode_elems(r2, n - 1) {
                    Ok((vs2, c2)) => {
                        assert(spec_decode_elems(s2, n) == Ok::<
                            (Seq<FrameView>, int),
                            FrameError,
                        >((seq![f] + vs2, cf + c2)));
                        assert(cf + c2 > s1.len());
                    },
                    Err(e2) => {
                        assert(spec_decode_elems(s2, n) == Err::<
                            (Seq<FrameView>, int),
                            FrameError,
                        >(e2));
                    },
                }
            } else {
                assert(spec_decode(s1) == Ok::<(FrameView, int), FrameError>((f, cf)));
                let r1 = s1.skip(cf);
                let r2 = s2.skip(cf);
                assert(is_prefix(r1, r2)) by {
                    assert(r1 =~= r2.take(r1.len() as int));
                }
                lemma_decode_elems_prefix(r1, r2, n - 1);
                lemma_decode_elems_consumed(r1, n - 1);
                lemma_decode_elems_consumed(r2, n - 1);
                match spec_decode_elems(r2, n - 1) {
                    Ok((vs2, c2)) => {
                        assert(spec_decode_elems(s2, n) == Ok::<
                            (Seq<FrameView>, int),
                            FrameError,
                        >((seq![f] + vs2, cf + c2)));
                        if cf + c2 <= s1.len() {
                            assert(c2 <= r1.len());
                            assert(spec_decode_elems(r1, n - 1) == Ok::<
                                (Seq<FrameView>, int),
                                FrameError,
                            >((vs2, c2)));
                            assert(spec_decode_elems(s1, n) == Ok::<
                                (Seq<FrameView>, int),
                                FrameError,
                            >((seq![f] + vs2, cf + c2)));
                        } else {
                            assert(r1.len() < c2);
                            assert(spec_decode_elems(r1, n - 1) == Err::<
                                (Seq<FrameView>, int),
                                FrameError,
                            >(FrameError::Incomplete));
                            assert(spec_decode_elems(s1, n) == Err::<
                                (Seq<FrameView>, int),
                                FrameError,
                            >(FrameError::Incomplete));
                        }
                    },
                    Err(e2) => {
                        // The longer buffer fails on the remaining
                        // frames; the upward direction of the
                        // recursive call rules out a success on the
                        // shorter one.
                        assert(spec_decode_elems(s2, n) == Err::<
                            (Seq<FrameView>, int),
                            FrameError,
                        >(e2));
                    },
                }
            }
        },
        Err(_) => {
            match spec_decode(s1) {
                Ok(_) => {
                    assert(false);
                },
                Err(_) => {},
            }
        },
    }
}

/// Incremental decoding: while the buffer holds less than the full
/// encoding of a frame the decoder asks for more bytes, and from the
/// moment the encoding is complete it returns that frame, whatever
/// arrived after it.  Feeding bytes one at a time thus ends in the
/// same result as feeding the encoding whole.
pub proof fn lemma_decode_incremental(v: FrameView, rest: Seq<u8>, k: int)
    requires
        view_wf(v),
        view_sized(v),
        0 <= k <= spec_encode(v).len() + rest.len(),
    ensures
        spec_decode((spec_encode(v) + rest).take(k)) == if k < spec_encode(v).len() {
            Err::<(FrameView, int), FrameError>(FrameError::Incomplete)
        } else {
            Ok::<(FrameView, int), FrameError>((v, spec_encode(v).len() as int))
        },
{
    let s = spec_encode(v) + rest;
    let p = s.take(k);
    lemma_round_trip(v, rest);
    assert(is_prefix(p, s)) by {
        assert(p =~= s.take(p.len() as int));
    }
    lemma_decode_prefix(p, s);
}


} // verus!
