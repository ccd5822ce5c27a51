//! RESP frame values and their wire encoding.
//!
//! A `Frame` pairs a type tag (`FrameID`) with a payload
//! (`FrameData`).  Simple frames carry a single line that may not
//! contain CR or LF; bulk frames carry an arbitrary byte blob with a
//! length prefix; arrays nest frames.  The mathematical model of a
//! frame is `FrameView`, reached through `@`; `view_wf` is the
//! invariant every frame built by this crate satisfies, and
//! `spec_encode` is the rendering a well-formed frame has on the
//! wire.

use vstd::prelude::*;
use vstd::slice::slice_to_vec;

use crate::ascii;
use crate::ascii::{CR, LF};

verus! {

/// Type tag of a frame; each variant corresponds to one marker byte
/// on the wire.
#[derive(Debug, Clone, Copy, PartialEq, Eq, Structural)]
pub enum FrameID {
    Integer,
    SimpleString,
    SimpleError,
    BulkString,
    BulkError,
    Boolean,
    Null,
    BigNumber,
    Array,
}

impl FrameID {
    /// Marker byte that announces this frame type.
    pub open spec fn spec_marker(self) -> u8 {
        match self {
            FrameID::Integer => 58,  // ':'
            FrameID::SimpleString => 43,  // '+'
            FrameID::SimpleError => 45,  // '-'
            FrameID::BulkString => 36,  // '$'
            FrameID::BulkError => 33,  // '!'
            FrameID::Boolean => 35,  // '#'
            FrameID::Null => 95,  // '_'
            FrameID::BigNumber => 40,  // '('
            FrameID::Array => 42,  // '*'
        }
    }

    /// Frame type announced by a marker byte, if any.
    pub open spec fn spec_from_u8(b: u8) -> Option<FrameID> {
        if b == 58 {
            Some(FrameID::Integer)
        } else if b == 43 {
            Some(FrameID::SimpleString)
        } else if b == 45 {
            Some(FrameID::SimpleError)
        } else if b == 36 {
            Some(FrameID::BulkString)
        } else if b == 33 {
            Some(FrameID::BulkError)
        } else if b == 35 {
            Some(FrameID::Boolean)
        } else if b == 95 {
            Some(FrameID::Null)
        } else if b == 40 {
            Some(FrameID::BigNumber)
        } else if b == 42 {
            Some(FrameID::Array)
        } else {
            None
        }
    }

    pub fn as_u8(&self) -> (b: u8)
        ensures
            b == self.spec_marker(),
    {
        match self {
            FrameID::Integer => 58,
            FrameID::SimpleString => 43,
            FrameID::SimpleError => 45,
            FrameID::BulkString => 36,
            FrameID::BulkError => 33,
            FrameID::Boolean => 35,
            FrameID::Null => 95,
            FrameID::BigNumber => 40,
            FrameID::Array => 42,
        }
    }

    pub fn from_u8(from: &u8) -> (r: Option<FrameID>)
        ensures
            r == FrameID::spec_from_u8(*from),
    {
        match *from {
            58 => Some(FrameID::Integer),
            43 => Some(FrameID::SimpleString),
            45 => Some(FrameID::SimpleError),
            36 => Some(FrameID::BulkString),
            33 => Some(FrameID::BulkError),
            35 => Some(FrameID::Boolean),
            95 => Some(FrameID::Null),
            40 => Some(FrameID::BigNumber),
            42 => Some(FrameID::Array),
            _ => None,
        }
    }
}

/// Reading the marker byte of a frame type gives that type back.
pub proof fn lemma_marker_from_u8(id: FrameID)
    ensures
        FrameID::spec_from_u8(id.spec_marker()) == Some(id),
{
}

/// Payload of a frame.  `Simple` carries the line of a simple
/// string, simple error or big number; `Bulk` the blob of a bulk
/// string or bulk error; `Nested` the children of an array.
#[derive(Debug, PartialEq, Eq)]
pub enum FrameData {
    Null,
    Simple(Vec<u8>),
    Integer(i64),
    Boolean(bool),
    Bulk(Vec<u8>),
    Nested(Vec<Frame>),
}

/// One RESP value: a type tag plus the payload it announces.
#[derive(Debug, PartialEq, Eq)]
pub struct Frame {
    pub frame_type: FrameID,
    pub frame_data: FrameData,
}

/// Mathematical model of a frame payload.
pub enum FrameDataView {
    Null,
    Simple(Seq<u8>),
    Integer(i64),
    Boolean(bool),
    Bulk(Seq<u8>),
    Nested(Seq<FrameView>),
}

/// Mathematical model of a frame.
pub struct FrameView {
    pub id: FrameID,
    pub data: FrameDataView,
}

pub open spec fn frame_view(f: Frame) -> FrameView
    decreases f,
{
    FrameView {
        id: f.frame_type,
        data: match f.frame_data {
            FrameData::Null => FrameDataView::Null,
            FrameData::Simple(line) => FrameDataView::Simple(line@),
            FrameData::Integer(v) => FrameDataView::Integer(v),
            FrameData::Boolean(b) => FrameDataView::Boolean(b),
            FrameData::Bulk(data) => FrameDataView::Bulk(data@),
            FrameData::Nested(children) => FrameDataView::Nested(frames_view(children@)),
        },
    }
}

pub open spec fn frames_view(s: Seq<Frame>) -> Seq<FrameView>
    decreases s,
{
    if s.len() == 0 {
        Seq::empty()
    } else {
        seq![frame_view(s[0])] + frames_view(s.drop_first())
    }
}

impl View for Frame {
    type V = FrameView;

    open spec fn view(&self) -> FrameView {
        frame_view(*self)
    }
}

/// `frames_view` is the element-wise model of a frame sequence.
pub proof fn lemma_frames_view_index(s: Seq<Frame>)
    ensures
        frames_view(s).len() == s.len(),
        forall|i: int| 0 <= i < s.len() ==> frames_view(s)[i] == frame_view(#[trigger] s[i]),
    decreases s.len(),
{
    if s.len() > 0 {
        lemma_frames_view_index(s.drop_first());
        assert forall|i: int| 0 <= i < s.len() implies frames_view(s)[i] == frame_view(
            #[trigger] s[i],
        ) by {
            if i > 0 {
                assert(s.drop_first()[i - 1] == s[i]);
            }
        }
    }
}

/// Well-formedness of a frame model: the payload variant matches the
/// type tag, and simple lines are free of CR and LF.  Every
/// constructor of this crate establishes it and the decoder only
/// produces such frames.
pub open spec fn view_wf(v: FrameView) -> bool
    decreases v,
{
    match v.data {
        FrameDataView::Null => v.id == FrameID::Null,
        FrameDataView::Simple(line) => (v.id == FrameID::SimpleString || v.id
            == FrameID::SimpleError || v.id == FrameID::BigNumber) && ascii::line_ok(line),
        FrameDataView::Integer(_) => v.id == FrameID::Integer,
        FrameDataView::Boolean(_) => v.id == FrameID::Boolean,
        FrameDataView::Bulk(_) => v.id == FrameID::BulkString || v.id == FrameID::BulkError,
        FrameDataView::Nested(children) => v.id == FrameID::Array && views_wf(children),
    }
}

pub open spec fn views_wf(s: Seq<FrameView>) -> bool
    decreases s,
{
    s.len() == 0 || (view_wf(s[0]) && views_wf(s.drop_first()))
}

pub open spec fn frame_wf(f: Frame) -> bool {
    view_wf(f@)
}

pub open spec fn frames_wf(s: Seq<Frame>) -> bool {
    views_wf(frames_view(s))
}

/// `views_wf` says exactly that every element is well-formed.
pub proof fn lemma_views_wf_index(s: Seq<FrameView>)
    ensures
        views_wf(s) <==> (forall|i: int| 0 <= i < s.len() ==> view_wf(#[trigger] s[i])),
    decreases s.len(),
{
    if s.len() > 0 {
        lemma_views_wf_index(s.drop_first());
        assert forall|i: int| 0 <= i < s.len() && views_wf(s) implies view_wf(#[trigger] s[i]) by {
            if i > 0 {
                assert(s.drop_first()[i - 1] == s[i]);
            }
        }
        if forall|i: int| 0 <= i < s.len() ==> view_wf(#[trigger] s[i]) {
            assert forall|i: int| 0 <= i < s.drop_first().len() implies view_wf(
                #[trigger] s.drop_first()[i],
            ) by {
                assert(s.drop_first()[i] == s[i + 1]);
            }
        }
    }
}

/// `frames_wf` says exactly that every element is well-formed.
pub proof fn lemma_frames_wf_index(s: Seq<Frame>)
    ensures
        frames_wf(s) <==> (forall|i: int| 0 <= i < s.len() ==> frame_wf(#[trigger] s[i])),
{
    lemma_frames_view_index(s);
    lemma_views_wf_index(frames_view(s));
    assert forall|i: int| 0 <= i < s.len() implies frames_view(s)[i] == frame_view(s[i]) by {}
}

impl FrameData {
    pub fn get_integer(&self) -> (r: Option<i64>)
        ensures
            match *self {
                FrameData::Integer(v) => r == Some(v),
                _ => r is None,
            },
    {
        match self {
            FrameData::Integer(value) => Some(*value),
            _ => None,
        }
    }

    pub fn get_string(&self) -> (r: Option<&Vec<u8>>)
        ensures
            match *self {
                FrameData::Simple(ref v) => r matches Some(x) && x@ == v@,
                _ => r is None,
            },
    {
        match self {
            FrameData::Simple(value) => Some(value),
            _ => None,
        }
    }

    pub fn get_bulk(&self) -> (r: Option<&Vec<u8>>)
        ensures
            match *self {
                FrameData::Bulk(ref v) => r matches Some(x) && x@ == v@,
                _ => r is None,
            },
    {
        match self {
            FrameData::Bulk(data) => Some(data),
            _ => None,
        }
    }

    pub fn get_boolean(&self) -> (r: Option<bool>)
        ensures
            match *self {
                FrameData::Boolean(b) => r == Some(b),
                _ => r is None,
            },
    {
        match self {
            FrameData::Boolean(value) => Some(*value),
            _ => None,
        }
    }

    pub fn get_nested(&self) -> (r: Option<&Vec<Frame>>)
        ensures
            match *self {
                FrameData::Nested(ref v) => r matches Some(x) && x == v,
                _ => r is None,
            },
    {
        match self {
            FrameData::Nested(value) => Some(value),
            _ => None,
        }
    }
}

// Spec-level shapes of frames, used throughout the contracts of the
// command and session layers.
pub open spec fn is_simple_string(f: Frame, line: Seq<u8>) -> bool {
    &&& f.frame_type == FrameID::SimpleString
    &&& f.frame_data matches FrameData::Simple(v) && v@ == line
}

pub open spec fn is_simple_error(f: Frame, line: Seq<u8>) -> bool {
    &&& f.frame_type == FrameID::SimpleError
    &&& f.frame_data matches FrameData::Simple(v) && v@ == line
}

pub open spec fn is_bulk_string(f: Frame, data: Seq<u8>) -> bool {
    &&& f.frame_type == FrameID::BulkString
    &&& f.frame_data matches FrameData::Bulk(v) && v@ == data
}

pub open spec fn is_bulk_error(f: Frame, data: Seq<u8>) -> bool {
    &&& f.frame_type == FrameID::BulkError
    &&& f.frame_data matches FrameData::Bulk(v) && v@ == data
}

pub open spec fn is_integer(f: Frame, v: i64) -> bool {
    f.frame_type == FrameID::Integer && f.frame_data == FrameData::Integer(v)
}

pub open spec fn is_null(f: Frame) -> bool {
    f.frame_type == FrameID::Null && f.frame_data == FrameData::Null
}

impl Frame {
    pub fn get_id(&self) -> (r: FrameID)
        ensures
            r == self.frame_type,
    {
        self.frame_type
    }

    pub fn get_array(&self) -> (r: Option<&Vec<Frame>>)
        ensures
            match r {
                Some(v) => {
                    &&& self.frame_type == FrameID::Array
                    &&& self.frame_data matches FrameData::Nested(c) && v == c
                },
                None => self.frame_type != FrameID::Array || !(self.frame_data
                    matches FrameData::Nested(_)),
            },
    {
        if self.frame_type != FrameID::Array {
            return None;
        }
        self.frame_data.get_nested()
    }

    /// Bulk payload with its length, for bulk frames of either kind.
    pub fn get_bulk(&self) -> (r: Option<(usize, &Vec<u8>)>)
        ensures
            match self.frame_data {
                FrameData::Bulk(ref v) => r matches Some((n, x)) && n == v@.len() && x@ == v@,
                _ => r is None,
            },
    {
        match &self.frame_data {
            FrameData::Bulk(data) => Some((data.len(), data)),
            _ => None,
        }
    }

    /// Give up ownership of an array's children, so that deeply
    /// nested frames can be taken apart without recursion.
    pub fn into_nested(self) -> (r: Option<Vec<Frame>>)
        ensures
            match self.frame_data {
                FrameData::Nested(c) => r == Some(c),
                _ => r is None,
            },
    {
        match self.frame_data {
            FrameData::Nested(children) => Some(children),
            _ => None,
        }
    }

    pub fn new_bulk_error(inner: Vec<u8>) -> (r: Frame)
        ensures
            is_bulk_error(r, inner@),
            r@ == (FrameView { id: FrameID::BulkError, data: FrameDataView::Bulk(inner@) }),
            frame_wf(r),
    {
        Frame { frame_type: FrameID::BulkError, frame_data: FrameData::Bulk(inner) }
    }

    pub fn new_simple_string(inner: Vec<u8>) -> (r: Frame)
        requires
            ascii::line_ok(inner@),
        ensures
            is_simple_string(r, inner@),
            r@ == (FrameView { id: FrameID::SimpleString, data: FrameDataView::Simple(inner@) }),
            frame_wf(r),
    {
        Frame { frame_type: FrameID::SimpleString, frame_data: FrameData::Simple(inner) }
    }

    pub fn new_simple_error(inner: Vec<u8>) -> (r: Frame)
        requires
            ascii::line_ok(inner@),
        ensures
            is_simple_error(r, inner@),
            r@ == (FrameView { id: FrameID::SimpleError, data: FrameDataView::Simple(inner@) }),
            frame_wf(r),
    {
        Frame { frame_type: FrameID::SimpleError, frame_data: FrameData::Simple(inner) }
    }

    pub fn new_bulk_string(inner: Vec<u8>) -> (r: Frame)
        ensures
            is_bulk_string(r, inner@),
            r@ == (FrameView { id: FrameID::BulkString, data: FrameDataView::Bulk(inner@) }),
            frame_wf(r),
    {
        Frame { frame_type: FrameID::BulkString, frame_data: FrameData::Bulk(inner) }
    }

    pub fn new_null() -> (r: Frame)
        ensures
            is_null(r),
            r@ == (FrameView { id: FrameID::Null, data: FrameDataView::Null }),
            frame_wf(r),
    {
        Frame { frame_type: FrameID::Null, frame_data: FrameData::Null }
    }

    pub fn new_integer(inner: i64) -> (r: Frame)
        ensures
            is_integer(r, inner),
            r@ == (FrameView { id: FrameID::Integer, data: FrameDataView::Integer(inner) }),
            frame_wf(r),
    {
        Frame { frame_type: FrameID::Integer, frame_data: FrameData::Integer(inner) }
    }

    pub fn new_bool(inner: bool) -> (r: Frame)
        ensures
            r.frame_type == FrameID::Boolean && r.frame_data == FrameData::Boolean(inner),
            r@ == (FrameView { id: FrameID::Boolean, data: FrameDataView::Boolean(inner) }),
            frame_wf(r),
    {
        Frame { frame_type: FrameID::Boolean, frame_data: FrameData::Boolean(inner) }
    }
}

/// Wire rendering of a well-formed frame: the marker byte, the
/// payload, and CR LF terminators; bulk and array frames carry a
/// decimal length line first.
pub open spec fn spec_encode(v: FrameView) -> Seq<u8>
    decreases v,
{
    match v.data {
        FrameDataView::Null => seq![v.id.spec_marker(), CR, LF],
        FrameDataView::Simple(line) => seq![v.id.spec_marker()] + line + seq![CR, LF],
        FrameDataView::Integer(i) => seq![v.id.spec_marker()] + ascii::spec_fmt_i64(i as int)
            + seq![CR, LF],
        FrameDataView::Boolean(b) => seq![
            v.id.spec_marker(),
            if b {
                116u8
            } else {
                102u8
            },
            CR,
            LF,
        ],
        FrameDataView::Bulk(data) => seq![v.id.spec_marker()] + ascii::spec_dec_u64(data.len())
            + seq![CR, LF] + data + seq![CR, LF],
        FrameDataView::Nested(children) => seq![v.id.spec_marker()] + ascii::spec_dec_u64(
            children.len(),
        ) + seq![CR, LF] + spec_encode_seq(children),
    }
}

pub open spec fn spec_encode_seq(s: Seq<FrameView>) -> Seq<u8>
    decreases s,
{
    if s.len() == 0 {
        Seq::empty()
    } else {
        spec_encode(s[0]) + spec_encode_seq(s.drop_first())
    }
}

/// Splitting the encoding of a non-empty run of frames at its last
/// element.
pub proof fn lemma_encode_seq_push(s: Seq<FrameView>, f: FrameView)
    ensures
        spec_encode_seq(s.push(f)) == spec_encode_seq(s) + spec_encode(f),
    decreases s.len(),
{
    if s.len() == 0 {
        let p = s.push(f);
        assert(p[0] == f);
        let rest = p.drop_first();
        assert(rest =~= Seq::<FrameView>::empty());
        assert(spec_encode_seq(rest) == Seq::<u8>::empty());
        assert(spec_encode_seq(p) == spec_encode(f) + Seq::<u8>::empty());
        assert(spec_encode(f) + Seq::<u8>::empty() =~= spec_encode(f));
        assert(spec_encode_seq(s) == Seq::<u8>::empty());
        assert(Seq::<u8>::empty() + spec_encode(f) =~= spec_encode(f));
    } else {
        lemma_encode_seq_push(s.drop_first(), f);
        assert(s.push(f)[0] == s[0]);
        assert(s.push(f).drop_first() =~= s.drop_first().push(f));
        assert(spec_encode_seq(s.push(f)) == spec_encode(s[0]) + (spec_encode_seq(s.drop_first())
            + spec_encode(f)));
        assert(spec_encode(s[0]) + (spec_encode_seq(s.drop_first()) + spec_encode(f)) =~= (
        spec_encode(s[0]) + spec_encode_seq(s.drop_first())) + spec_encode(f));
    }
}

/// Append the encoding of `f` to `out`.
fn encode_into(f: &Frame, out: &mut Vec<u8>)
    requires
        frame_wf(*f),
    ensures
        final(out)@ == old(out)@ + spec_encode(f@),
    decreases *f,
{
    let marker = f.frame_type.as_u8();
    out.push(marker);
    match &f.frame_data {
        FrameData::Null => {
            out.push(CR);
            out.push(LF);
            assert(out@ =~= old(out)@ + spec_encode(f@));
        },
        FrameData::Simple(line) => {
            out.extend_from_slice(line.as_slice());
            out.push(CR);
            out.push(LF);
            assert(out@ =~= old(out)@ + spec_encode(f@));
        },
        FrameData::Integer(v) => {
            let digits = ascii::fmt_i64(*v);
            out.extend_from_slice(digits.as_slice());
            out.push(CR);
            out.push(LF);
            assert(out@ =~= old(out)@ + spec_encode(f@));
        },
        FrameData::Boolean(b) => {
            if *b {
                out.push(116);  // 't'
            } else {
                out.push(102);  // 'f'
            }
            out.push(CR);
            out.push(LF);
            assert(out@ =~= old(out)@ + spec_encode(f@));
        },
        FrameData::Bulk(data) => {
            let digits = ascii::fmt_u64(data.len() as u64);
            out.extend_from_slice(digits.as_slice());
            out.push(CR);
            out.push(LF);
            out.extend_from_slice(data.as_slice());
            out.push(CR);
            out.push(LF);
            assert(out@ =~= old(out)@ + spec_encode(f@));
        },
        FrameData::Nested(children) => {
            let digits = ascii::fmt_u64(children.len() as u64);
            out.extend_from_slice(digits.as_slice());
            out.push(CR);
            out.push(LF);
            let ghost header_done = out@;
            let ghost vs = frames_view(children@);
            proof {
                lemma_frames_view_index(children@);
                lemma_views_wf_index(vs);
                assert(f@.data == FrameDataView::Nested(vs));
            }
            let mut i: usize = 0;
            while i < children.len()
                invariant
                    i <= children@.len(),
                    f.frame_data matches FrameData::Nested(c) && c == *children,
                    frame_wf(*f),
                    vs == frames_view(children@),
                    vs.len() == children@.len(),
                    forall|k: int| 0 <= k < children@.len() ==> vs[k] == frame_view(
                        #[trigger] children@[k],
                    ),
                    forall|k: int| 0 <= k < vs.len() ==> view_wf(#[trigger] vs[k]),
                    out@ == header_done + spec_encode_seq(vs.take(i as int)),
                decreases children@.len() - i,
            {
                proof {
                    assert(f.frame_data->Nested_0 == *children);
                    assert(decreases_to!(*f => f.frame_data));
                    assert(decreases_to!(f.frame_data => f.frame_data->Nested_0));
                    assert(decreases_to!(f.frame_data->Nested_0 => f.frame_data->Nested_0@));
                    assert(decreases_to!(
                        f.frame_data->Nested_0@ => f.frame_data->Nested_0@[i as int]));
                    assert(decreases_to!(*f => children@[i as int]));
                    assert(frame_wf(children@[i as int]));
                }
                encode_into(&children[i], out);
                proof {
                    lemma_encode_seq_push(vs.take(i as int), vs[i as int]);
                    assert(vs.take(i + 1) =~= vs.take(i as int).push(vs[i as int]));
                }
                i = i + 1;
            }
            proof {
                assert(vs.take(vs.len() as int) =~= vs);
                assert(out@ =~= old(out)@ + spec_encode(f@));
            }
        },
    }
}

impl Frame {
    /// Render this frame for the wire.
    pub fn encode(&self) -> (out: Vec<u8>)
        requires
            frame_wf(*self),
        ensures
            out@ == spec_encode(self@),
    {
        let mut out: Vec<u8> = Vec::new();
        encode_into(self, &mut out);
        proof {
            assert(out@ =~= spec_encode(self@));
        }
        out
    }
}

/// Everything that can cut short the decoding of a frame.  `Eof` and
/// `FatalNetwork` end a session; every other variant is reported to
/// the client and the session continues.
#[derive(Debug, PartialEq, Eq)]
pub enum FrameError {
    /// More bytes are needed to finish the frame.
    Incomplete,
    /// A protocol rule was violated.
    Invalid,
    /// The peer closed the stream at a frame boundary.
    Eof,
    /// The connection can no longer carry traffic.
    FatalNetwork,
    /// Some other input/output failure.
    Io,
    /// An integer payload did not parse.
    UTF8ToInt,
    /// The first byte is not a recognized marker.
    Unknown,
    /// Programmer misuse of the decoding helpers.
    Syntax(Vec<u8>),
}

// "not enough data to decode a full frame"
pub const MSG_INCOMPLETE: [u8; 38] = [
    110,
    111,
    116,
    32,
    101,
    110,
    111,
    117,
    103,
    104,
    32,
    100,
    97,
    116,
    97,
    32,
    116,
    111,
    32,
    100,
    101,
    99,
    111,
    100,
    101,
    32,
    97,
    32,
    102,
    117,
    108,
    108,
    32,
    102,
    114,
    97,
    109,
    101,
];

// "frame is not correctly formatted"
pub const MSG_INVALID: [u8; 32] = [
    102,
    114,
    97,
    109,
    101,
    32,
    105,
    115,
    32,
    110,
    111,
    116,
    32,
    99,
    111,
    114,
    114,
    101,
    99,
    116,
    108,
    121,
    32,
    102,
    111,
    114,
    109,
    97,
    116,
    116,
    101,
    100,
];

// "seen EOF, this is generally a graceful disconnection"
pub const MSG_EOF: [u8; 52] = [
    115,
    101,
    101,
    110,
    32,
    69,
    79,
    70,
    44,
    32,
    116,
    104,
    105,
    115,
    32,
    105,
    115,
    32,
    103,
    101,
    110,
    101,
    114,
    97,
    108,
    108,
    121,
    32,
    97,
    32,
    103,
    114,
    97,
    99,
    101,
    102,
    117,
    108,
    32,
    100,
    105,
    115,
    99,
    111,
    110,
    110,
    101,
    99,
    116,
    105,
    111,
    110,
];

// "fatal network error occurred"
pub const MSG_FATAL: [u8; 28] = [
    102,
    97,
    116,
    97,
    108,
    32,
    110,
    101,
    116,
    119,
    111,
    114,
    107,
    32,
    101,
    114,
    114,
    111,
    114,
    32,
    111,
    99,
    99,
    117,
    114,
    114,
    101,
    100,
];

// "unexpected IO error"
pub const MSG_IO: [u8; 19] = [
    117,
    110,
    101,
    120,
    112,
    101,
    99,
    116,
    101,
    100,
    32,
    73,
    79,
    32,
    101,
    114,
    114,
    111,
    114,
];

// "utf8 to int decoding error"
pub const MSG_UTF8_TO_INT: [u8; 26] = [
    117,
    116,
    102,
    56,
    32,
    116,
    111,
    32,
    105,
    110,
    116,
    32,
    100,
    101,
    99,
    111,
    100,
    105,
    110,
    103,
    32,
    101,
    114,
    114,
    111,
    114,
];

// "unable to identify the frame type"
pub const MSG_UNKNOWN: [u8; 33] = [
    117,
    110,
    97,
    98,
    108,
    101,
    32,
    116,
    111,
    32,
    105,
    100,
    101,
    110,
    116,
    105,
    102,
    121,
    32,
    116,
    104,
    101,
    32,
    102,
    114,
    97,
    109,
    101,
    32,
    116,
    121,
    112,
    101,
];

impl FrameError {
    /// Human-readable description, reported to the client for the
    /// non-fatal variants.
    pub open spec fn spec_message(self) -> Seq<u8> {
        match self {
            FrameError::Incomplete => MSG_INCOMPLETE@,
            FrameError::Invalid => MSG_INVALID@,
            FrameError::Eof => MSG_EOF@,
            FrameError::FatalNetwork => MSG_FATAL@,
            FrameError::Io => MSG_IO@,
            FrameError::UTF8ToInt => MSG_UTF8_TO_INT@,
            FrameError::Unknown => MSG_UNKNOWN@,
            FrameError::Syntax(m) => m@,
        }
    }

    pub fn message(&self) -> (m: Vec<u8>)
        ensures
            m@ == self.spec_message(),
    {
        match self {
            FrameError::Incomplete => slice_to_vec(MSG_INCOMPLETE.as_slice()),
            FrameError::Invalid => slice_to_vec(MSG_INVALID.as_slice()),
            FrameError::Eof => slice_to_vec(MSG_EOF.as_slice()),
            FrameError::FatalNetwork => slice_to_vec(MSG_FATAL.as_slice()),
            FrameError::Io => slice_to_vec(MSG_IO.as_slice()),
            FrameError::UTF8ToInt => slice_to_vec(MSG_UTF8_TO_INT.as_slice()),
            FrameError::Unknown => slice_to_vec(MSG_UNKNOWN.as_slice()),
            FrameError::Syntax(m) => {
                let c = slice_to_vec(m.as_slice());
                c
            },
        }
    }

    /// The message of every non-fatal error is a valid simple-error
    /// line whenever a `Syntax` payload is.
    pub proof fn lemma_message_line_ok(self)
        requires
            self matches FrameError::Syntax(m) ==> ascii::line_ok(m@),
        ensures
            ascii::line_ok(self.spec_message()),
    {
        match self {
            FrameError::Incomplete => {
                assert(ascii::line_ok(MSG_INCOMPLETE@));
            },
            FrameError::Invalid => {
                assert(ascii::line_ok(MSG_INVALID@));
            },
            FrameError::Eof => {
                assert(ascii::line_ok(MSG_EOF@));
            },
            FrameError::FatalNetwork => {
                assert(ascii::line_ok(MSG_FATAL@));
            },
            FrameError::Io => {
                assert(ascii::line_ok(MSG_IO@));
            },
            FrameError::UTF8ToInt => {
                assert(ascii::line_ok(MSG_UTF8_TO_INT@));
            },
            FrameError::Unknown => {
                assert(ascii::line_ok(MSG_UNKNOWN@));
            },
            FrameError::Syntax(_) => {},
        }
    }
}

} // verus!
