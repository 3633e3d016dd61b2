use vstd::prelude::*;
use vstd::slice::slice_to_vec;
use vstd::utf8::{decode_utf8, valid_utf8};
use crate::error::ParseError;
use crate::wire::{
    check_at, check_items, decimal_at, leading_u64, line_end, parse_at, parse_items, Decoded,
    DecodedSeq, Num, Scan, CR, DIGIT_1, DOLLAR, LF, MINUS, COLON, PLUS, STAR,
};

verus! {

broadcast use vstd::std_specs::vec::group_vec_axioms;

/// The mathematical value of a frame.
pub enum FrameModel {
    Simple(Seq<char>),
    Error(Seq<char>),
    Integer(u64),
    Bulk(Seq<u8>),
    Null,
    Array(Seq<FrameModel>),
}

/// One RESP value.
#[derive(Debug)]
pub enum Frame {
    Simple(String),
    Error(String),
    Integer(u64),
    Bulk(Vec<u8>),
    Null,
    Array(Vec<Frame>),
}

impl View for Frame {
    type V = FrameModel;

    open spec fn view(&self) -> FrameModel
        decreases self,
    {
        match self {
            Frame::Simple(s) => FrameModel::Simple(s@),
            Frame::Error(s) => FrameModel::Error(s@),
            Frame::Integer(n) => FrameModel::Integer(*n),
            Frame::Bulk(b) => FrameModel::Bulk(b@),
            Frame::Null => FrameModel::Null,
            Frame::Array(v) => FrameModel::Array(frames_model(v@)),
        }
    }
}

/// The models of a run of frames.
pub open spec fn frames_model(v: Seq<Frame>) -> Seq<FrameModel>
    decreases v,
{
    if v.len() == 0 {
        seq![]
    } else {
        frames_model(v.drop_last()).push(v.last().view())
    }
}

/// Appending a frame appends its model.
pub proof fn lemma_frames_model_push(v: Seq<Frame>, f: Frame)
    ensures
        frames_model(v.push(f)) == frames_model(v).push(f@),
{
    assert(v.push(f).drop_last() =~= v);
}

/// The models of a run of frames, item by item.
pub proof fn lemma_frames_model_index(v: Seq<Frame>)
    ensures
        frames_model(v).len() == v.len(),
        forall|i: int| 0 <= i < v.len() ==> #[trigger] frames_model(v)[i] == v[i]@,
    decreases v.len(),
{
    if v.len() > 0 {
        lemma_frames_model_index(v.drop_last());
        assert(frames_model(v) == frames_model(v.drop_last()).push(v.last()@));
        assert forall|i: int| 0 <= i < v.len() implies #[trigger] frames_model(v)[i] == v[i]@ by {
            if i < v.len() - 1 {
                assert(v.drop_last()[i] == v[i]);
            }
        }
    }
}

/// A byte that starts a frame.
pub open spec fn is_type_byte(b: u8) -> bool {
    b == PLUS || b == MINUS || b == COLON || b == DOLLAR || b == STAR
}

pub open spec fn is_incomplete<T>(r: Result<T, ParseError>) -> bool {
    r matches Err(ParseError::Incomplete)
}

impl Frame {
    /// An empty array frame.
    pub fn array() -> (r: Frame)
        ensures
            r@ == FrameModel::Array(seq![]),
    {
        Frame::Array(Vec::new())
    }

    /// Appends a bulk value to an array frame.
    pub fn push_bulk(&mut self, bytes: Vec<u8>) -> (r: Result<(), ParseError>)
        ensures
            match old(self)@ {
                FrameModel::Array(s) => r is Ok && final(self)@ == FrameModel::Array(
                    s.push(FrameModel::Bulk(bytes@)),
                ),
                _ => (r matches Err(ParseError::ParseArrayFrame)) && final(self)@ == old(self)@,
            },
    {
        match self {
            Frame::Array(vec) => {
                let ghost before = vec@;
                vec.push(Frame::Bulk(bytes));
                proof {
                    lemma_frames_model_push(before, Frame::Bulk(bytes));
                }
                Ok(())
            },
            _ => Err(ParseError::ParseArrayFrame),
        }
    }

    /// Appends an integer value to an array frame.
    pub fn push_int(&mut self, value: u64) -> (r: Result<(), ParseError>)
        ensures
            match old(self)@ {
                FrameModel::Array(s) => r is Ok && final(self)@ == FrameModel::Array(
                    s.push(FrameModel::Integer(value)),
                ),
                _ => (r matches Err(ParseError::ParseArrayFrame)) && final(self)@ == old(self)@,
            },
    {
        match self {
            Frame::Array(vec) => {
                let ghost before = vec@;
                vec.push(Frame::Integer(value));
                proof {
                    lemma_frames_model_push(before, Frame::Integer(value));
                }
                Ok(())
            },
            _ => Err(ParseError::ParseArrayFrame),
        }
    }
}

/// A read position over a byte buffer.
pub struct Cursor<'a> {
    pub buf: &'a [u8],
    pub pos: usize,
}

impl<'a> Cursor<'a> {
    pub open spec fn wf(&self) -> bool {
        self.pos <= self.buf@.len()
    }

    /// A cursor at the start of `buf`.
    pub fn new(buf: &'a [u8]) -> (r: Cursor<'a>)
        ensures
            r.buf@ == buf@,
            r.pos == 0,
    {
        Cursor { buf, pos: 0 }
    }

    /// The number of bytes after the position.
    pub fn remaining(&self) -> (r: usize)
        requires
            self.wf(),
        ensures
            r == self.buf@.len() - self.pos,
    {
        self.buf.len() - self.pos
    }
}

/// Moves the cursor `n` bytes on, when that many remain.
pub fn skip(src: &mut Cursor, n: usize) -> (r: Result<(), ParseError>)
    requires
        old(src).wf(),
    ensures
        final(src).buf@ == old(src).buf@,
        final(src).wf(),
        old(src).pos + n <= old(src).buf@.len() ==> r is Ok && final(src).pos == old(src).pos + n,
        old(src).pos + n > old(src).buf@.len() ==> is_incomplete(r) && final(src).pos
            == old(src).pos,
{
    let len = src.buf.len();
    if len - src.pos < n {
        return Err(ParseError::Incomplete);
    }
    src.pos = src.pos + n;
    Ok(())
}

/// The byte at the position, without moving.
pub fn peek_u8(src: &mut Cursor) -> (r: Result<u8, ParseError>)
    requires
        old(src).wf(),
    ensures
        *final(src) == *old(src),
        old(src).pos < old(src).buf@.len() ==> r == Ok::<u8, ParseError>(
            old(src).buf@[old(src).pos as int],
        ),
        old(src).pos >= old(src).buf@.len() ==> is_incomplete(r),
{
    if src.pos >= src.buf.len() {
        return Err(ParseError::Incomplete);
    }
    Ok(src.buf[src.pos])
}

/// The byte at the position; the cursor moves past it.
pub fn get_u8(src: &mut Cursor) -> (r: Result<u8, ParseError>)
    requires
        old(src).wf(),
    ensures
        final(src).buf@ == old(src).buf@,
        final(src).wf(),
        old(src).pos < old(src).buf@.len() ==> r == Ok::<u8, ParseError>(
            old(src).buf@[old(src).pos as int],
        ) && final(src).pos == old(src).pos + 1,
        old(src).pos >= old(src).buf@.len() ==> is_incomplete(r) && final(src).pos
            == old(src).pos,
{
    if src.pos >= src.buf.len() {
        return Err(ParseError::Incomplete);
    }
    let b = src.buf[src.pos];
    src.pos = src.pos + 1;
    Ok(b)
}

/// The bytes up to the next `\r\n`; the cursor moves past the `\r\n`.
pub fn get_line<'a>(src: &mut Cursor<'a>) -> (r: Result<&'a [u8], ParseError>)
    requires
        old(src).wf(),
    ensures
        final(src).buf@ == old(src).buf@,
        final(src).wf(),
        match line_end(old(src).buf@, old(src).pos as int) {
            Some(i) => r is Ok && r->Ok_0@ == old(src).buf@.subrange(old(src).pos as int, i)
                && final(src).pos == i + 2,
            None => is_incomplete(r) && final(src).pos == old(src).pos,
        },
        r is Ok ==> old(src).pos + 2 <= final(src).pos,
{
    let buf: &'a [u8] = src.buf;
    let ghost b0 = src.buf@;
    let len = buf.len();
    let start = src.pos;
    let mut i = start;
    while i < len && len - i >= 2
        invariant
            buf@ == b0,
            src.buf@ == b0,
            b0 == old(src).buf@,
            start == old(src).pos,
            len == b0.len(),
            src.pos == start,
            start <= i <= buf@.len(),
            src.wf(),
            line_end(buf@, start as int) == line_end(buf@, i as int),
        decreases buf@.len() - i,
    {
        if buf[i] == CR && buf[i + 1] == LF {
            src.pos = i + 2;
            return Ok(&buf[start..i]);
        }
        i = i + 1;
    }
    Err(ParseError::Incomplete)
}

/// Relies on atoi::atoi::<u64>: an optional sign, then the digits that follow
/// it, read as a decimal number with overflow refused.
#[verifier::external_body]
pub(crate) fn leading_decimal(text: &[u8]) -> (r: Option<u64>)
    ensures
        r == leading_u64(text@),
{
    atoi::atoi::<u64>(text)
}

/// A decimal line; the cursor moves past its `\r\n`.
pub fn get_decimal(src: &mut Cursor) -> (r: Result<u64, ParseError>)
    requires
        old(src).wf(),
    ensures
        final(src).buf@ == old(src).buf@,
        final(src).wf(),
        match decimal_at(old(src).buf@, old(src).pos as int) {
            Num::Done(n, e) => r == Ok::<u64, ParseError>(n) && final(src).pos == e,
            Num::Incomplete => is_incomplete(r),
            Num::Invalid => r is Err && !is_incomplete(r),
        },
        r is Ok ==> old(src).pos + 2 <= final(src).pos,
{
    let line = get_line(src)?;
    match leading_decimal(line) {
        Some(n) => Ok(n),
        None => Err(ParseError::Parse(String::from_str("protocol error; invalid frame format to get decimal"))),
    }
}

/// Relies on String::from_utf8: it succeeds exactly on well-formed UTF-8, and
/// the string then holds the characters those bytes encode.
#[verifier::external_body]
pub(crate) fn utf8_string(bytes: Vec<u8>) -> (r: Option<String>)
    ensures
        r is Some <==> valid_utf8(bytes@),
        r is Some ==> r->Some_0@ == decode_utf8(bytes@),
{
    String::from_utf8(bytes).ok()
}

impl Frame {
    /// Walks over one frame without building it. On success the cursor
    /// stands right after the frame.
    pub fn check(src: &mut Cursor) -> (r: Result<(), ParseError>)
        requires
            old(src).wf(),
        ensures
            final(src).buf@ == old(src).buf@,
            final(src).wf(),
            match check_at(old(src).buf@, old(src).pos as int) {
                Scan::Done(e) => r is Ok && final(src).pos == e,
                Scan::Incomplete => is_incomplete(r),
                Scan::Invalid => r is Err && !is_incomplete(r),
            },
            r is Ok ==> old(src).pos < final(src).pos,
            old(src).pos < old(src).buf@.len() && !is_type_byte(old(src).buf@[old(src).pos as int])
                ==> r matches Err(ParseError::Parse(_)),
        decreases old(src).buf@.len() - old(src).pos,
    {
        let ghost buf = src.buf@;
        let ghost pos0 = src.pos as int;
        let t = get_u8(src)?;
        if t == PLUS || t == MINUS {
            get_line(src)?;
            Ok(())
        } else if t == COLON {
            get_decimal(src)?;
            Ok(())
        } else if t == DOLLAR {
            if peek_u8(src)? == MINUS {
                if src.remaining() < 4 {
                    return Err(ParseError::Incomplete);
                }
                let b = src.buf;
                let p = src.pos;
                if b[p] == MINUS && b[p + 1] == DIGIT_1 && b[p + 2] == CR && b[p + 3] == LF {
                    assert(b@.subrange(p as int, p + 4) =~= seq![MINUS, DIGIT_1, CR, LF]);
                    skip(src, 4)
                } else {
                    assert(b@.subrange(p as int, p + 4)[1] == b@[p + 1]);
                    assert(b@.subrange(p as int, p + 4)[2] == b@[p + 2]);
                    assert(b@.subrange(p as int, p + 4)[3] == b@[p + 3]);
                    Err(ParseError::Parse(String::from_str("protocol error; invalid frame format")))
                }
            } else {
                let len = get_decimal(src)?;
                let rem = src.remaining();
                if len > rem as u64 || (rem as u64) - len < 2 {
                    return Err(ParseError::Incomplete);
                }
                skip(src, len as usize + 2)
            }
        } else if t == STAR {
            let len = get_decimal(src)?;
            let ghost e0 = src.pos as int;
            let mut k: u64 = 0;
            while k < len
                invariant
                    src.wf(),
                    src.buf@ == buf,
                    buf == old(src).buf@,
                    pos0 == old(src).pos,
                    pos0 < src.pos,
                    buf[pos0] == STAR,
                    k <= len,
                    check_at(buf, pos0) == check_items(buf, e0, len as nat),
                    check_items(buf, e0, len as nat) == check_items(
                        buf,
                        src.pos as int,
                        (len - k) as nat,
                    ),
                decreases len - k,
            {
                Frame::check(src)?;
                k = k + 1;
            }
            Ok(())
        } else {
            Err(ParseError::Parse(String::from_str("protocol error; invalid frame type byte")))
        }
    }

    /// Builds the frame that starts at the cursor. On success the cursor
    /// stands right after the frame.
    pub fn parse(src: &mut Cursor) -> (r: Result<Frame, ParseError>)
        requires
            old(src).wf(),
        ensures
            final(src).buf@ == old(src).buf@,
            final(src).wf(),
            match parse_at(old(src).buf@, old(src).pos as int) {
                Decoded::Done(f, e) => r is Ok && r->Ok_0@ == f && final(src).pos == e,
                Decoded::Incomplete => is_incomplete(r),
                Decoded::Invalid => r is Err && !is_incomplete(r),
            },
            r is Ok ==> old(src).pos < final(src).pos,
        decreases old(src).buf@.len() - old(src).pos,
    {
        let ghost buf = src.buf@;
        let ghost pos0 = src.pos as int;
        let t = get_u8(src)?;
        if t == PLUS || t == MINUS {
            let line = get_line(src)?;
            match utf8_string(slice_to_vec(line)) {
                Some(text) => if t == PLUS {
                    Ok(Frame::Simple(text))
                } else {
                    Ok(Frame::Error(text))
                },
                None => Err(ParseError::Parse(String::from_str("protocol error; invalid string"))),
            }
        } else if t == COLON {
            let n = get_decimal(src)?;
            Ok(Frame::Integer(n))
        } else if t == DOLLAR {
            if peek_u8(src)? == MINUS {
                let line = get_line(src)?;
                if line.len() == 2 && line[0] == MINUS && line[1] == DIGIT_1 {
                    assert(line@ =~= seq![MINUS, DIGIT_1]);
                    Ok(Frame::Null)
                } else {
                    Err(ParseError::Parse(String::from_str("protocol error; invalid frame format")))
                }
            } else {
                let len = get_decimal(src)?;
                let rem = src.remaining();
                if len > rem as u64 || (rem as u64) - len < 2 {
                    return Err(ParseError::Incomplete);
                }
                let start = src.pos;
                let n = len as usize;
                let end: usize = src.buf.len() - (rem - n);
                let data = slice_to_vec(&src.buf[start..end]);
                skip(src, n + 2)?;
                Ok(Frame::Bulk(data))
            }
        } else if t == STAR {
            let len = get_decimal(src)?;
            let ghost e0 = src.pos as int;
            let mut out: Vec<Frame> = Vec::new();
            let mut k: u64 = 0;
            assert(frames_model(out@) =~= seq![]);
            while k < len
                invariant
                    src.wf(),
                    src.buf@ == buf,
                    buf == old(src).buf@,
                    pos0 == old(src).pos,
                    pos0 < src.pos,
                    k <= len,
                    match parse_items(buf, e0, len as nat) {
                        DecodedSeq::Done(s, end) => parse_at(buf, pos0) == Decoded::Done(
                            FrameModel::Array(s),
                            end,
                        ),
                        DecodedSeq::Incomplete => parse_at(buf, pos0) is Incomplete,
                        DecodedSeq::Invalid => parse_at(buf, pos0) is Invalid,
                    },
                    match parse_items(buf, src.pos as int, (len - k) as nat) {
                        DecodedSeq::Done(s, end) => parse_items(buf, e0, len as nat)
                            == DecodedSeq::Done(frames_model(out@) + s, end),
                        DecodedSeq::Incomplete => parse_items(buf, e0, len as nat) is Incomplete,
                        DecodedSeq::Invalid => parse_items(buf, e0, len as nat) is Invalid,
                    },
                decreases len - k,
            {
                let ghost before = out@;
                let ghost p = src.pos as int;
                let f = Frame::parse(src)?;
                proof {
                    lemma_frames_model_push(before, f);
                    let rest = parse_items(buf, src.pos as int, (len - k - 1) as nat);
                    if let DecodedSeq::Done(s2, end) = rest {
                        assert(frames_model(before.push(f)) + s2 =~= frames_model(before) + (
                        seq![f@] + s2));
                    }
                }
                out.push(f);
                k = k + 1;
            }
            proof {
                assert(frames_model(out@) + seq![] =~= frames_model(out@));
            }
            Ok(Frame::Array(out))
        } else {
            Err(ParseError::Unimplemented)
        }
    }
}

} // verus!
