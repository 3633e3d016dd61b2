//! A cursor over the items of a request array, read field by field.
use vstd::prelude::*;
use vstd::utf8::encode_utf8;
use crate::error::ParseError;
use crate::frame::{frames_model, lemma_frames_model_index, utf8_string, Frame, FrameModel};
use crate::wire::{leading_u64, text_of};

verus! {

/// The text that a field holds, when it is read as a string.
pub open spec fn string_field(f: FrameModel) -> Option<Seq<char>> {
    match f {
        FrameModel::Simple(s) => Some(s),
        FrameModel::Bulk(b) => text_of(b),
        _ => None,
    }
}

/// The bytes that a field holds, when it is read as raw bytes.
pub open spec fn bytes_field(f: FrameModel) -> Option<Seq<u8>> {
    match f {
        FrameModel::Simple(s) => Some(encode_utf8(s)),
        FrameModel::Bulk(b) => Some(b),
        _ => None,
    }
}

/// The number that a field holds, when it is read as an integer.
pub open spec fn int_field(f: FrameModel) -> Option<u64> {
    match f {
        FrameModel::Integer(v) => Some(v),
        FrameModel::Simple(s) => leading_u64(encode_utf8(s)),
        FrameModel::Bulk(b) => leading_u64(b),
        _ => None,
    }
}

pub open spec fn is_end_of_stream<T>(r: Result<T, ParseError>) -> bool {
    r matches Err(ParseError::EndOfStream)
}

/// The fields of an array frame that are still to be read.
pub struct Parse {
    parts: Vec<Frame>,
}

/// Dropping the first frame drops the first model.
proof fn lemma_frames_model_remove_first(v: Seq<Frame>)
    requires
        v.len() > 0,
    ensures
        frames_model(v.remove(0)) == frames_model(v).drop_first(),
        frames_model(v)[0] == v[0]@,
{
    lemma_frames_model_index(v);
    lemma_frames_model_index(v.remove(0));
    assert(frames_model(v.remove(0)) =~= frames_model(v).drop_first());
}

impl Parse {
    /// The fields not yet read.
    pub closed spec fn rest(&self) -> Seq<FrameModel> {
        frames_model(self.parts@)
    }

    /// A cursor over the items of `frame`, which must be an array.
    pub fn new(frame: Frame) -> (r: Result<Parse, ParseError>)
        ensures
            match frame@ {
                FrameModel::Array(items) => r is Ok && r->Ok_0.rest() == items,
                _ => r matches Err(ParseError::Parse(_)),
            },
    {
        match frame {
            Frame::Array(parts) => Ok(Parse { parts }),
            _ => Err(ParseError::Parse(String::from_str("protocol error; expected array"))),
        }
    }

    /// The next field.
    fn next(&mut self) -> (r: Result<Frame, ParseError>)
        ensures
            old(self).rest().len() == 0 ==> is_end_of_stream(r) && final(self).rest()
                == old(self).rest(),
            old(self).rest().len() > 0 ==> r is Ok && r->Ok_0@ == old(self).rest()[0]
                && final(self).rest() == old(self).rest().drop_first(),
    {
        if self.parts.len() == 0 {
            proof {
                lemma_frames_model_index(self.parts@);
            }
            return Err(ParseError::EndOfStream);
        }
        proof {
            lemma_frames_model_index(self.parts@);
            lemma_frames_model_remove_first(self.parts@);
        }
        Ok(self.parts.remove(0))
    }

    /// The next field read as a string: a simple string, or a bulk that holds
    /// well-formed UTF-8.
    pub fn next_string(&mut self) -> (r: Result<String, ParseError>)
        ensures
            old(self).rest().len() == 0 ==> is_end_of_stream(r) && final(self).rest()
                == old(self).rest(),
            old(self).rest().len() > 0 ==> final(self).rest() == old(self).rest().drop_first()
                && match string_field(old(self).rest()[0]) {
                Some(s) => r is Ok && r->Ok_0@ == s,
                None => r matches Err(ParseError::Parse(_)),
            },
    {
        match self.next()? {
            Frame::Simple(s) => Ok(s),
            Frame::Bulk(data) => match utf8_string(data) {
                Some(s) => Ok(s),
                None => Err(ParseError::Parse(String::from_str("protocol error; invalid string"))),
            },
            _ => Err(
                ParseError::Parse(
                    String::from_str("protocol error; expected simple frame or bulk frame"),
                ),
            ),
        }
    }

    /// The next field read as raw bytes: a simple string or a bulk.
    pub fn next_bytes(&mut self) -> (r: Result<Vec<u8>, ParseError>)
        ensures
            old(self).rest().len() == 0 ==> is_end_of_stream(r) && final(self).rest()
                == old(self).rest(),
            old(self).rest().len() > 0 ==> final(self).rest() == old(self).rest().drop_first()
                && match bytes_field(old(self).rest()[0]) {
                Some(b) => r is Ok && r->Ok_0@ == b,
                None => r matches Err(ParseError::Parse(_)),
            },
    {
        match self.next()? {
            Frame::Simple(s) => Ok(s.as_str().as_bytes_vec()),
            Frame::Bulk(data) => Ok(data),
            _ => Err(
                ParseError::Parse(
                    String::from_str("protocol error; expected simple frame or bulk frame"),
                ),
            ),
        }
    }

    /// The next field read as an integer: an integer frame, or a simple
    /// string or bulk that starts with a decimal number.
    pub fn next_int(&mut self) -> (r: Result<u64, ParseError>)
        ensures
            old(self).rest().len() == 0 ==> is_end_of_stream(r) && final(self).rest()
                == old(self).rest(),
            old(self).rest().len() > 0 ==> final(self).rest() == old(self).rest().drop_first()
                && match int_field(old(self).rest()[0]) {
                Some(v) => r == Ok::<u64, ParseError>(v),
                None => r matches Err(ParseError::Parse(_)),
            },
    {
        match self.next()? {
            Frame::Integer(v) => Ok(v),
            Frame::Simple(data) => match crate::frame::leading_decimal(data.as_str().as_bytes()) {
                Some(v) => Ok(v),
                None => Err(ParseError::Parse(String::from_str("protocol error; invalid number"))),
            },
            Frame::Bulk(data) => match crate::frame::leading_decimal(data.as_slice()) {
                Some(v) => Ok(v),
                None => Err(ParseError::Parse(String::from_str("protocol error; invalid number"))),
            },
            _ => Err(
                ParseError::Parse(String::from_str("protocol error; expected int frame")),
            ),
        }
    }

    /// Whether every field has been read.
    pub fn is_done(&self) -> (r: bool)
        ensures
            r == (self.rest().len() == 0),
    {
        proof {
            lemma_frames_model_index(self.parts@);
        }
        self.parts.len() == 0
    }

    /// Succeeds when every field has been read.
    pub fn finish(&mut self) -> (r: Result<(), ParseError>)
        ensures
            r is Ok <==> old(self).rest().len() == 0,
            r is Err ==> r matches Err(ParseError::Parse(_)),
            final(self).rest() == old(self).rest(),
    {
        proof {
            lemma_frames_model_index(self.parts@);
        }
        if self.parts.len() == 0 {
            Ok(())
        } else {
            Err(
                ParseError::Parse(
                    String::from_str("protocol error; expected end of frame, but there was more"),
                ),
            )
        }
    }
}

} // verus!
