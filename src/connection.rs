//! The byte side of a connection: a read buffer that frames are cut from and
//! a write buffer that frames are encoded into. The caller moves bytes
//! between these buffers and the socket.
use vstd::prelude::*;
use crate::error::{ConnectionError, ParseError};
use crate::frame::{Cursor, Frame, FrameModel};
use crate::wire::{
    check_at, crlf, decimal, encode, encodable, is_scalar, parse_at, Decoded, Scan, COLON,
    CR, DIGIT_0, DIGIT_1, DOLLAR, LF, MINUS, PLUS, STAR,
};

verus! {

/// Read and write buffers of one connection.
pub struct Connection {
    buffer: Vec<u8>,
    output: Vec<u8>,
}

/// Appends the bytes of `b` to `out`.
fn append_bytes(out: &mut Vec<u8>, b: &[u8])
    ensures
        final(out)@ == old(out)@ + b@,
{
    let mut i: usize = 0;
    while i < b.len()
        invariant
            i <= b@.len(),
            out@ == old(out)@ + b@.subrange(0, i as int),
        decreases b@.len() - i,
    {
        out.push(b[i]);
        i = i + 1;
        assert(out@ =~= old(out)@ + b@.subrange(0, i as int));
    }
    assert(b@.subrange(0, i as int) =~= b@);
}

/// Appends the decimal digits of `val` to `out`.
pub(crate) fn push_decimal(out: &mut Vec<u8>, val: u64)
    ensures
        final(out)@ == old(out)@ + decimal(val as nat),
    decreases val,
{
    if val >= 10 {
        push_decimal(out, val / 10);
    }
    out.push(DIGIT_0 + (val % 10) as u8);
    assert(out@ =~= old(out)@ + decimal(val as nat));
}

impl Connection {
    pub closed spec fn buffered(&self) -> Seq<u8> {
        self.buffer@
    }

    pub closed spec fn pending_output(&self) -> Seq<u8> {
        self.output@
    }

    /// A connection with nothing buffered either way.
    pub fn new() -> (r: Connection)
        ensures
            r.buffered() == Seq::<u8>::empty(),
            r.pending_output() == Seq::<u8>::empty(),
    {
        Connection { buffer: Vec::with_capacity(4 * 1024), output: Vec::new() }
    }

    /// Bytes received from the peer join the read buffer.
    pub fn receive(&mut self, bytes: &[u8])
        ensures
            final(self).buffered() == old(self).buffered() + bytes@,
            final(self).pending_output() == old(self).pending_output(),
    {
        append_bytes(&mut self.buffer, bytes);
    }

    /// Whether the read buffer is empty.
    pub fn is_buffer_empty(&self) -> (r: bool)
        ensures
            r == (self.buffered().len() == 0),
    {
        self.buffer.len() == 0
    }

    /// Cuts one frame from the front of the read buffer. `Ok(None)` means
    /// that more bytes are needed; the buffer is then left as it was.
    pub fn parse_frame(&mut self) -> (r: Result<Option<Frame>, ConnectionError>)
        ensures
            final(self).pending_output() == old(self).pending_output(),
            match check_at(old(self).buffered(), 0) {
                Scan::Done(e) => match parse_at(old(self).buffered(), 0) {
                    Decoded::Done(f, _) => r is Ok && r->Ok_0 is Some && r->Ok_0->Some_0@ == f
                        && final(self).buffered() == old(self).buffered().subrange(
                        e,
                        old(self).buffered().len() as int,
                    ),
                    _ => r is Err,
                },
                Scan::Incomplete => r is Ok && r->Ok_0 is None && final(self).buffered()
                    == old(self).buffered(),
                Scan::Invalid => r is Err,
            },
            r is Err ==> final(self).buffered() == old(self).buffered(),
    {
        let checked = {
            let mut cur = Cursor::new(self.buffer.as_slice());
            match Frame::check(&mut cur) {
                Ok(()) => Ok(cur.pos),
                Err(e) => Err(e),
            }
        };
        match checked {
            Ok(len) => {
                let parsed = {
                    let mut cur = Cursor::new(self.buffer.as_slice());
                    Frame::parse(&mut cur)
                };
                match parsed {
                    Ok(frame) => {
                        let rest = self.buffer.split_off(len);
                        self.buffer = rest;
                        Ok(Some(frame))
                    },
                    Err(e) => Err(ConnectionError::Parse(e)),
                }
            },
            Err(ParseError::Incomplete) => Ok(None),
            Err(e) => Err(ConnectionError::Parse(e)),
        }
    }

    /// What a read yields once the peer has closed its side: nothing when
    /// no bytes are left over, else the connection was cut mid-frame.
    pub fn read_closed(&self) -> (r: Result<Option<Frame>, ConnectionError>)
        ensures
            self.buffered().len() == 0 ==> r is Ok && r->Ok_0 is None,
            self.buffered().len() != 0 ==> r matches Err(ConnectionError::Disconnect),
    {
        if self.buffer.len() == 0 {
            Ok(None)
        } else {
            Err(ConnectionError::Disconnect)
        }
    }

    /// Encodes a frame into the write buffer. Arrays may hold scalars only; an
    /// array that holds an array is refused and nothing is written.
    pub fn write_frame(&mut self, frame: &Frame) -> (r: Result<(), ConnectionError>)
        ensures
            final(self).buffered() == old(self).buffered(),
            encodable(frame@) ==> r is Ok && final(self).pending_output()
                == old(self).pending_output() + encode(frame@),
            !encodable(frame@) ==> (r matches Err(ConnectionError::Parse(ParseError::Unimplemented)))
                && final(self).pending_output() == old(self).pending_output(),
    {
        match frame {
            Frame::Array(items) => {
                let mut i: usize = 0;
                assert(frame@ == FrameModel::Array(crate::frame::frames_model(items@)));
                while i < items.len()
                    invariant
                        frame@ == FrameModel::Array(crate::frame::frames_model(items@)),
                        i <= items@.len(),
                        forall|j: int| 0 <= j < i ==> is_scalar(#[trigger] items@[j]@),
                    decreases items@.len() - i,
                {
                    if let Frame::Array(_) = &items[i] {
                        proof {
                            crate::frame::lemma_frames_model_index(items@);
                            let m = crate::frame::frames_model(items@);
                            assert(!is_scalar(m[i as int]));
                            assert(!encodable(frame@));
                        }
                        return Err(ConnectionError::Parse(ParseError::Unimplemented));
                    }
                    i = i + 1;
                }
                proof {
                    crate::frame::lemma_frames_model_index(items@);
                }
                self.output.push(STAR);
                push_decimal(&mut self.output, items.len() as u64);
                self.output.push(CR);
                self.output.push(LF);
                let mut k: usize = 0;
                while k < items.len()
                    invariant
                        k <= items@.len(),
                        forall|j: int| 0 <= j < items@.len() ==> is_scalar(#[trigger] items@[j]@),
                        self.buffer@ == old(self).buffer@,
                        self.output@ == old(self).output@ + seq![STAR] + decimal(items@.len())
                            + crlf() + crate::wire::encode_all(
                            crate::frame::frames_model(items@.subrange(0, k as int)),
                        ),
                    decreases items@.len() - k,
                {
                    let ghost before = items@.subrange(0, k as int);
                    write_value(&mut self.output, &items[k]);
                    proof {
                        assert(items@.subrange(0, k + 1) =~= before.push(items@[k as int]));
                        crate::frame::lemma_frames_model_push(before, items@[k as int]);
                        let m = crate::frame::frames_model(before.push(items@[k as int]));
                        assert(m.drop_last() =~= crate::frame::frames_model(before));
                    }
                    k = k + 1;
                }
                proof {
                    assert(items@.subrange(0, items@.len() as int) =~= items@);
                    crate::frame::lemma_frames_model_index(items@);
                    assert(frame@ == FrameModel::Array(crate::frame::frames_model(items@)));
                    assert(self.output@ =~= old(self).output@ + encode(frame@));
                }
                Ok(())
            },
            _ => {
                write_value(&mut self.output, frame);
                Ok(())
            },
        }
    }

    /// Hands out the encoded bytes and empties the write buffer.
    pub fn take_output(&mut self) -> (r: Vec<u8>)
        ensures
            r@ == old(self).pending_output(),
            final(self).pending_output() == Seq::<u8>::empty(),
            final(self).buffered() == old(self).buffered(),
    {
        let mut out = Vec::new();
        std::mem::swap(&mut out, &mut self.output);
        out
    }
}

/// Encodes one scalar frame.
fn write_value(out: &mut Vec<u8>, frame: &Frame)
    requires
        is_scalar(frame@),
    ensures
        final(out)@ == old(out)@ + encode(frame@),
{
    match frame {
        Frame::Simple(val) => {
            out.push(PLUS);
            append_bytes(out, val.as_str().as_bytes());
            out.push(CR);
            out.push(LF);
        },
        Frame::Error(val) => {
            out.push(MINUS);
            append_bytes(out, val.as_str().as_bytes());
            out.push(CR);
            out.push(LF);
        },
        Frame::Integer(val) => {
            out.push(COLON);
            push_decimal(out, *val);
            out.push(CR);
            out.push(LF);
        },
        Frame::Null => {
            out.push(DOLLAR);
            out.push(MINUS);
            out.push(DIGIT_1);
            out.push(CR);
            out.push(LF);
        },
        Frame::Bulk(val) => {
            out.push(DOLLAR);
            push_decimal(out, val.len() as u64);
            out.push(CR);
            out.push(LF);
            append_bytes(out, val.as_slice());
            out.push(CR);
            out.push(LF);
        },
        Frame::Array(_) => {},
    }
    assert(out@ =~= old(out)@ + encode(frame@));
}

} // verus!
