//! The RESP wire grammar, stated over byte sequences.
//!
//! `check_at` says how far the frame checker walks from a position and
//! `parse_at` what the frame parser builds from it; `encode` is the canonical
//! byte form that the encoder writes.
use vstd::prelude::*;
use vstd::utf8::{decode_utf8, encode_utf8, valid_utf8};
use crate::frame::FrameModel;

verus! {

/// The bytes that the grammar names.
pub const DIGIT_0: u8 = 48;
pub const DIGIT_1: u8 = 49;
pub const DIGIT_9: u8 = 57;
pub const PLUS: u8 = 43;
pub const MINUS: u8 = 45;
pub const COLON: u8 = 58;
pub const DOLLAR: u8 = 36;
pub const STAR: u8 = 42;
pub const CR: u8 = 13;
pub const LF: u8 = 10;

pub open spec fn is_digit(b: u8) -> bool {
    DIGIT_0 <= b <= DIGIT_9
}

/// The number of ASCII digits found in `t` from index `from` on.
pub open spec fn digit_run(t: Seq<u8>, from: int) -> nat
    decreases t.len() - from,
{
    if 0 <= from < t.len() && is_digit(t[from]) {
        1 + digit_run(t, from + 1)
    } else {
        0
    }
}

/// The value of a string of ASCII digits, most significant first.
pub open spec fn digits_value(d: Seq<u8>) -> nat
    decreases d.len(),
{
    if d.len() == 0 {
        0
    } else {
        digits_value(d.drop_last()) * 10 + (d.last() - DIGIT_0) as nat
    }
}

/// 1 when `t` starts with a sign byte, else 0.
pub open spec fn sign_len(t: Seq<u8>) -> int {
    if t.len() > 0 && (t[0] == PLUS || t[0] == MINUS) {
        1
    } else {
        0
    }
}

/// What reading a `u64` from the front of `t` yields: an optional sign, then
/// the longest run of digits; bytes after the digits are ignored. A negative
/// sign admits only zero, and a value past `u64::MAX` is refused.
pub open spec fn leading_u64(t: Seq<u8>) -> Option<u64> {
    let off = sign_len(t);
    let k = digit_run(t, off);
    let v = digits_value(t.subrange(off, off + k));
    if off + k == 0 {
        None
    } else if off == 1 && t[0] == MINUS {
        if v == 0 {
            Some(0)
        } else {
            None
        }
    } else if v <= u64::MAX {
        Some(v as u64)
    } else {
        None
    }
}

/// The index of the first `\r\n` that starts at or after `from`.
pub open spec fn line_end(buf: Seq<u8>, from: int) -> Option<int>
    decreases buf.len() - from,
{
    if from < 0 || from + 1 >= buf.len() {
        None
    } else if buf[from] == CR && buf[from + 1] == LF {
        Some(from)
    } else {
        line_end(buf, from + 1)
    }
}

/// Outcome of walking over bytes: the position reached, or why it stopped.
pub enum Scan {
    Done(int),
    Incomplete,
    Invalid,
}

/// Outcome of reading a decimal line: the value and the position after it.
pub enum Num {
    Done(u64, int),
    Incomplete,
    Invalid,
}

/// Outcome of parsing one frame.
pub enum Decoded {
    Done(FrameModel, int),
    Incomplete,
    Invalid,
}

/// Outcome of parsing several frames in a row.
pub enum DecodedSeq {
    Done(Seq<FrameModel>, int),
    Incomplete,
    Invalid,
}

/// A decimal line starting at `from`.
pub open spec fn decimal_at(buf: Seq<u8>, from: int) -> Num {
    match line_end(buf, from) {
        Some(i) => match leading_u64(buf.subrange(from, i)) {
            Some(n) => Num::Done(n, i + 2),
            None => Num::Invalid,
        },
        None => Num::Incomplete,
    }
}

/// A step from `pos` to `e` that moves forward and stays in the buffer.
pub open spec fn advances(pos: int, e: int, len: int) -> bool {
    pos < e <= len
}

/// How far the checker walks over one frame that starts at `pos`.
pub open spec fn check_at(buf: Seq<u8>, pos: int) -> Scan
    decreases buf.len() - pos, 0int,
{
    if pos < 0 || pos >= buf.len() {
        Scan::Incomplete
    } else {
        let p = pos + 1;
        let t = buf[pos];
        if t == PLUS || t == MINUS {
            match line_end(buf, p) {
                Some(i) => Scan::Done(i + 2),
                None => Scan::Incomplete,
            }
        } else if t == COLON {
            match decimal_at(buf, p) {
                Num::Done(_, e) => Scan::Done(e),
                Num::Incomplete => Scan::Incomplete,
                Num::Invalid => Scan::Invalid,
            }
        } else if t == DOLLAR {
            if p >= buf.len() {
                Scan::Incomplete
            } else if buf[p] == MINUS {
                if p + 4 > buf.len() {
                    Scan::Incomplete
                } else if buf.subrange(p, p + 4) == seq![MINUS, DIGIT_1, CR, LF] {
                    Scan::Done(p + 4)
                } else {
                    Scan::Invalid
                }
            } else {
                match decimal_at(buf, p) {
                    Num::Done(n, e) => if e + n + 2 <= buf.len() {
                        Scan::Done(e + n + 2)
                    } else {
                        Scan::Incomplete
                    },
                    Num::Incomplete => Scan::Incomplete,
                    Num::Invalid => Scan::Invalid,
                }
            }
        } else if t == STAR {
            match decimal_at(buf, p) {
                Num::Done(n, e) => if advances(pos, e, buf.len() as int) {
                    check_items(buf, e, n as nat)
                } else {
                    Scan::Invalid
                },
                Num::Incomplete => Scan::Incomplete,
                Num::Invalid => Scan::Invalid,
            }
        } else {
            Scan::Invalid
        }
    }
}

/// How far the checker walks over `n` frames in a row from `pos`.
pub open spec fn check_items(buf: Seq<u8>, pos: int, n: nat) -> Scan
    decreases buf.len() - pos, 1int, n,
{
    if n == 0 {
        Scan::Done(pos)
    } else {
        match check_at(buf, pos) {
            Scan::Done(e) => if advances(pos, e, buf.len() as int) {
                check_items(buf, e, (n - 1) as nat)
            } else {
                Scan::Invalid
            },
            Scan::Incomplete => Scan::Incomplete,
            Scan::Invalid => Scan::Invalid,
        }
    }
}

/// The text of a line, when it is well-formed UTF-8.
pub open spec fn text_of(bytes: Seq<u8>) -> Option<Seq<char>> {
    if valid_utf8(bytes) {
        Some(decode_utf8(bytes))
    } else {
        None
    }
}

/// The frame that the parser builds from the bytes at `pos`.
pub open spec fn parse_at(buf: Seq<u8>, pos: int) -> Decoded
    decreases buf.len() - pos, 0int,
{
    if pos < 0 || pos >= buf.len() {
        Decoded::Incomplete
    } else {
        let p = pos + 1;
        let t = buf[pos];
        if t == PLUS || t == MINUS {
            match line_end(buf, p) {
                Some(i) => match text_of(buf.subrange(p, i)) {
                    Some(s) => Decoded::Done(
                        if t == PLUS {
                            FrameModel::Simple(s)
                        } else {
                            FrameModel::Error(s)
                        },
                        i + 2,
                    ),
                    None => Decoded::Invalid,
                },
                None => Decoded::Incomplete,
            }
        } else if t == COLON {
            match decimal_at(buf, p) {
                Num::Done(n, e) => Decoded::Done(FrameModel::Integer(n), e),
                Num::Incomplete => Decoded::Incomplete,
                Num::Invalid => Decoded::Invalid,
            }
        } else if t == DOLLAR {
            if p >= buf.len() {
                Decoded::Incomplete
            } else if buf[p] == MINUS {
                match line_end(buf, p) {
                    Some(i) => if buf.subrange(p, i) == seq![MINUS, DIGIT_1] {
                        Decoded::Done(FrameModel::Null, i + 2)
                    } else {
                        Decoded::Invalid
                    },
                    None => Decoded::Incomplete,
                }
            } else {
                match decimal_at(buf, p) {
                    Num::Done(n, e) => if e + n + 2 <= buf.len() {
                        Decoded::Done(FrameModel::Bulk(buf.subrange(e, e + n)), e + n + 2)
                    } else {
                        Decoded::Incomplete
                    },
                    Num::Incomplete => Decoded::Incomplete,
                    Num::Invalid => Decoded::Invalid,
                }
            }
        } else if t == STAR {
            match decimal_at(buf, p) {
                Num::Done(n, e) => if advances(pos, e, buf.len() as int) {
                    match parse_items(buf, e, n as nat) {
                        DecodedSeq::Done(s, end) => Decoded::Done(FrameModel::Array(s), end),
                        DecodedSeq::Incomplete => Decoded::Incomplete,
                        DecodedSeq::Invalid => Decoded::Invalid,
                    }
                } else {
                    Decoded::Invalid
                },
                Num::Incomplete => Decoded::Incomplete,
                Num::Invalid => Decoded::Invalid,
            }
        } else {
            Decoded::Invalid
        }
    }
}

/// The frames that the parser builds from `n` frames in a row at `pos`.
pub open spec fn parse_items(buf: Seq<u8>, pos: int, n: nat) -> DecodedSeq
    decreases buf.len() - pos, 1int, n,
{
    if n == 0 {
        DecodedSeq::Done(seq![], pos)
    } else {
        match parse_at(buf, pos) {
            Decoded::Done(f, e) => if advances(pos, e, buf.len() as int) {
                match parse_items(buf, e, (n - 1) as nat) {
                    DecodedSeq::Done(s, end) => DecodedSeq::Done(seq![f] + s, end),
                    DecodedSeq::Incomplete => DecodedSeq::Incomplete,
                    DecodedSeq::Invalid => DecodedSeq::Invalid,
                }
            } else {
                DecodedSeq::Invalid
            },
            Decoded::Incomplete => DecodedSeq::Incomplete,
            Decoded::Invalid => DecodedSeq::Invalid,
        }
    }
}

/// `\r\n`.
pub open spec fn crlf() -> Seq<u8> {
    seq![CR, LF]
}

/// The decimal digits of `n`, most significant first, without leading zeros.
pub open spec fn decimal(n: nat) -> Seq<u8>
    decreases n,
{
    if n < 10 {
        seq![(DIGIT_0 + n) as u8]
    } else {
        decimal(n / 10).push((DIGIT_0 + n % 10) as u8)
    }
}

/// The canonical bytes of a frame.
pub open spec fn encode(f: FrameModel) -> Seq<u8>
    decreases f,
{
    match f {
        FrameModel::Simple(s) => seq![PLUS] + encode_utf8(s) + crlf(),
        FrameModel::Error(s) => seq![MINUS] + encode_utf8(s) + crlf(),
        FrameModel::Integer(n) => seq![COLON] + decimal(n as nat) + crlf(),
        FrameModel::Bulk(b) => seq![DOLLAR] + decimal(b.len()) + crlf() + b + crlf(),
        FrameModel::Null => seq![DOLLAR, MINUS, DIGIT_1, CR, LF],
        FrameModel::Array(items) => seq![STAR] + decimal(items.len()) + crlf() + encode_all(
            items,
        ),
    }
}

/// The canonical bytes of several frames, one after the other.
pub open spec fn encode_all(items: Seq<FrameModel>) -> Seq<u8>
    decreases items,
{
    if items.len() == 0 {
        seq![]
    } else {
        encode_all(items.drop_last()) + encode(items.last())
    }
}

/// No `\r\n` occurs in `b`.
pub open spec fn no_crlf(b: Seq<u8>) -> bool {
    forall|i: int| 0 <= i < b.len() - 1 ==> !(#[trigger] b[i] == CR && b[i + 1] == LF)
}

/// A frame that the wire can carry: its texts hold no line break, and its
/// lengths fit the integer width.
pub open spec fn wire_valid(f: FrameModel) -> bool
    decreases f,
{
    match f {
        FrameModel::Simple(s) => no_crlf(encode_utf8(s)),
        FrameModel::Error(s) => no_crlf(encode_utf8(s)),
        FrameModel::Integer(_) => true,
        FrameModel::Bulk(b) => b.len() <= u64::MAX,
        FrameModel::Null => true,
        FrameModel::Array(items) => items.len() <= u64::MAX && forall|i: int|
            0 <= i < items.len() ==> wire_valid(#[trigger] items[i]),
    }
}

/// A frame that is not an array.
pub open spec fn is_scalar(f: FrameModel) -> bool {
    !(f is Array)
}

/// A frame that the encoder writes: a scalar, or an array of scalars.
pub open spec fn encodable(f: FrameModel) -> bool {
    match f {
        FrameModel::Array(items) => forall|i: int|
            0 <= i < items.len() ==> !(#[trigger] items[i] is Array),
        _ => true,
    }
}

} // verus!
