//! The human-readable text of a frame.
use vstd::prelude::*;
use crate::connection::push_decimal;
use crate::frame::{frames_model, lemma_frames_model_index, utf8_string, Frame, FrameModel};
use vstd::utf8::{
    encode_utf8, encode_utf8_decode_utf8, encode_utf8_valid_utf8, is_ascii_chars_encode_utf8,
};
use crate::wire::{decimal, is_digit, text_of};

verus! {

broadcast use vstd::std_specs::vec::group_vec_axioms;

/// A hexadecimal digit, in lower case.
pub open spec fn hex_digit(n: u8) -> char {
    if n < 10 {
        (48 + n) as char
    } else {
        (87 + n) as char
    }
}

/// How one byte is written inside a byte-string literal: newline, carriage
/// return, tab, backslash, double quote and zero as their backslash escapes,
/// printable ASCII as itself, any other byte as `\x` and two hexadecimal
/// digits.
pub open spec fn byte_escape(b: u8) -> Seq<char> {
    if b == 10 {
        seq!['\\', 'n']
    } else if b == 13 {
        seq!['\\', 'r']
    } else if b == 9 {
        seq!['\\', 't']
    } else if b == 92 || b == 34 {
        seq!['\\', b as char]
    } else if b == 0 {
        seq!['\\', '0']
    } else if 0x20 <= b < 0x7f {
        seq![b as char]
    } else {
        seq!['\\', 'x', hex_digit(b / 16), hex_digit(b % 16)]
    }
}

/// The escaped bytes, one after the other.
pub open spec fn escaped(b: Seq<u8>) -> Seq<char>
    decreases b.len(),
{
    if b.len() == 0 {
        Seq::empty()
    } else {
        escaped(b.drop_last()) + byte_escape(b.last())
    }
}

/// What the `Debug` format of `bytes::Bytes` writes for these bytes: a
/// byte-string literal `b"..."`.
pub open spec fn bytes_debug_text(b: Seq<u8>) -> Seq<char> {
    seq!['b', '"'] + escaped(b) + seq!['"']
}

/// Relies on the `Debug` format of bytes::Bytes, which writes the bytes as a
/// byte-string literal with the escapes of `bytes_debug_text`.
#[verifier::external_body]
fn debug_text(b: &[u8]) -> (r: String)
    ensures
        r@ == bytes_debug_text(b@),
{
    format!("{:?}", bytes::Bytes::copy_from_slice(b))
}

/// The text of a bulk value: its characters when it is UTF-8, else its
/// byte-literal form.
pub open spec fn bulk_text(b: Seq<u8>) -> Seq<char> {
    match text_of(b) {
        Some(t) => t,
        None => bytes_debug_text(b),
    }
}

/// The decimal text of a number.
pub open spec fn number_text(n: u64) -> Seq<char> {
    decimal(n as nat).map_values(|b: u8| b as char)
}

/// The digits of a number are ASCII, so they read back as its text.
proof fn lemma_number_text(n: u64)
    ensures
        text_of(decimal(n as nat)) == Some(number_text(n)),
{
    let d = decimal(n as nat);
    let chars = number_text(n);
    crate::codec_laws::lemma_decimal(n as nat);
    assert forall|i: int| 0 <= i < chars.len() implies '\0' <= #[trigger] chars[i] <= '\u{7f}' by {
        assert(is_digit(d[i]));
    }
    is_ascii_chars_encode_utf8(chars);
    assert forall|i: int| 0 <= i < d.len() implies encode_utf8(chars)[i] == d[i] by {
        assert(chars[i] as u8 == encode_utf8(chars)[i]);
        assert(is_digit(d[i]));
    }
    assert(encode_utf8(chars) =~= d);
    encode_utf8_valid_utf8(chars);
    encode_utf8_decode_utf8(chars);
}

/// The text of a frame; an array shows its items separated by spaces.
pub open spec fn display_of(f: FrameModel) -> Seq<char>
    decreases f,
{
    match f {
        FrameModel::Simple(s) => s,
        FrameModel::Error(m) => "error: "@ + m,
        FrameModel::Integer(n) => number_text(n),
        FrameModel::Bulk(b) => bulk_text(b),
        FrameModel::Null => "(nil)"@,
        FrameModel::Array(items) => display_items(items),
    }
}

/// The texts of frames, separated by spaces.
pub open spec fn display_items(items: Seq<FrameModel>) -> Seq<char>
    decreases items,
{
    if items.len() == 0 {
        Seq::empty()
    } else if items.len() == 1 {
        display_of(items[0])
    } else {
        display_items(items.drop_last()) + " "@ + display_of(items.last())
    }
}

fn number_string(n: u64) -> (r: String)
    ensures
        r@ == number_text(n),
{
    let mut digits: Vec<u8> = Vec::new();
    push_decimal(&mut digits, n);
    assert(digits@ =~= decimal(n as nat));
    proof {
        lemma_number_text(n);
    }
    utf8_string(digits).unwrap()
}

fn bulk_string(b: &Vec<u8>) -> (r: String)
    ensures
        r@ == bulk_text(b@),
{
    let copy = vstd::slice::slice_to_vec(b.as_slice());
    match utf8_string(copy) {
        Some(s) => s,
        None => debug_text(b.as_slice()),
    }
}

impl Frame {
    /// The text of the frame, as shown to a user.
    pub fn to_text(&self) -> (r: String)
        ensures
            r@ == display_of(self@),
        decreases self,
    {
        match self {
            Frame::Simple(s) => String::from_str(s.as_str()),
            Frame::Error(m) => crate::text::concat("error: ", m.as_str()),
            Frame::Integer(n) => number_string(*n),
            Frame::Bulk(b) => bulk_string(b),
            Frame::Null => String::from_str("(nil)"),
            Frame::Array(parts) => {
                let mut out = String::new();
                let mut i: usize = 0;
                proof {
                    lemma_frames_model_index(parts@);
                    assert(decreases_to!(*self => *parts));
                }
                while i < parts.len()
                    invariant
                        decreases_to!(*self => *parts),
                        i <= parts@.len(),
                        frames_model(parts@).len() == parts@.len(),
                        forall|j: int| 0 <= j < parts@.len() ==> #[trigger] frames_model(parts@)[j] == parts@[j]@,
                        out@ == display_items(frames_model(parts@).take(i as int)),
                    decreases parts@.len() - i,
                {
                    proof {
                        assert(decreases_to!(*parts => parts[i as int]));
                    }
                    let part = parts[i].to_text();
                    let ghost m = frames_model(parts@);
                    proof {
                        assert(m.take(i + 1).drop_last() =~= m.take(i as int));
                        assert(m.take(i + 1).last() == parts@[i as int]@);
                        if i == 0 {
                            assert(m.take(0) =~= Seq::<FrameModel>::empty());
                            assert(m.take(1)[0] == m[0]);
                        }
                    }
                    if i > 0 {
                        out.append(" ");
                    }
                    out.append(part.as_str());
                    proof {
                        if i == 0 {
                            assert(out@ =~= display_items(m.take(1)));
                        }
                    }
                    i = i + 1;
                }
                proof {
                    assert(frames_model(parts@).take(parts@.len() as int) =~= frames_model(parts@));
                }
                out
            },
        }
    }
}

} // verus!
