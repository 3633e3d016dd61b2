//! Laws that tie the encoder to the checker and the parser.
use vstd::prelude::*;
use vstd::utf8::{encode_utf8, encode_utf8_decode_utf8, encode_utf8_valid_utf8};
use crate::frame::FrameModel;
use crate::wire::{
    check_at, check_items, crlf, decimal, decimal_at, digit_run, digits_value, encode, encode_all,
    encodable, is_digit, leading_u64, line_end, no_crlf, parse_at, parse_items, sign_len, wire_valid,
    Decoded, DecodedSeq, Num, Scan, CR, DIGIT_0, DIGIT_1, DOLLAR, LF, MINUS, STAR, advances,
};

verus! {

/// The digits of a number are digits, and read back as that number.
pub(crate) proof fn lemma_decimal(n: nat)
    ensures
        decimal(n).len() >= 1,
        forall|i: int| 0 <= i < decimal(n).len() ==> is_digit(#[trigger] decimal(n)[i]),
        digits_value(decimal(n)) == n,
    decreases n,
{
    if n >= 10 {
        lemma_decimal(n / 10);
        let d = decimal(n / 10);
        assert(decimal(n).drop_last() =~= d);
        assert(decimal(n).last() == (DIGIT_0 + n % 10) as u8);
        assert(n == (n / 10) * 10 + n % 10) by (nonlinear_arith);
        let c = (DIGIT_0 + n % 10) as u8;
        assert(c - DIGIT_0 == n % 10);
        assert(digits_value(decimal(n)) == digits_value(d) * 10 + (c - DIGIT_0) as nat);
    } else {
        assert(decimal(n).drop_last() =~= Seq::<u8>::empty());
        let c = (DIGIT_0 + n) as u8;
        assert(c - DIGIT_0 == n);
        assert(digits_value(decimal(n)) == digits_value(Seq::<u8>::empty()) * 10 + (c - DIGIT_0) as nat);
    }
}

/// A run of digits that the buffer ends or a non-digit closes is read whole.
proof fn lemma_digit_run(t: Seq<u8>, from: int, k: int)
    requires
        0 <= from,
        from + k <= t.len(),
        0 <= k,
        forall|i: int| from <= i < from + k ==> is_digit(#[trigger] t[i]),
        from + k == t.len() || !is_digit(t[from + k]),
    ensures
        digit_run(t, from) == k,
    decreases k,
{
    if k > 0 {
        lemma_digit_run(t, from + 1, k - 1);
    }
}

/// A decimal line is read back as its value.
proof fn lemma_leading_u64(n: u64)
    ensures
        leading_u64(decimal(n as nat)) == Some(n),
{
    let d = decimal(n as nat);
    lemma_decimal(n as nat);
    assert(is_digit(d[0]));
    assert(sign_len(d) == 0);
    lemma_digit_run(d, 0, d.len() as int);
    assert(d.subrange(0, d.len() as int) =~= d);
}

/// A line whose body holds no `\r\n`, and which a `\r\n` closes, ends there.
proof fn lemma_line_end(buf: Seq<u8>, from: int, end: int)
    requires
        0 <= from <= end,
        end + 1 < buf.len(),
        buf[end] == CR,
        buf[end + 1] == LF,
        forall|j: int| from <= j < end ==> !(#[trigger] buf[j] == CR && buf[j + 1] == LF),
    ensures
        line_end(buf, from) == Some(end),
    decreases end - from,
{
    if from < end {
        lemma_line_end(buf, from + 1, end);
    }
}

/// The bytes of several frames start with the bytes of the first.
proof fn lemma_encode_all_front(items: Seq<FrameModel>)
    requires
        items.len() > 0,
    ensures
        encode_all(items) == encode(items[0]) + encode_all(items.drop_first()),
    decreases items.len(),
{
    if items.len() == 1 {
        assert(items.drop_last() =~= Seq::<FrameModel>::empty());
        assert(items.drop_first() =~= Seq::<FrameModel>::empty());
        assert(encode_all(items) =~= encode(items[0]) + encode_all(items.drop_first()));
    } else {
        let front = items.drop_last();
        lemma_encode_all_front(front);
        assert(front.drop_first() =~= items.drop_first().drop_last());
        assert(items.drop_first().last() == items.last());
        assert(encode_all(items) =~= encode(items[0]) + encode_all(items.drop_first()));
    }
}

/// A decimal line at `p` is read as `n`, and ends after its `\r\n`.
proof fn lemma_decimal_at(buf: Seq<u8>, p: int, n: u64)
    requires
        0 <= p,
        p + decimal(n as nat).len() + 2 <= buf.len(),
        buf.subrange(p, p + decimal(n as nat).len() + 2) == decimal(n as nat) + crlf(),
    ensures
        decimal_at(buf, p) == Num::Done(n, p + decimal(n as nat).len() + 2),
{
    let d = decimal(n as nat);
    let end = p + d.len();
    lemma_decimal(n as nat);
    assert forall|j: int| p <= j < end implies !(#[trigger] buf[j] == CR && buf[j + 1] == LF) by {
        assert(buf[j] == buf.subrange(p, end + 2)[j - p]);
        assert(is_digit(d[j - p]));
    }
    assert(buf[end] == buf.subrange(p, end + 2)[d.len() as int]);
    assert(buf[end + 1] == buf.subrange(p, end + 2)[d.len() as int + 1]);
    lemma_line_end(buf, p, end);
    assert(buf.subrange(p, end) =~= d) by {
        assert forall|j: int| 0 <= j < d.len() implies buf.subrange(p, end)[j] == d[j] by {
            assert(buf.subrange(p, end + 2)[j] == (d + crlf())[j]);
        }
    }
    lemma_leading_u64(n);
}

/// The bytes of `s` stand in `buf` at `pos`, byte by byte.
proof fn lemma_bytes_at(buf: Seq<u8>, pos: int, s: Seq<u8>)
    requires
        0 <= pos,
        pos + s.len() <= buf.len(),
        buf.subrange(pos, pos + s.len()) == s,
    ensures
        forall|j: int| 0 <= j < s.len() ==> #[trigger] buf[pos + j] == s[j],
        forall|a: int, b: int|
            0 <= a <= b <= s.len() ==> #[trigger] buf.subrange(pos + a, pos + b) == s.subrange(a, b),
{
    assert forall|j: int| 0 <= j < s.len() implies #[trigger] buf[pos + j] == s[j] by {
        assert(buf.subrange(pos, pos + s.len())[j] == buf[pos + j]);
    }
    assert forall|a: int, b: int| 0 <= a <= b <= s.len() implies #[trigger] buf.subrange(
        pos + a,
        pos + b,
    ) == s.subrange(a, b) by {
        assert(buf.subrange(pos + a, pos + b) =~= s.subrange(a, b));
    }
}

/// The encoding of a frame is never empty.
proof fn lemma_encode_nonempty(f: FrameModel)
    ensures
        encode(f).len() >= 1,
{
    match f {
        FrameModel::Array(items) => {
            assert((seq![STAR] + decimal(items.len()) + crlf() + encode_all(items))[0] == STAR);
        },
        _ => {},
    }
}

/// Reading a line of text that holds no `\r\n`.
proof fn lemma_text_line(buf: Seq<u8>, p: int, u: Seq<u8>)
    requires
        0 <= p,
        p + u.len() + 2 <= buf.len(),
        buf.subrange(p, p + u.len() + 2) == u + crlf(),
        no_crlf(u),
    ensures
        line_end(buf, p) == Some(p + u.len()),
        buf.subrange(p, p + u.len()) == u,
{
    let end = p + u.len();
    lemma_bytes_at(buf, p, u + crlf());
    assert((u + crlf())[u.len() as int] == CR);
    assert((u + crlf())[u.len() as int + 1] == LF);
    assert forall|j: int| p <= j < end implies !(#[trigger] buf[j] == CR && buf[j + 1] == LF) by {
        assert(buf[p + (j - p)] == (u + crlf())[j - p]);
        assert(buf[p + (j - p + 1)] == (u + crlf())[j - p + 1]);
        if j + 1 < end {
            assert(!(u[j - p] == CR && u[j - p + 1] == LF));
        }
    }
    lemma_line_end(buf, p, end);
    assert(buf.subrange(p + 0, p + u.len()) == (u + crlf()).subrange(0, u.len() as int));
    assert((u + crlf()).subrange(0, u.len() as int) =~= u);
}

/// A frame whose canonical bytes stand at `pos` is checked over exactly
/// those bytes and parsed back to itself, whatever follows them.
pub proof fn lemma_decode_encoded(buf: Seq<u8>, pos: int, f: FrameModel)
    requires
        wire_valid(f),
        0 <= pos,
        pos + encode(f).len() <= buf.len(),
        buf.subrange(pos, pos + encode(f).len()) == encode(f),
    ensures
        check_at(buf, pos) == Scan::Done(pos + encode(f).len()),
        parse_at(buf, pos) == Decoded::Done(f, pos + encode(f).len()),
    decreases f,
{
    let enc = encode(f);
    let p = pos + 1;
    lemma_bytes_at(buf, pos, enc);
    assert(buf[pos + 0] == enc[0]);
    match f {
        FrameModel::Simple(s) => {
            let u = encode_utf8(s);
            assert(enc.subrange(1, enc.len() as int) =~= u + crlf());
            assert(buf.subrange(pos + 1, pos + enc.len()) == enc.subrange(1, enc.len() as int));
            lemma_text_line(buf, p, u);
            encode_utf8_valid_utf8(s);
            encode_utf8_decode_utf8(s);
        },
        FrameModel::Error(s) => {
            let u = encode_utf8(s);
            assert(enc.subrange(1, enc.len() as int) =~= u + crlf());
            assert(buf.subrange(pos + 1, pos + enc.len()) == enc.subrange(1, enc.len() as int));
            lemma_text_line(buf, p, u);
            encode_utf8_valid_utf8(s);
            encode_utf8_decode_utf8(s);
        },
        FrameModel::Integer(n) => {
            assert(enc.subrange(1, enc.len() as int) =~= decimal(n as nat) + crlf());
            assert(buf.subrange(pos + 1, pos + enc.len()) == enc.subrange(1, enc.len() as int));
            lemma_decimal_at(buf, p, n);
        },
        FrameModel::Bulk(b) => {
            let d = decimal(b.len());
            let dl = d.len() as int;
            let bl = b.len() as int;
            let e = p + d.len() + 2;
            lemma_decimal(b.len());
            assert(enc.subrange(1, dl + 3) =~= d + crlf());
            assert(buf.subrange(pos + 1, pos + dl + 3) == enc.subrange(1, dl + 3));
            lemma_decimal_at(buf, p, b.len() as u64);
            assert(buf[pos + 1] == enc[1]);
            assert(enc[1] == d[0]);
            assert(is_digit(d[0]));
            assert(enc.subrange(dl + 3, dl + 3 + bl) =~= b);
            assert(buf.subrange(pos + (dl + 3), pos + (dl + 3 + bl))
                == enc.subrange(dl + 3, dl + 3 + bl));
        },
        FrameModel::Null => {
            assert(buf[pos + 1] == enc[1]);
            assert(buf[pos + 2] == enc[2]);
            assert(buf[pos + 3] == enc[3]);
            assert(buf[pos + 4] == enc[4]);
            lemma_line_end(buf, p, p + 2);
            assert(buf.subrange(p, p + 2) =~= seq![MINUS, DIGIT_1]);
            assert(buf.subrange(p, p + 4) =~= seq![MINUS, DIGIT_1, CR, LF]);
        },
        FrameModel::Array(items) => {
            let d = decimal(items.len());
            let dl = d.len() as int;
            let e = p + d.len() + 2;
            let ea = encode_all(items);
            assert(enc.subrange(1, dl + 3) =~= d + crlf());
            assert(buf.subrange(pos + 1, pos + dl + 3) == enc.subrange(1, dl + 3));
            lemma_decimal_at(buf, p, items.len() as u64);
            assert(enc.subrange(dl + 3, enc.len() as int) =~= ea);
            assert(buf.subrange(pos + (dl + 3), pos + enc.len()) == enc.subrange(
                dl + 3,
                enc.len() as int,
            ));
            lemma_decode_items(buf, e, items);
        },
    }
}

/// Several frames whose canonical bytes stand one after the other at `pos`
/// are checked and parsed back in order.
pub proof fn lemma_decode_items(buf: Seq<u8>, pos: int, items: Seq<FrameModel>)
    requires
        forall|i: int| 0 <= i < items.len() ==> wire_valid(#[trigger] items[i]),
        0 <= pos,
        pos + encode_all(items).len() <= buf.len(),
        buf.subrange(pos, pos + encode_all(items).len()) == encode_all(items),
    ensures
        check_items(buf, pos, items.len()) == Scan::Done(pos + encode_all(items).len()),
        parse_items(buf, pos, items.len()) == DecodedSeq::Done(
            items,
            pos + encode_all(items).len(),
        ),
    decreases items,
{
    if items.len() == 0 {
        assert(items =~= Seq::<FrameModel>::empty());
    } else {
        let first = items[0];
        let rest = items.drop_first();
        let ea = encode_all(items);
        lemma_encode_all_front(items);
        let e1 = encode(first);
        lemma_encode_nonempty(first);
        lemma_bytes_at(buf, pos, ea);
        assert(ea.subrange(0, e1.len() as int) =~= e1);
        assert(buf.subrange(pos + 0, pos + e1.len()) == ea.subrange(0, e1.len() as int));
        lemma_decode_encoded(buf, pos, first);
        assert(ea.subrange(e1.len() as int, ea.len() as int) =~= encode_all(rest));
        assert(buf.subrange(pos + e1.len(), pos + ea.len()) == ea.subrange(
            e1.len() as int,
            ea.len() as int,
        ));
        assert forall|i: int| 0 <= i < rest.len() implies wire_valid(#[trigger] rest[i]) by {
            assert(rest[i] == items[i + 1]);
        }
        lemma_decode_items(buf, pos + e1.len(), rest);
        assert(seq![first] + rest =~= items);
    }
}

/// A line whose closing `\r\n` is not yet fully buffered has no end.
proof fn lemma_open_line(buf: Seq<u8>, p: int, c: Seq<u8>)
    requires
        0 <= p <= buf.len(),
        buf.len() < p + c.len() + 2,
        buf.subrange(p, buf.len() as int) == (c + crlf()).subrange(0, buf.len() - p),
        no_crlf(c),
    ensures
        line_end(buf, p) is None,
{
    let k = buf.len() - p;
    let w = c + crlf();
    assert forall|j: int| p <= j < buf.len() - 1 implies !(#[trigger] buf[j] == CR && buf[j + 1] == LF) by {
        assert(buf[j] == buf.subrange(p, buf.len() as int)[j - p]);
        assert(buf[j + 1] == buf.subrange(p, buf.len() as int)[j - p + 1]);
        assert(buf[j] == w[j - p]);
        assert(buf[j + 1] == w[j - p + 1]);
        if j - p + 1 < c.len() {
            assert(!(c[j - p] == CR && c[j - p + 1] == LF));
        } else {
            assert(w[j - p + 1] == CR);
        }
    }
    lemma_no_line_end(buf, p);
}

/// No `\r\n` from `from` on: no line ends.
proof fn lemma_no_line_end(buf: Seq<u8>, from: int)
    requires
        0 <= from,
        forall|j: int| from <= j < buf.len() - 1 ==> !(#[trigger] buf[j] == CR && buf[j + 1] == LF),
    ensures
        line_end(buf, from) is None,
    decreases buf.len() - from,
{
    if from + 1 < buf.len() {
        lemma_no_line_end(buf, from + 1);
    }
}

/// Digits hold no `\r\n`.
proof fn lemma_decimal_no_crlf(n: nat)
    ensures
        no_crlf(decimal(n)),
{
    lemma_decimal(n);
    let d = decimal(n);
    assert forall|i: int| 0 <= i < d.len() - 1 implies !(#[trigger] d[i] == CR && d[i + 1] == LF) by {
        assert(is_digit(d[i]));
    }
}

/// Cut short inside its header line or its body, a frame is incomplete.
pub proof fn lemma_prefix_incomplete(buf: Seq<u8>, pos: int, f: FrameModel)
    requires
        wire_valid(f),
        0 <= pos <= buf.len(),
        buf.len() < pos + encode(f).len(),
        buf.subrange(pos, buf.len() as int) == encode(f).subrange(0, buf.len() - pos),
    ensures
        check_at(buf, pos) is Incomplete,
    decreases f,
{
    let enc = encode(f);
    let k = buf.len() - pos;
    let p = pos + 1;
    if k == 0 {
        return;
    }
    assert forall|j: int| 0 <= j < k implies #[trigger] buf[pos + j] == enc[j] by {
        assert(buf[pos + j] == buf.subrange(pos, buf.len() as int)[j]);
    }
    assert(buf[pos + 0] == enc[0]);
    match f {
        FrameModel::Simple(s) => {
            let u = encode_utf8(s);
            assert(buf.subrange(p, buf.len() as int) =~= (u + crlf()).subrange(0, buf.len() - p)) by {
                assert forall|j: int| 0 <= j < buf.len() - p implies buf.subrange(p, buf.len() as int)[j]
                    == (u + crlf()).subrange(0, buf.len() - p)[j] by {
                    assert(buf[pos + (j + 1)] == enc[j + 1]);
                }
            }
            lemma_open_line(buf, p, u);
        },
        FrameModel::Error(s) => {
            let u = encode_utf8(s);
            assert(buf.subrange(p, buf.len() as int) =~= (u + crlf()).subrange(0, buf.len() - p)) by {
                assert forall|j: int| 0 <= j < buf.len() - p implies buf.subrange(p, buf.len() as int)[j]
                    == (u + crlf()).subrange(0, buf.len() - p)[j] by {
                    assert(buf[pos + (j + 1)] == enc[j + 1]);
                }
            }
            lemma_open_line(buf, p, u);
        },
        FrameModel::Integer(n) => {
            let d = decimal(n as nat);
            lemma_decimal_no_crlf(n as nat);
            assert(buf.subrange(p, buf.len() as int) =~= (d + crlf()).subrange(0, buf.len() - p)) by {
                assert forall|j: int| 0 <= j < buf.len() - p implies buf.subrange(p, buf.len() as int)[j]
                    == (d + crlf()).subrange(0, buf.len() - p)[j] by {
                    assert(buf[pos + (j + 1)] == enc[j + 1]);
                }
            }
            lemma_open_line(buf, p, d);
        },
        FrameModel::Null => {
            if k > 1 {
                assert(buf[pos + 1] == enc[1]);
            }
        },
        FrameModel::Bulk(b) => {
            let d = decimal(b.len());
            let dl = d.len() as int;
            lemma_decimal(b.len());
            if k > 1 {
                assert(buf[pos + 1] == enc[1]);
                assert(enc[1] == d[0]);
                assert(is_digit(d[0]));
            }
            if k < dl + 3 {
                if k > 1 {
                    lemma_decimal_no_crlf(b.len());
                    assert(buf.subrange(p, buf.len() as int) =~= (d + crlf()).subrange(0, buf.len() - p)) by {
                        assert forall|j: int| 0 <= j < buf.len() - p implies buf.subrange(p, buf.len() as int)[j]
                            == (d + crlf()).subrange(0, buf.len() - p)[j] by {
                            assert(buf[pos + (j + 1)] == enc[j + 1]);
                        }
                    }
                    lemma_open_line(buf, p, d);
                }
            } else {
                assert(buf.subrange(p, p + dl + 2) =~= d + crlf()) by {
                    assert forall|j: int| 0 <= j < dl + 2 implies buf.subrange(p, p + dl + 2)[j]
                        == (d + crlf())[j] by {
                        assert(buf[pos + (j + 1)] == enc[j + 1]);
                    }
                }
                lemma_decimal_at(buf, p, b.len() as u64);
            }
        },
        FrameModel::Array(items) => {
            let d = decimal(items.len());
            let dl = d.len() as int;
            let ea = encode_all(items);
            lemma_decimal(items.len());
            if k < dl + 3 {
                if k > 1 {
                    lemma_decimal_no_crlf(items.len());
                    assert(buf.subrange(p, buf.len() as int) =~= (d + crlf()).subrange(0, buf.len() - p)) by {
                        assert forall|j: int| 0 <= j < buf.len() - p implies buf.subrange(p, buf.len() as int)[j]
                            == (d + crlf()).subrange(0, buf.len() - p)[j] by {
                            assert(buf[pos + (j + 1)] == enc[j + 1]);
                        }
                    }
                    lemma_open_line(buf, p, d);
                }
            } else {
                assert(buf.subrange(p, p + dl + 2) =~= d + crlf()) by {
                    assert forall|j: int| 0 <= j < dl + 2 implies buf.subrange(p, p + dl + 2)[j]
                        == (d + crlf())[j] by {
                        assert(buf[pos + (j + 1)] == enc[j + 1]);
                    }
                }
                lemma_decimal_at(buf, p, items.len() as u64);
                let e = p + dl + 2;
                assert(buf.subrange(e, buf.len() as int) =~= ea.subrange(0, buf.len() - e)) by {
                    assert forall|j: int| 0 <= j < buf.len() - e implies buf.subrange(e, buf.len() as int)[j]
                        == ea.subrange(0, buf.len() - e)[j] by {
                        assert(buf[pos + (j + dl + 3)] == enc[j + dl + 3]);
                    }
                }
                lemma_prefix_items(buf, e, items);
            }
        },
    }
}

/// Cut short, a run of frames is incomplete.
pub proof fn lemma_prefix_items(buf: Seq<u8>, pos: int, items: Seq<FrameModel>)
    requires
        forall|i: int| 0 <= i < items.len() ==> wire_valid(#[trigger] items[i]),
        0 <= pos <= buf.len(),
        buf.len() < pos + encode_all(items).len(),
        buf.subrange(pos, buf.len() as int) == encode_all(items).subrange(0, buf.len() - pos),
    ensures
        check_items(buf, pos, items.len()) is Incomplete,
    decreases items,
{
    let ea = encode_all(items);
    if items.len() == 0 {
        return;
    }
    let first = items[0];
    let rest = items.drop_first();
    lemma_encode_all_front(items);
    let e1 = encode(first);
    lemma_encode_nonempty(first);
    if buf.len() < pos + e1.len() {
        assert(buf.subrange(pos, buf.len() as int) =~= e1.subrange(0, buf.len() - pos)) by {
            assert forall|j: int| 0 <= j < buf.len() - pos implies buf.subrange(pos, buf.len() as int)[j]
                == e1.subrange(0, buf.len() - pos)[j] by {
                assert(buf.subrange(pos, buf.len() as int)[j] == ea.subrange(0, buf.len() - pos)[j]);
            }
        }
        lemma_prefix_incomplete(buf, pos, first);
    } else {
        assert(buf.subrange(pos, pos + e1.len()) =~= e1) by {
            assert forall|j: int| 0 <= j < e1.len() implies buf.subrange(pos, pos + e1.len())[j]
                == e1[j] by {
                assert(buf.subrange(pos, buf.len() as int)[j] == ea.subrange(0, buf.len() - pos)[j]);
                assert(buf[pos + j] == buf.subrange(pos, buf.len() as int)[j]);
            }
        }
        lemma_decode_encoded(buf, pos, first);
        let q = pos + e1.len();
        assert(buf.subrange(q, buf.len() as int) =~= encode_all(rest).subrange(0, buf.len() - q)) by {
            assert forall|j: int| 0 <= j < buf.len() - q implies buf.subrange(q, buf.len() as int)[j]
                == encode_all(rest).subrange(0, buf.len() - q)[j] by {
                assert(buf.subrange(pos, buf.len() as int)[j + e1.len()] == ea.subrange(0, buf.len() - pos)[j + e1.len()]);
                assert(buf[pos + (j + e1.len())] == buf.subrange(pos, buf.len() as int)[j + e1.len()]);
            }
        }
        assert forall|i: int| 0 <= i < rest.len() implies wire_valid(#[trigger] rest[i]) by {
            assert(rest[i] == items[i + 1]);
        }
        lemma_prefix_items(buf, q, rest);
    }
}

/// Once the checker has walked over a frame, the parser never asks for more
/// bytes: it builds a frame that ends where the checker stopped, or finds the
/// bytes malformed.
pub proof fn lemma_check_then_parse(buf: Seq<u8>, pos: int)
    requires
        check_at(buf, pos) is Done,
    ensures
        parse_at(buf, pos) is Done ==> parse_at(buf, pos)->Done_1 == check_at(buf, pos)->Done_0,
        !(parse_at(buf, pos) is Incomplete),
    decreases buf.len() - pos, 0int,
{
    let p = pos + 1;
    let t = buf[pos];
    if t == DOLLAR && buf[p] == MINUS {
        let w = buf.subrange(p, p + 4);
        assert(w == seq![MINUS, DIGIT_1, CR, LF]);
        assert(buf[p + 1] == w[1] && buf[p + 2] == w[2] && buf[p + 3] == w[3]);
        lemma_line_end(buf, p, p + 2);
        assert(buf.subrange(p, p + 2) =~= seq![MINUS, DIGIT_1]);
    } else if t == STAR {
        if let Num::Done(n, e) = decimal_at(buf, p) {
            lemma_check_then_parse_items(buf, e, n as nat);
        }
    }
}

/// The same for several frames in a row.
pub proof fn lemma_check_then_parse_items(buf: Seq<u8>, pos: int, n: nat)
    requires
        check_items(buf, pos, n) is Done,
    ensures
        parse_items(buf, pos, n) is Done ==> parse_items(buf, pos, n)->Done_1 == check_items(
            buf,
            pos,
            n,
        )->Done_0,
        !(parse_items(buf, pos, n) is Incomplete),
    decreases buf.len() - pos, 1int, n,
{
    if n > 0 {
        lemma_check_then_parse(buf, pos);
        if let Scan::Done(e) = check_at(buf, pos) {
            if advances(pos, e, buf.len() as int) {
                lemma_check_then_parse_items(buf, e, (n - 1) as nat);
            }
        }
    }
}

/// Reading a stream: when the buffered bytes begin with the canonical bytes
/// of a frame, the checker stops right after them and the parser yields that
/// frame, whatever bytes follow; the next read starts on those bytes.
pub proof fn lemma_stream_front(f: FrameModel, rest: Seq<u8>)
    requires
        wire_valid(f),
    ensures
        check_at(encode(f) + rest, 0) == Scan::Done(encode(f).len() as int),
        parse_at(encode(f) + rest, 0) == Decoded::Done(f, encode(f).len() as int),
        (encode(f) + rest).subrange(encode(f).len() as int, (encode(f) + rest).len() as int)
            == rest,
{
    let buf = encode(f) + rest;
    assert(buf.subrange(0, encode(f).len() as int) =~= encode(f));
    lemma_decode_encoded(buf, 0, f);
    assert(buf.subrange(encode(f).len() as int, buf.len() as int) =~= rest);
}

/// Reading a stream: while only the first `k` bytes of a frame are
/// buffered, however the stream was split, the checker asks for more bytes.
pub proof fn lemma_stream_partial(f: FrameModel, k: int)
    requires
        wire_valid(f),
        0 <= k < encode(f).len(),
    ensures
        check_at(encode(f).subrange(0, k), 0) is Incomplete,
{
    let buf = encode(f).subrange(0, k);
    assert(buf.subrange(0, k) =~= encode(f).subrange(0, k));
    lemma_prefix_incomplete(buf, 0, f);
}

/// Reading a stream of frames `fs`, of which the first `cut` bytes have
/// arrived, however they were split into reads: when the first frame's bytes
/// are all there, the reader yields it and keeps exactly the stream of the
/// other frames cut at the same place, so the same holds again for them;
/// otherwise it waits for more bytes. Once every frame has been read nothing
/// is buffered, and the end of input then yields no frame.
pub proof fn lemma_stream_reads(fs: Seq<FrameModel>, cut: int)
    requires
        forall|i: int| 0 <= i < fs.len() ==> wire_valid(#[trigger] fs[i]),
        fs.len() > 0,
        0 <= cut <= encode_all(fs).len(),
    ensures
        ({
            let b = encode_all(fs).take(cut);
            let n0 = encode(fs[0]).len() as int;
            if cut >= n0 {
                &&& check_at(b, 0) == Scan::Done(n0)
                &&& parse_at(b, 0) == Decoded::Done(fs[0], n0)
                &&& b.subrange(n0, cut) == encode_all(fs.drop_first()).take(cut - n0)
            } else {
                check_at(b, 0) is Incomplete
            }
        }),
{
    let b = encode_all(fs).take(cut);
    let e0 = encode(fs[0]);
    let n0 = e0.len() as int;
    let rest = encode_all(fs.drop_first());
    lemma_encode_all_front(fs);
    if cut >= n0 {
        let tail = rest.take(cut - n0);
        assert(b =~= e0 + tail);
        lemma_stream_front(fs[0], tail);
        assert(b.subrange(n0, cut) =~= tail);
    } else {
        assert(b =~= e0.subrange(0, cut));
        lemma_stream_partial(fs[0], cut);
    }
}

/// Encode, then decode: the bytes that the encoder writes for a frame are
/// checked and parsed back to that same frame, with no byte left over.
pub proof fn lemma_round_trip(f: FrameModel)
    requires
        wire_valid(f),
        encodable(f),
    ensures
        check_at(encode(f), 0) == Scan::Done(encode(f).len() as int),
        parse_at(encode(f), 0) == Decoded::Done(f, encode(f).len() as int),
{
    let buf = encode(f);
    assert(buf.subrange(0, buf.len() as int) =~= buf);
    lemma_decode_encoded(buf, 0, f);
}

} // verus!
