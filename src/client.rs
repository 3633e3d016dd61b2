//! What the client makes of the server's replies.
use vstd::prelude::*;
use vstd::utf8::encode_utf8;
use crate::display::display_of;
use crate::error::ConnectionError;
use crate::frame::{lemma_frames_model_index, Frame, FrameModel};
use crate::cmd::texts;
use crate::parse::bytes_field;
use crate::text::same_text;
use crate::wire::{digits_value, is_digit, PLUS};

verus! {

/// A frame that reads as the text `c`: a simple string holding it, or a bulk
/// holding its UTF-8 bytes.
pub open spec fn text_matches(f: FrameModel, c: Seq<char>) -> bool {
    match f {
        FrameModel::Simple(s) => s == c,
        FrameModel::Bulk(b) => b == encode_utf8(c),
        _ => false,
    }
}

/// Whether a frame reads as the text `c`.
pub fn frame_is_text(f: &Frame, c: &str) -> (r: bool)
    ensures
        r == text_matches(f@, c@),
{
    match f {
        Frame::Simple(s) => same_text(s.as_str(), c),
        Frame::Bulk(b) => {
            let t = c.as_bytes();
            if b.len() != t.len() {
                return false;
            }
            let mut i: usize = 0;
            while i < b.len()
                invariant
                    f@ == FrameModel::Bulk(b@),
                    b@.len() == t@.len(),
                    t@ == encode_utf8(c@),
                    i <= b@.len(),
                    forall|j: int| 0 <= j < i ==> b@[j] == t@[j],
                decreases b@.len() - i,
            {
                if b[i] != t[i] {
                    assert(b@ != t@) by {
                        if b@ == t@ {
                            assert(b@[i as int] == t@[i as int]);
                        }
                    }
                    return false;
                }
                i = i + 1;
            }
            assert(b@ =~= t@);
            true
        },
        _ => false,
    }
}

/// A reply as the client reads it: an error frame becomes an error, and a
/// connection closed before the reply is a disconnect.
pub fn read_response(response: Option<Frame>) -> (r: Result<Frame, ConnectionError>)
    ensures
        response is None ==> r matches Err(ConnectionError::Disconnect),
        response matches Some(f) ==> match f@ {
            FrameModel::Error(m) => r matches Err(ConnectionError::CommandExecute(s)) && s@ == m,
            _ => r is Ok && r->Ok_0@ == f@,
        },
{
    match response {
        Some(Frame::Error(msg)) => Err(ConnectionError::CommandExecute(msg)),
        Some(frame) => Ok(frame),
        None => Err(ConnectionError::Disconnect),
    }
}

/// The reply to `PING`: the text of a simple string, or the bytes of a bulk.
pub fn ping_reply(frame: Frame) -> (r: Result<Vec<u8>, ConnectionError>)
    ensures
        match frame@ {
            FrameModel::Simple(s) => r is Ok && r->Ok_0@ == encode_utf8(s),
            FrameModel::Bulk(b) => r is Ok && r->Ok_0@ == b,
            f => r matches Err(ConnectionError::CommandExecute(m)) && m@ == display_of(f),
        },
{
    match frame {
        Frame::Simple(v) => Ok(v.as_str().as_bytes_vec()),
        Frame::Bulk(v) => Ok(v),
        frame => Err(ConnectionError::CommandExecute(frame.to_text())),
    }
}

/// The reply to `GET`: the value, or `None` for a null reply.
pub fn get_value_reply(frame: Frame) -> (r: Result<Option<Vec<u8>>, ConnectionError>)
    ensures
        match frame@ {
            FrameModel::Simple(s) => r is Ok && r->Ok_0 is Some && r->Ok_0->Some_0@ == encode_utf8(s),
            FrameModel::Bulk(b) => r is Ok && r->Ok_0 is Some && r->Ok_0->Some_0@ == b,
            FrameModel::Null => r is Ok && r->Ok_0 is None,
            f => r matches Err(ConnectionError::CommandExecute(m)) && m@ == display_of(f),
        },
{
    match frame {
        Frame::Simple(v) => Ok(Some(v.as_str().as_bytes_vec())),
        Frame::Bulk(v) => Ok(Some(v)),
        Frame::Null => Ok(None),
        frame => Err(ConnectionError::CommandExecute(frame.to_text())),
    }
}

/// The reply to `SET`: `OK`.
pub fn set_reply(frame: Frame) -> (r: Result<(), ConnectionError>)
    ensures
        frame@ == FrameModel::Simple("OK"@) ==> r is Ok,
        frame@ != FrameModel::Simple("OK"@) ==> (r matches Err(ConnectionError::CommandExecute(m))
            && m@ == display_of(frame@)),
{
    if let Frame::Simple(s) = &frame {
        if same_text(s.as_str(), "OK") {
            return Ok(());
        }
    }
    Err(ConnectionError::CommandExecute(frame.to_text()))
}

/// The reply to `PUBLISH` or `DEL`: an integer.
pub fn integer_reply(frame: Frame) -> (r: Result<u64, ConnectionError>)
    ensures
        match frame@ {
            FrameModel::Integer(n) => r == Ok::<u64, ConnectionError>(n),
            f => r matches Err(ConnectionError::CommandExecute(m)) && m@ == display_of(f),
        },
{
    match frame {
        Frame::Integer(n) => Ok(n),
        frame => Err(ConnectionError::CommandExecute(frame.to_text())),
    }
}

/// Checks the acknowledgment of a subscription to `channel`.
pub fn check_subscribe_ack(response: &Frame, channel: &str) -> (r: Result<(), ConnectionError>)
    ensures
        match response@ {
            FrameModel::Array(items) => if items.len() >= 2 && text_matches(items[0], "subscribe"@)
                && text_matches(items[1], channel@) {
                r is Ok
            } else {
                r matches Err(ConnectionError::CommandExecute(m)) && m@ == display_of(response@)
            },
            _ => r matches Err(ConnectionError::InvalidFrameType),
        },
{
    match response {
        Frame::Array(items) => {
            proof {
                lemma_frames_model_index(items@);
            }
            if items.len() >= 2 && frame_is_text(&items[0], "subscribe") && frame_is_text(
                &items[1],
                channel,
            ) {
                Ok(())
            } else {
                Err(ConnectionError::CommandExecute(response.to_text()))
            }
        },
        _ => Err(ConnectionError::InvalidFrameType),
    }
}

/// A message received in subscriber mode.
#[derive(Debug)]
pub struct Message {
    pub channel: String,
    pub content: Vec<u8>,
}

/// The payload that a message item carries: the bytes of a bulk or simple
/// string as they are, else the bytes of its text.
pub open spec fn payload_of(f: FrameModel) -> Seq<u8> {
    match bytes_field(f) {
        Some(b) => b,
        None => encode_utf8(display_of(f)),
    }
}

/// Reads a message frame `["message", channel, content]`; the channel is
/// taken as text, the content as its payload bytes.
pub fn message_of(frame: Frame) -> (r: Result<Message, ConnectionError>)
    ensures
        match frame@ {
            FrameModel::Array(items) => if items.len() == 3 && text_matches(items[0], "message"@) {
                r is Ok && r->Ok_0.channel@ == display_of(items[1]) && r->Ok_0.content@
                    == payload_of(items[2])
            } else {
                r matches Err(ConnectionError::InvalidFrameType)
            },
            f => r matches Err(ConnectionError::CommandExecute(m)) && m@ == display_of(f),
        },
{
    match &frame {
        Frame::Array(items) => {
            proof {
                lemma_frames_model_index(items@);
            }
            if items.len() == 3 && frame_is_text(&items[0], "message") {
                let channel = items[1].to_text();
                let content = match &items[2] {
                    Frame::Bulk(b) => vstd::slice::slice_to_vec(b.as_slice()),
                    Frame::Simple(s) => s.as_str().as_bytes_vec(),
                    other => other.to_text().as_str().as_bytes_vec(),
                };
                Ok(Message { channel, content })
            } else {
                Err(ConnectionError::InvalidFrameType)
            }
        },
        _ => Err(ConnectionError::CommandExecute(frame.to_text())),
    }
}

/// The names of `v` that `f` does not read as.
pub open spec fn unmatched(v: Seq<Seq<char>>, f: FrameModel) -> Seq<Seq<char>>
    decreases v.len(),
{
    if v.len() == 0 {
        v
    } else if text_matches(f, v.last()) {
        unmatched(v.drop_last(), f)
    } else {
        unmatched(v.drop_last(), f).push(v.last())
    }
}

/// The channels a client is subscribed to.
pub struct Subscriptions {
    channels: Vec<String>,
}

impl Subscriptions {
    pub closed spec fn names(&self) -> Seq<Seq<char>> {
        texts(self.channels@)
    }

    /// The channels a subscription was acknowledged for.
    pub fn new(channels: Vec<String>) -> (r: Subscriptions)
        ensures
            r.names() == texts(channels@),
    {
        Subscriptions { channels }
    }

    /// The channels subscribed to.
    pub fn get_subscribed(&self) -> (r: &[String])
        ensures
            texts(r@) == self.names(),
    {
        self.channels.as_slice()
    }

    /// Adds channels whose subscription was acknowledged.
    pub fn extend(&mut self, more: &[String])
        ensures
            final(self).names() == old(self).names() + texts(more@),
    {
        let mut i: usize = 0;
        let ghost start = self.channels@;
        while i < more.len()
            invariant
                i <= more@.len(),
                start == old(self).channels@,
                texts(self.channels@) == texts(start) + texts(more@.subrange(0, i as int)),
            decreases more@.len() - i,
        {
            let ghost before = self.channels@;
            let c = more[i].clone();
            self.channels.push(c);
            assert(texts(self.channels@) =~= texts(before).push(more@[i as int]@));
            assert(texts(more@.subrange(0, i + 1)) =~= texts(more@.subrange(0, i as int)).push(
                more@[i as int]@,
            ));
            assert(texts(self.channels@) =~= texts(start) + texts(more@.subrange(0, i + 1)));
            i = i + 1;
        }
        assert(more@.subrange(0, more@.len() as int) =~= more@);
    }

    /// How many acknowledgments an `UNSUBSCRIBE` of `requested` channels
    /// brings: one per channel named, or one per channel held when none is.
    pub fn acks_expected(&self, requested: usize) -> (r: usize)
        ensures
            requested == 0 ==> r == self.names().len(),
            requested != 0 ==> r == requested,
    {
        if requested == 0 {
            self.channels.len()
        } else {
            requested
        }
    }

    /// Takes in one acknowledgment of an unsubscription: the channel it
    /// names leaves the list, which must then be exactly one shorter.
    pub fn apply_unsubscribe_ack(&mut self, response: &Frame) -> (r: Result<(), ConnectionError>)
        ensures
            match response@ {
                FrameModel::Array(items) => if items.len() >= 2 && text_matches(
                    items[0],
                    "unsubscribe"@,
                ) {
                    if old(self).names().len() == 0 {
                        (r matches Err(ConnectionError::InvalidArgument(m)) && m@ == display_of(
                            response@,
                        )) && final(self).names() == old(self).names()
                    } else {
                        final(self).names() == unmatched(old(self).names(), items[1]) && (r is Ok
                            <==> final(self).names().len() + 1 == old(self).names().len()) && (r is Err
                            ==> (r matches Err(ConnectionError::CommandExecute(m)) && m@ == display_of(
                            response@,
                        )))
                    }
                } else {
                    (r matches Err(ConnectionError::InvalidFrameType)) && final(self).names() == old(
                        self,
                    ).names()
                },
                _ => (r matches Err(ConnectionError::CommandExecute(m)) && m@ == display_of(
                    response@,
                )) && final(self).names() == old(self).names(),
            },
    {
        match response {
            Frame::Array(items) => {
                proof {
                    lemma_frames_model_index(items@);
                }
                if items.len() >= 2 && frame_is_text(&items[0], "unsubscribe") {
                    let len = self.channels.len();
                    if len == 0 {
                        return Err(ConnectionError::InvalidArgument(response.to_text()));
                    }
                    let channel = &items[1];
                    let ghost old_names = self.names();
                    let mut kept: Vec<String> = Vec::new();
                    let mut i: usize = 0;
                    while i < self.channels.len()
                        invariant
                            i <= self.channels@.len(),
                            texts(self.channels@) == old_names,
                            texts(kept@) == unmatched(old_names.take(i as int), channel@),
                        decreases self.channels@.len() - i,
                    {
                        let ghost before = kept@;
                        assert(old_names.take(i + 1).drop_last() =~= old_names.take(i as int));
                        assert(old_names.take(i + 1).last() == self.channels@[i as int]@);
                        if !frame_is_text(channel, self.channels[i].as_str()) {
                            let c = self.channels[i].clone();
                            kept.push(c);
                            assert(texts(kept@) =~= texts(before).push(self.channels@[i as int]@));
                        }
                        i = i + 1;
                    }
                    assert(old_names.take(old_names.len() as int) =~= old_names);
                    self.channels = kept;
                    if self.channels.len() != len - 1 {
                        return Err(ConnectionError::CommandExecute(response.to_text()));
                    }
                    Ok(())
                } else {
                    Err(ConnectionError::InvalidFrameType)
                }
            },
            _ => Err(ConnectionError::CommandExecute(response.to_text())),
        }
    }
}

/// Every byte is an ASCII digit.
pub open spec fn all_digits(d: Seq<u8>) -> bool {
    forall|i: int| 0 <= i < d.len() ==> is_digit(#[trigger] d[i])
}

/// What `u64::from_str` gives for these bytes: an optional `+`, then one
/// digit or more and nothing else, with a value that fits.
pub open spec fn u64_from_text(t: Seq<u8>) -> Option<u64> {
    let off = if t.len() > 0 && t[0] == PLUS { 1int } else { 0int };
    let d = t.subrange(off, t.len() as int);
    if d.len() == 0 || !all_digits(d) {
        None
    } else if digits_value(d) <= u64::MAX {
        Some(digits_value(d) as u64)
    } else {
        None
    }
}

/// A number of milliseconds given on the command line, read as `u64::from_str`
/// reads it.
pub fn duration_from_ms_str(src: &str) -> (r: Option<u64>)
    ensures
        r == u64_from_text(encode_utf8(src@)),
{
    let t = src.as_bytes();
    let ghost tv = t@;
    let off: usize = if t.len() > 0 && t[0] == PLUS { 1 } else { 0 };
    let ghost d = tv.subrange(off as int, tv.len() as int);
    if t.len() == off {
        return None;
    }
    let mut i: usize = off;
    let mut acc: u64 = 0;
    let mut over = false;
    while i < t.len()
        invariant
            t@ == tv,
            tv == encode_utf8(src@),
            d == tv.subrange(off as int, tv.len() as int),
            off <= i <= tv.len(),
            off == (if tv.len() > 0 && tv[0] == PLUS { 1usize } else { 0usize }),
            forall|j: int| off <= j < i ==> is_digit(#[trigger] tv[j]),
            !over ==> acc == digits_value(tv.subrange(off as int, i as int)),
            over ==> digits_value(tv.subrange(off as int, i as int)) > u64::MAX,
        decreases tv.len() - i,
    {
        let b = t[i];
        if b < 48 || b > 57 {
            proof {
                assert(d[i - off] == tv[i as int]);
                assert(!is_digit(d[i - off]));
                let so = if tv.len() > 0 && tv[0] == PLUS { 1int } else { 0int };
                assert(so == off as int);
                let dd = tv.subrange(so, tv.len() as int);
                assert(dd == d);
                assert(!is_digit(dd[i - off]));
                assert(!all_digits(dd));
                assert(u64_from_text(tv) is None);
            }
            return None;
        }
        let dig = (b - 48) as u64;
        let ghost before = tv.subrange(off as int, i as int);
        let ghost after = tv.subrange(off as int, i + 1);
        proof {
            assert(after.drop_last() =~= before);
            assert(after.last() == b);
            assert(digits_value(after) == digits_value(before) * 10 + dig);
        }
        if !over {
            if acc > (u64::MAX - dig) / 10 {
                assert(acc * 10 + dig > u64::MAX) by (nonlinear_arith)
                    requires
                        acc > (u64::MAX - dig) / 10,
                        dig <= 9,
                ;
                over = true;
            } else {
                assert(acc * 10 + dig <= u64::MAX) by (nonlinear_arith)
                    requires
                        acc <= (u64::MAX - dig) / 10,
                        dig <= 9,
                ;
                acc = acc * 10 + dig;
            }
        } else {
            assert(digits_value(before) * 10 + dig > u64::MAX) by (nonlinear_arith)
                requires
                    digits_value(before) > u64::MAX,
            ;
        }
        i = i + 1;
    }
    proof {
        assert(tv.subrange(off as int, i as int) =~= d);
        assert forall|j: int| 0 <= j < d.len() implies is_digit(#[trigger] d[j]) by {
            assert(d[j] == tv[j + off]);
        }
    }
    if over {
        None
    } else {
        Some(acc)
    }
}

} // verus!
