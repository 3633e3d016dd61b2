//! The commands: how each is read from a request frame, written back as a
//! request frame, and answered.
use vstd::prelude::*;
use vstd::utf8::encode_utf8;
use crate::error::{ConnectionError, ParseError};
use crate::frame::{Frame, FrameModel};
use crate::parse::{bytes_field, int_field, string_field, Parse};
use crate::store::{deadline, reported, EntryModel, Store};
use crate::text::{concat, lower_of, lowercase, same_text, upper_of, uppercase};

verus! {

/// The texts of a list of strings.
pub open spec fn texts(v: Seq<String>) -> Seq<Seq<char>> {
    v.map_values(|s: String| s@)
}

/// What a request asks for.
pub enum CommandModel {
    Get(Seq<char>),
    Ping(Option<Seq<char>>),
    Publish(Seq<char>, Seq<u8>),
    /// Key, value, and the time to live in milliseconds.
    SetValue(Seq<char>, Seq<u8>, Option<u64>),
    Subscribe(Seq<Seq<char>>),
    Unsubscribe(Seq<Seq<char>>),
    Unknown(Seq<char>),
    Del(Seq<char>),
}

/// Reading the fields of `GET key`: the command and the fields left over.
pub open spec fn get_parse(fs: Seq<FrameModel>) -> Option<(CommandModel, Seq<FrameModel>)> {
    if fs.len() > 0 && string_field(fs[0]) is Some {
        Some((CommandModel::Get(string_field(fs[0])->Some_0), fs.drop_first()))
    } else {
        None
    }
}

/// Reading the fields of `DEL key`.
pub open spec fn del_parse(fs: Seq<FrameModel>) -> Option<(CommandModel, Seq<FrameModel>)> {
    if fs.len() > 0 && string_field(fs[0]) is Some {
        Some((CommandModel::Del(string_field(fs[0])->Some_0), fs.drop_first()))
    } else {
        None
    }
}

/// Reading the fields of `PING [msg]`.
pub open spec fn ping_parse(fs: Seq<FrameModel>) -> Option<(CommandModel, Seq<FrameModel>)> {
    if fs.len() == 0 {
        Some((CommandModel::Ping(None), fs))
    } else if string_field(fs[0]) is Some {
        Some((CommandModel::Ping(Some(string_field(fs[0])->Some_0)), fs.drop_first()))
    } else {
        None
    }
}

/// Reading the fields of `PUBLISH channel message`.
pub open spec fn publish_parse(fs: Seq<FrameModel>) -> Option<(CommandModel, Seq<FrameModel>)> {
    if fs.len() > 1 && string_field(fs[0]) is Some && bytes_field(fs[1]) is Some {
        Some(
            (
                CommandModel::Publish(string_field(fs[0])->Some_0, bytes_field(fs[1])->Some_0),
                fs.subrange(2, fs.len() as int),
            ),
        )
    } else {
        None
    }
}

/// The time to live that the option `opt` with the number `n` gives, in
/// milliseconds: `EX` counts seconds, `PX` milliseconds, in any case. A time
/// to live past the largest count of milliseconds is held as that count,
/// which no deadline exceeds.
pub open spec fn ttl_of(opt: Seq<char>, n: u64) -> Option<u64> {
    if upper_of(opt) == "EX"@ {
        if n * 1000 <= u64::MAX {
            Some((n * 1000) as u64)
        } else {
            Some(u64::MAX)
        }
    } else if upper_of(opt) == "PX"@ {
        Some(n)
    } else {
        None
    }
}

/// Reading the fields of `SET key value [EX seconds | PX milliseconds]`.
pub open spec fn set_parse(fs: Seq<FrameModel>) -> Option<(CommandModel, Seq<FrameModel>)> {
    if fs.len() > 1 && string_field(fs[0]) is Some && bytes_field(fs[1]) is Some {
        let key = string_field(fs[0])->Some_0;
        let value = bytes_field(fs[1])->Some_0;
        if fs.len() == 2 {
            Some((CommandModel::SetValue(key, value, None), fs.subrange(2, 2)))
        } else {
            match string_field(fs[2]) {
                Some(opt) => if (upper_of(opt) == "EX"@ || upper_of(opt) == "PX"@) && fs.len() > 3
                    && int_field(fs[3]) is Some && ttl_of(opt, int_field(fs[3])->Some_0) is Some {
                    Some(
                        (
                            CommandModel::SetValue(
                                key,
                                value,
                                ttl_of(opt, int_field(fs[3])->Some_0),
                            ),
                            fs.subrange(4, fs.len() as int),
                        ),
                    )
                } else {
                    None
                },
                None => None,
            }
        }
    } else {
        None
    }
}

/// All fields are strings.
pub open spec fn all_strings(fs: Seq<FrameModel>) -> bool {
    forall|i: int| 0 <= i < fs.len() ==> (#[trigger] string_field(fs[i])) is Some
}

/// The strings of fields that are all strings.
pub open spec fn strings_of(fs: Seq<FrameModel>) -> Seq<Seq<char>> {
    fs.map_values(|f: FrameModel| string_field(f)->Some_0)
}

/// Reading the fields of `SUBSCRIBE channel [channel ...]`.
pub open spec fn subscribe_parse(fs: Seq<FrameModel>) -> Option<(CommandModel, Seq<FrameModel>)> {
    if fs.len() > 0 && all_strings(fs) {
        Some((CommandModel::Subscribe(strings_of(fs)), fs.subrange(0, 0)))
    } else {
        None
    }
}

/// Reading the fields of `UNSUBSCRIBE [channel ...]`.
pub open spec fn unsubscribe_parse(fs: Seq<FrameModel>) -> Option<(CommandModel, Seq<FrameModel>)> {
    if all_strings(fs) {
        Some((CommandModel::Unsubscribe(strings_of(fs)), fs.subrange(0, 0)))
    } else {
        None
    }
}

/// A parse that must use up every field.
pub open spec fn whole(p: Option<(CommandModel, Seq<FrameModel>)>) -> Option<CommandModel> {
    match p {
        Some((c, rest)) => if rest.len() == 0 {
            Some(c)
        } else {
            None
        },
        None => None,
    }
}

/// The command that a request frame holds, or `None` when it is malformed.
/// The name is the first item, lowercased; an unknown name is not an error.
pub open spec fn command_of(f: FrameModel) -> Option<CommandModel> {
    match f {
        FrameModel::Array(items) => if items.len() > 0 && string_field(items[0]) is Some {
            let name = lower_of(string_field(items[0])->Some_0);
            let fs = items.drop_first();
            if name == "get"@ {
                whole(get_parse(fs))
            } else if name == "ping"@ {
                whole(ping_parse(fs))
            } else if name == "publish"@ {
                whole(publish_parse(fs))
            } else if name == "set"@ {
                whole(set_parse(fs))
            } else if name == "subscribe"@ {
                whole(subscribe_parse(fs))
            } else if name == "unsubscribe"@ {
                whole(unsubscribe_parse(fs))
            } else if name == "del"@ {
                whole(del_parse(fs))
            } else {
                Some(CommandModel::Unknown(name))
            }
        } else {
            None
        },
        _ => None,
    }
}

/// The error text for an unknown command.
pub open spec fn unknown_command_text(name: Seq<char>) -> Seq<char> {
    "err unknown command '"@ + name + "'"@
}

proof fn lemma_items(a: FrameModel, b: FrameModel, c: FrameModel)
    ensures
        Seq::<FrameModel>::empty().push(a) == seq![a],
        Seq::<FrameModel>::empty().push(a).push(b) == seq![a, b],
        Seq::<FrameModel>::empty().push(a).push(b).push(c) == seq![a, b, c],
{
    assert(Seq::<FrameModel>::empty().push(a) =~= seq![a]);
    assert(Seq::<FrameModel>::empty().push(a).push(b) =~= seq![a, b]);
    assert(Seq::<FrameModel>::empty().push(a).push(b).push(c) =~= seq![a, b, c]);
}

/// The bytes of a text.
fn text_bytes(s: &str) -> (r: Vec<u8>)
    ensures
        r@ == encode_utf8(s@),
{
    s.as_bytes_vec()
}

/// `GET key`: the value of a key.
#[derive(Debug)]
pub struct Get {
    key: String,
}

impl Get {
    pub closed spec fn key_view(&self) -> Seq<char> {
        self.key@
    }

    pub open spec fn model(&self) -> CommandModel {
        CommandModel::Get(self.key_view())
    }

    pub fn new(key: &str) -> (r: Get)
        ensures
            r.model() == CommandModel::Get(key@),
    {
        Get { key: String::from_str(key) }
    }

    pub fn key(&self) -> (r: &str)
        ensures
            CommandModel::Get(r@) == self.model(),
    {
        self.key.as_str()
    }

    /// Reads the key field.
    pub fn parse_frame(parse: &mut Parse) -> (r: Result<Get, ParseError>)
        ensures
            match get_parse(old(parse).rest()) {
                Some((c, rest)) => r is Ok && r->Ok_0.model() == c && final(parse).rest() == rest,
                None => r is Err,
            },
    {
        let key = parse.next_string()?;
        Ok(Get { key })
    }

    /// The reply: the value as a bulk, or null when the key is absent.
    pub fn apply(self, store: &Store) -> (r: Frame)
        requires
            store.wf(),
        ensures
            store.entries().contains_key(self.key_view()) ==> r@ == FrameModel::Bulk(
                store.entries()[self.key_view()].data,
            ),
            !store.entries().contains_key(self.key_view()) ==> r@ == FrameModel::Null,
    {
        match store.get(self.key.as_str()) {
            Some(value) => Frame::Bulk(value),
            None => Frame::Null,
        }
    }

    /// The request frame: `["get", key]`.
    pub fn into_frame(self) -> (r: Result<Frame, ParseError>)
        ensures
            r is Ok && r->Ok_0@ == FrameModel::Array(
                seq![FrameModel::Bulk(encode_utf8("get"@)), FrameModel::Bulk(encode_utf8(self.key_view()))],
            ),
    {
        let mut frame = Frame::array();
        let name = text_bytes("get");
        let key = text_bytes(self.key.as_str());
        proof {
            lemma_items(FrameModel::Bulk(name@), FrameModel::Bulk(key@), FrameModel::Null);
        }
        frame.push_bulk(name)?;
        frame.push_bulk(key)?;
        Ok(frame)
    }
}

/// `DEL key`: removes a key.
#[derive(Debug)]
pub struct Del {
    key: String,
}

impl Del {
    pub closed spec fn key_view(&self) -> Seq<char> {
        self.key@
    }

    pub open spec fn model(&self) -> CommandModel {
        CommandModel::Del(self.key_view())
    }

    pub fn new(key: &str) -> (r: Del)
        ensures
            r.model() == CommandModel::Del(key@),
    {
        Del { key: String::from_str(key) }
    }

    pub fn key(&self) -> (r: &str)
        ensures
            CommandModel::Del(r@) == self.model(),
    {
        self.key.as_str()
    }

    /// Reads the key field.
    pub fn parse_frame(parse: &mut Parse) -> (r: Result<Del, ParseError>)
        ensures
            match del_parse(old(parse).rest()) {
                Some((c, rest)) => r is Ok && r->Ok_0.model() == c && final(parse).rest() == rest,
                None => r is Err,
            },
    {
        let key = parse.next_string()?;
        Ok(Del { key })
    }

    /// Removes the key; the reply counts the keys removed, 1 or 0.
    pub fn apply(self, store: &mut Store) -> (r: Frame)
        requires
            old(store).wf(),
        ensures
            final(store).wf(),
            final(store).entries() == old(store).entries().remove(self.key_view()),
            final(store).channels() == old(store).channels(),
            final(store).senders() == old(store).senders(),
            final(store).sent() == old(store).sent(),
            final(store).next_id() == old(store).next_id(),
            final(store).is_shut_down() == old(store).is_shut_down(),
            r@ == FrameModel::Integer(
                if old(store).entries().contains_key(self.key_view()) { 1 } else { 0 },
            ),
    {
        let n = store.del(self.key.as_str());
        Frame::Integer(n as u64)
    }

    /// The request frame: `["del", key]`.
    pub fn into_frame(self) -> (r: Result<Frame, ParseError>)
        ensures
            r is Ok && r->Ok_0@ == FrameModel::Array(
                seq![FrameModel::Bulk(encode_utf8("del"@)), FrameModel::Bulk(encode_utf8(self.key_view()))],
            ),
    {
        let mut frame = Frame::array();
        let name = text_bytes("del");
        let key = text_bytes(self.key.as_str());
        proof {
            lemma_items(FrameModel::Bulk(name@), FrameModel::Bulk(key@), FrameModel::Null);
        }
        frame.push_bulk(name)?;
        frame.push_bulk(key)?;
        Ok(frame)
    }
}

/// `PING [msg]`.
#[derive(Debug)]
pub struct Ping {
    msg: Option<String>,
}

impl Ping {
    pub closed spec fn msg_view(&self) -> Option<Seq<char>> {
        match self.msg {
            Some(m) => Some(m@),
            None => None,
        }
    }

    pub open spec fn model(&self) -> CommandModel {
        CommandModel::Ping(self.msg_view())
    }

    pub fn new(msg: Option<String>) -> (r: Ping)
        ensures
            r.model() == CommandModel::Ping(
                match msg {
                    Some(m) => Some(m@),
                    None => None,
                },
            ),
    {
        Ping { msg }
    }

    /// Reads the optional message field.
    pub fn parse_frame(parse: &mut Parse) -> (r: Result<Ping, ParseError>)
        ensures
            match ping_parse(old(parse).rest()) {
                Some((c, rest)) => r is Ok && r->Ok_0.model() == c && final(parse).rest() == rest,
                None => r is Err,
            },
    {
        match parse.next_string() {
            Ok(msg) => Ok(Ping::new(Some(msg))),
            Err(ParseError::EndOfStream) => Ok(Ping::new(None)),
            Err(e) => Err(e),
        }
    }

    /// The reply: `PONG`, or the message as a bulk.
    pub fn apply(self) -> (r: Frame)
        ensures
            self.model() == CommandModel::Ping(None) ==> r@ == FrameModel::Simple("PONG"@),
            forall|m: Seq<char>| self.model() == CommandModel::Ping(Some(m)) ==> r@ == FrameModel::Bulk(encode_utf8(m)),
    {
        match self.msg {
            Some(msg) => Frame::Bulk(text_bytes(msg.as_str())),
            None => Frame::Simple(String::from_str("PONG")),
        }
    }

    /// The request frame: `["ping"]` or `["ping", msg]`.
    pub fn into_frame(self) -> (r: Result<Frame, ParseError>)
        ensures
            self.model() == CommandModel::Ping(None) ==> r is Ok && r->Ok_0@ == FrameModel::Array(
                seq![FrameModel::Bulk(encode_utf8("ping"@))],
            ),
            forall|m: Seq<char>| self.model() == CommandModel::Ping(Some(m)) ==> r is Ok && r->Ok_0@
                == FrameModel::Array(
                seq![FrameModel::Bulk(encode_utf8("ping"@)), FrameModel::Bulk(encode_utf8(m))],
            ),
    {
        let mut frame = Frame::array();
        let name = text_bytes("ping");
        frame.push_bulk(name)?;
        if let Some(msg) = self.msg {
            let m = text_bytes(msg.as_str());
            proof {
                lemma_items(FrameModel::Bulk(name@), FrameModel::Bulk(m@), FrameModel::Null);
            }
            frame.push_bulk(m)?;
        } else {
            proof {
                lemma_items(FrameModel::Bulk(name@), FrameModel::Null, FrameModel::Null);
            }
        }
        Ok(frame)
    }
}

/// `PUBLISH channel message`.
#[derive(Debug)]
pub struct Publish {
    channel: String,
    message: Vec<u8>,
}

impl Publish {
    pub closed spec fn channel_view(&self) -> Seq<char> {
        self.channel@
    }

    pub closed spec fn message_view(&self) -> Seq<u8> {
        self.message@
    }

    pub open spec fn model(&self) -> CommandModel {
        CommandModel::Publish(self.channel_view(), self.message_view())
    }

    pub fn new(channel: &str, message: Vec<u8>) -> (r: Publish)
        ensures
            r.model() == CommandModel::Publish(channel@, message@),
    {
        Publish { channel: String::from_str(channel), message }
    }

    /// Reads the channel and message fields.
    pub fn parse_frame(parse: &mut Parse) -> (r: Result<Publish, ParseError>)
        ensures
            match publish_parse(old(parse).rest()) {
                Some((c, rest)) => r is Ok && r->Ok_0.model() == c && final(parse).rest() == rest,
                None => r is Err,
            },
    {
        let ghost fs = parse.rest();
        let channel = parse.next_string()?;
        let message = parse.next_bytes()?;
        assert(fs.drop_first().drop_first() =~= fs.subrange(2, fs.len() as int));
        Ok(Publish { channel, message })
    }

    /// Hands the message to the channel's sender; the reply is the receiver
    /// count hint that the send gave, 0 when the channel has no broadcast
    /// channel or the send failed.
    pub fn apply(self, store: &mut Store) -> (r: Frame)
        requires
            old(store).wf(),
        ensures
            final(store).wf(),
            final(store).entries() == old(store).entries(),
            final(store).channels() == old(store).channels(),
            final(store).senders() == old(store).senders(),
            final(store).next_id() == old(store).next_id(),
            final(store).is_shut_down() == old(store).is_shut_down(),
            !old(store).channels().contains(self.channel_view()) ==> r@ == FrameModel::Integer(0)
                && final(store).sent() == old(store).sent(),
            old(store).channels().contains(self.channel_view()) ==> final(store).sent() == old(
                store,
            ).sent().insert(
                self.channel_view(),
                old(store).sent()[self.channel_view()].push(
                    (self.message_view(), final(store).sent()[self.channel_view()].last().1),
                ),
            ) && r@ == FrameModel::Integer(
                reported(final(store).sent()[self.channel_view()].last().1) as u64,
            ),
    {
        let n = store.publish(self.channel.as_str(), self.message);
        Frame::Integer(n as u64)
    }

    /// The request frame: `["publish", channel, message]`.
    pub fn into_frame(self) -> (r: Result<Frame, ParseError>)
        ensures
            r is Ok && r->Ok_0@ == FrameModel::Array(
                seq![
                    FrameModel::Bulk(encode_utf8("publish"@)),
                    FrameModel::Bulk(encode_utf8(self.channel_view())),
                    FrameModel::Bulk(self.message_view()),
                ],
            ),
    {
        let mut frame = Frame::array();
        let name = text_bytes("publish");
        let channel = text_bytes(self.channel.as_str());
        proof {
            lemma_items(FrameModel::Bulk(name@), FrameModel::Bulk(channel@), FrameModel::Bulk(self.message@));
        }
        frame.push_bulk(name)?;
        frame.push_bulk(channel)?;
        frame.push_bulk(self.message)?;
        Ok(frame)
    }
}

/// `SET key value [EX seconds | PX milliseconds]`: stores a value, with an
/// optional time to live kept in milliseconds.
#[derive(Debug)]
pub struct SetValue {
    key: String,
    value: Vec<u8>,
    expire: Option<u64>,
}

impl SetValue {
    pub closed spec fn key_view(&self) -> Seq<char> {
        self.key@
    }

    pub closed spec fn value_view(&self) -> Seq<u8> {
        self.value@
    }

    pub closed spec fn expire_view(&self) -> Option<u64> {
        self.expire
    }

    pub open spec fn model(&self) -> CommandModel {
        CommandModel::SetValue(self.key_view(), self.value_view(), self.expire_view())
    }

    pub fn new(key: &str, value: Vec<u8>, expire: Option<u64>) -> (r: SetValue)
        ensures
            r.model() == CommandModel::SetValue(key@, value@, expire),
    {
        SetValue { key: String::from_str(key), value, expire }
    }

    pub fn key(&self) -> (r: &str)
        ensures
            r@ == self.key_view(),
    {
        self.key.as_str()
    }

    pub fn value(&self) -> (r: &Vec<u8>)
        ensures
            r@ == self.value_view(),
    {
        &self.value
    }

    /// The time to live, in milliseconds.
    pub fn expire(&self) -> (r: Option<u64>)
        ensures
            r == self.expire_view(),
    {
        self.expire
    }

    /// Reads the key, the value and the optional expiration.
    pub fn parse_frame(parse: &mut Parse) -> (r: Result<SetValue, ParseError>)
        ensures
            match set_parse(old(parse).rest()) {
                Some((c, rest)) => r is Ok && r->Ok_0.model() == c && final(parse).rest() == rest,
                None => r is Err,
            },
    {
        let ghost fs = parse.rest();
        let key = parse.next_string()?;
        let value = parse.next_bytes()?;
        let mut expire: Option<u64> = None;
        match parse.next_string() {
            Ok(opt) => {
                let up = uppercase(opt.as_str());
                if same_text(up.as_str(), "EX") {
                    let seconds = parse.next_int()?;
                    assert(seconds * 1000 <= u64::MAX <==> seconds <= u64::MAX / 1000)
                        by (nonlinear_arith);
                    if seconds > u64::MAX / 1000 {
                        expire = Some(u64::MAX);
                    } else {
                        expire = Some(seconds * 1000);
                    }
                } else if same_text(up.as_str(), "PX") {
                    let millis = parse.next_int()?;
                    expire = Some(millis);
                } else {
                    return Err(
                        ParseError::Parse(
                            String::from_str("currently `SET` only support the expiration option"),
                        ),
                    );
                }
                assert(fs.drop_first().drop_first().drop_first().drop_first() =~= fs.subrange(4, fs.len() as int));
            },
            Err(ParseError::EndOfStream) => {
                assert(fs.drop_first().drop_first() =~= fs.subrange(2, 2));
            },
            Err(e) => {
                return Err(e);
            },
        }
        Ok(SetValue { key, value, expire })
    }

    /// Stores the value; the reply is `OK`. The second result says whether
    /// the purge task must be woken for an earlier deadline.
    pub fn apply(self, store: &mut Store, now: u64) -> (r: (Frame, bool))
        requires
            old(store).wf(),
            old(store).next_id() < u64::MAX,
        ensures
            final(store).wf(),
            final(store).entries() == old(store).entries().insert(
                self.key_view(),
                crate::store::EntryModel {
                    id: old(store).next_id(),
                    data: self.value_view(),
                    expires_at: match self.expire_view() {
                        Some(d) => Some(deadline(now, d)),
                        None => None,
                    },
                },
            ),
            final(store).next_id() == old(store).next_id() + 1,
            final(store).channels() == old(store).channels(),
            final(store).senders() == old(store).senders(),
            final(store).sent() == old(store).sent(),
            final(store).is_shut_down() == old(store).is_shut_down(),
            r.0@ == FrameModel::Simple("OK"@),
            r.1 == (self.expire_view() is Some && forall|k: Seq<char>| #[trigger]
                old(store).entries().contains_key(k) && old(store).entries()[k].expires_at is Some
                ==> deadline(now, self.expire_view()->Some_0) < old(store).entries()[k].expires_at->Some_0),
    {
        let notify = store.set(self.key, self.value, self.expire, now);
        (Frame::Simple(String::from_str("OK")), notify)
    }

    /// The request frame: `["set", key, value]`, then `"px"` and the time to
    /// live in milliseconds when there is one.
    pub fn into_frame(self) -> (r: Result<Frame, ParseError>)
        ensures
            r is Ok,
            self.expire_view() is None ==> r->Ok_0@ == FrameModel::Array(
                seq![
                    FrameModel::Bulk(encode_utf8("set"@)),
                    FrameModel::Bulk(encode_utf8(self.key_view())),
                    FrameModel::Bulk(self.value_view()),
                ],
            ),
            self.expire_view() is Some ==> r->Ok_0@ == FrameModel::Array(
                seq![
                    FrameModel::Bulk(encode_utf8("set"@)),
                    FrameModel::Bulk(encode_utf8(self.key_view())),
                    FrameModel::Bulk(self.value_view()),
                    FrameModel::Bulk(encode_utf8("px"@)),
                    FrameModel::Integer(self.expire_view()->Some_0),
                ],
            ),
    {
        let mut frame = Frame::array();
        let name = text_bytes("set");
        let key = text_bytes(self.key.as_str());
        let ghost v = self.value@;
        proof {
            lemma_items(FrameModel::Bulk(name@), FrameModel::Bulk(key@), FrameModel::Bulk(v));
        }
        frame.push_bulk(name)?;
        frame.push_bulk(key)?;
        frame.push_bulk(self.value)?;
        if let Some(ms) = self.expire {
            let px = text_bytes("px");
            let ghost before = frame@;
            frame.push_bulk(px)?;
            frame.push_int(ms)?;
            assert(seq![FrameModel::Bulk(name@), FrameModel::Bulk(key@), FrameModel::Bulk(v)].push(
                FrameModel::Bulk(px@)).push(FrameModel::Integer(ms)) =~= seq![
                FrameModel::Bulk(name@),
                FrameModel::Bulk(key@),
                FrameModel::Bulk(v),
                FrameModel::Bulk(px@),
                FrameModel::Integer(ms),
            ]);
        }
        Ok(frame)
    }
}

/// An unknown command, named in lower case.
#[derive(Debug)]
pub struct Unknown {
    cmd_name: String,
}

impl Unknown {
    pub closed spec fn name_view(&self) -> Seq<char> {
        self.cmd_name@
    }

    pub open spec fn model(&self) -> CommandModel {
        CommandModel::Unknown(self.name_view())
    }

    pub fn new(name: &str) -> (r: Unknown)
        ensures
            r.name_view() == name@,
    {
        Unknown { cmd_name: String::from_str(name) }
    }

    pub fn get_name(&self) -> (r: &str)
        ensures
            r@ == self.name_view(),
    {
        self.cmd_name.as_str()
    }

    /// The reply: an error that names the command.
    pub fn apply(self) -> (r: Frame)
        ensures
            r@ == FrameModel::Error(unknown_command_text(self.name_view())),
    {
        let head = concat("err unknown command '", self.cmd_name.as_str());
        Frame::Error(concat(head.as_str(), "'"))
    }
}

/// Copies of a list of strings.
pub(crate) fn copy_strings(v: &[String]) -> (r: Vec<String>)
    ensures
        texts(r@) == texts(v@),
{
    let mut out: Vec<String> = Vec::new();
    let mut i: usize = 0;
    while i < v.len()
        invariant
            i <= v@.len(),
            texts(out@) == texts(v@.subrange(0, i as int)),
        decreases v@.len() - i,
    {
        let ghost before = out@;
        let c = v[i].clone();
        assert(c@ == v@[i as int]@);
        out.push(c);
        assert(texts(out@) =~= texts(before).push(c@));
        assert(texts(v@.subrange(0, i + 1)) =~= texts(v@.subrange(0, i as int)).push(c@));
        assert(texts(out@) =~= texts(v@.subrange(0, i + 1)));
        i = i + 1;
    }
    assert(v@.subrange(0, v@.len() as int) =~= v@);
    out
}

/// Reads string fields until none is left. Every field must be a string.
fn read_strings(parse: &mut Parse, out: &mut Vec<String>) -> (r: Result<(), ParseError>)
    ensures
        all_strings(old(parse).rest()) ==> r is Ok && texts(final(out)@) == texts(old(out)@)
            + strings_of(old(parse).rest()) && final(parse).rest().len() == 0,
        !all_strings(old(parse).rest()) ==> r is Err,
{
    let ghost fs = parse.rest();
    let ghost out0 = out@;
    let ghost mut k: int = 0;
    while !parse.is_done()
        invariant
            fs == old(parse).rest(),
            out0 == old(out)@,
            0 <= k <= fs.len(),
            parse.rest() == fs.subrange(k, fs.len() as int),
            all_strings(fs.subrange(0, k)),
            texts(out@) == texts(out0) + strings_of(fs.subrange(0, k)),
        decreases fs.len() - k,
    {
        let ghost rest = parse.rest();
        let s = parse.next_string();
        match s {
            Ok(s) => {
                assert(rest[0] == fs[k]);
                let ghost before = out@;
                let ghost sv = s@;
                out.push(s);
                proof {
                    assert(texts(out@) =~= texts(before).push(sv));
                    assert(strings_of(fs.subrange(0, k + 1)) =~= strings_of(fs.subrange(0, k)).push(sv));
                    assert(fs.subrange(k + 1, fs.len() as int) =~= rest.drop_first());
                    assert(texts(out@) =~= texts(out0) + strings_of(fs.subrange(0, k + 1)));
                    assert forall|i: int| 0 <= i < k + 1 implies (#[trigger] string_field(fs.subrange(0, k + 1)[i])) is Some by {
                        if i < k {
                            assert(fs.subrange(0, k + 1)[i] == fs.subrange(0, k)[i]);
                        }
                    }
                    k = k + 1;
                }
            },
            Err(e) => {
                proof {
                    assert(rest[0] == fs[k]);
                    assert(!(string_field(fs[k]) is Some));
                    assert(!all_strings(fs));
                    assert(fs == old(parse).rest());
                }
                return Err(e);
            },
        }
    }
    assert(fs.subrange(0, k) =~= fs);
    Ok(())
}

/// `SUBSCRIBE channel [channel ...]`.
#[derive(Debug)]
pub struct Subscribe {
    channels: Vec<String>,
}

impl Subscribe {
    pub closed spec fn channels_view(&self) -> Seq<Seq<char>> {
        texts(self.channels@)
    }

    pub open spec fn model(&self) -> CommandModel {
        CommandModel::Subscribe(self.channels_view())
    }

    pub fn new(channels: &[String]) -> (r: Subscribe)
        ensures
            r.channels_view() == texts(channels@),
    {
        Subscribe { channels: copy_strings(channels) }
    }

    /// The channel names, in request order.
    pub fn channels(&self) -> (r: &Vec<String>)
        ensures
            texts(r@) == self.channels_view(),
    {
        &self.channels
    }

    /// Reads one channel name or more.
    pub fn parse_frame(parse: &mut Parse) -> (r: Result<Subscribe, ParseError>)
        ensures
            match subscribe_parse(old(parse).rest()) {
                Some((c, rest)) => r is Ok && r->Ok_0.model() == c && final(parse).rest() == rest,
                None => r is Err,
            },
    {
        let ghost fs = parse.rest();
        let mut channels: Vec<String> = Vec::new();
        let first = parse.next_string()?;
        channels.push(first);
        proof {
            assert(texts(channels@) =~= strings_of(fs.subrange(0, 1)));
        }
        let ghost fs1 = parse.rest();
        read_strings(parse, &mut channels)?;
        proof {
            assert(fs1 =~= fs.subrange(1, fs.len() as int));
            assert(strings_of(fs.subrange(0, 1)) + strings_of(fs1) =~= strings_of(fs));
            assert forall|i: int| 0 <= i < fs.len() implies (#[trigger] string_field(fs[i])) is Some by {
                if i > 0 {
                    assert(fs[i] == fs1[i - 1]);
                }
            }
            assert(parse.rest() =~= fs.subrange(0, 0));
        }
        Ok(Subscribe { channels })
    }

    /// The request frame: `["subscribe", channel, ...]`.
    pub fn into_frame(self) -> (r: Result<Frame, ParseError>)
        ensures
            r is Ok && r->Ok_0@ == FrameModel::Array(
                seq![FrameModel::Bulk(encode_utf8("subscribe"@))] + self.channels_view().map_values(
                    |c: Seq<char>| FrameModel::Bulk(encode_utf8(c)),
                ),
            ),
    {
        name_and_channels("subscribe", self.channels)
    }
}

/// A request frame: a command name, then channel names.
fn name_and_channels(name: &str, channels: Vec<String>) -> (r: Result<Frame, ParseError>)
    ensures
        r is Ok && r->Ok_0@ == FrameModel::Array(
            seq![FrameModel::Bulk(encode_utf8(name@))] + texts(channels@).map_values(
                |c: Seq<char>| FrameModel::Bulk(encode_utf8(c)),
            ),
        ),
{
    let mut frame = Frame::array();
    frame.push_bulk(text_bytes(name))?;
    let ghost head = seq![FrameModel::Bulk(encode_utf8(name@))];
    assert(Seq::<FrameModel>::empty().push(FrameModel::Bulk(encode_utf8(name@))) =~= head);
    let mut i: usize = 0;
    while i < channels.len()
        invariant
            i <= channels@.len(),
            frame@ == FrameModel::Array(
                head + texts(channels@.subrange(0, i as int)).map_values(
                    |c: Seq<char>| FrameModel::Bulk(encode_utf8(c)),
                ),
            ),
        decreases channels@.len() - i,
    {
        frame.push_bulk(text_bytes(channels[i].as_str()))?;
        assert(head + texts(channels@.subrange(0, i + 1)).map_values(
            |c: Seq<char>| FrameModel::Bulk(encode_utf8(c)),
        ) =~= (head + texts(channels@.subrange(0, i as int)).map_values(
            |c: Seq<char>| FrameModel::Bulk(encode_utf8(c)),
        )).push(FrameModel::Bulk(encode_utf8(channels@[i as int]@))));
        i = i + 1;
    }
    assert(channels@.subrange(0, channels@.len() as int) =~= channels@);
    Ok(frame)
}

/// `UNSUBSCRIBE [channel ...]`; no channel means every channel.
#[derive(Debug)]
pub struct Unsubscribe {
    channels: Vec<String>,
}

impl Unsubscribe {
    pub closed spec fn channels_view(&self) -> Seq<Seq<char>> {
        texts(self.channels@)
    }

    pub open spec fn model(&self) -> CommandModel {
        CommandModel::Unsubscribe(self.channels_view())
    }

    pub fn new(channels: &[String]) -> (r: Unsubscribe)
        ensures
            r.channels_view() == texts(channels@),
    {
        Unsubscribe { channels: copy_strings(channels) }
    }

    /// The channel names, in request order.
    pub fn channels(&self) -> (r: &Vec<String>)
        ensures
            texts(r@) == self.channels_view(),
    {
        &self.channels
    }

    /// Reads any number of channel names.
    pub fn parse_frame(parse: &mut Parse) -> (r: Result<Unsubscribe, ParseError>)
        ensures
            match unsubscribe_parse(old(parse).rest()) {
                Some((c, rest)) => r is Ok && r->Ok_0.model() == c && final(parse).rest() == rest,
                None => r is Err,
            },
    {
        let ghost fs = parse.rest();
        let mut channels: Vec<String> = Vec::new();
        read_strings(parse, &mut channels)?;
        proof {
            assert(texts(Seq::<String>::empty()) + strings_of(fs) =~= strings_of(fs));
            assert(parse.rest() =~= fs.subrange(0, 0));
        }
        Ok(Unsubscribe { channels })
    }

    /// The request frame: `["unsubscribe", channel, ...]`.
    pub fn into_frame(self) -> (r: Result<Frame, ParseError>)
        ensures
            r is Ok && r->Ok_0@ == FrameModel::Array(
                seq![FrameModel::Bulk(encode_utf8("unsubscribe"@))] + self.channels_view().map_values(
                    |c: Seq<char>| FrameModel::Bulk(encode_utf8(c)),
                ),
            ),
    {
        name_and_channels("unsubscribe", self.channels)
    }
}

/// The lowercase name of a command.
pub open spec fn name_of(c: CommandModel) -> Seq<char> {
    match c {
        CommandModel::Get(_) => "get"@,
        CommandModel::Ping(_) => "ping"@,
        CommandModel::Publish(_, _) => "publish"@,
        CommandModel::SetValue(_, _, _) => "set"@,
        CommandModel::Subscribe(_) => "subscribe"@,
        CommandModel::Unsubscribe(_) => "unsubscribe"@,
        CommandModel::Unknown(n) => n,
        CommandModel::Del(_) => "del"@,
    }
}

/// The reply to `GET key` on the entries `m`.
pub open spec fn get_reply(m: Map<Seq<char>, EntryModel>, key: Seq<char>) -> FrameModel {
    if m.contains_key(key) {
        FrameModel::Bulk(m[key].data)
    } else {
        FrameModel::Null
    }
}

/// A request, parsed.
#[derive(Debug)]
pub enum Command {
    Get(Get),
    Ping(Ping),
    Publish(Publish),
    SetValue(SetValue),
    Subscribe(Subscribe),
    Unsubscribe(Unsubscribe),
    Unknown(Unknown),
    Del(Del),
}

/// What applying a command asks of the connection.
#[derive(Debug)]
pub enum Applied {
    /// Send the frame; the flag says whether the purge task must be woken.
    Reply(Frame, bool),
    /// Enter subscriber mode on these channels.
    Subscribe(Vec<String>),
}

impl Command {
    pub open spec fn model(&self) -> CommandModel {
        match self {
            Command::Get(c) => c.model(),
            Command::Ping(c) => c.model(),
            Command::Publish(c) => c.model(),
            Command::SetValue(c) => c.model(),
            Command::Subscribe(c) => c.model(),
            Command::Unsubscribe(c) => c.model(),
            Command::Unknown(c) => c.model(),
            Command::Del(c) => c.model(),
        }
    }

    /// Reads a command from a request frame: an array whose first item is
    /// the command name, in any case, and whose other items are its fields.
    pub fn from_frame(frame: Frame) -> (r: Result<Command, ParseError>)
        ensures
            match command_of(frame@) {
                Some(c) => r is Ok && r->Ok_0.model() == c,
                None => r is Err,
            },
    {
        let ghost f = frame@;
        let mut parse = Parse::new(frame)?;
        let name = parse.next_string()?;
        let cmd_name = lowercase(name.as_str());
        let n = cmd_name.as_str();
        let cmd = if same_text(n, "get") {
            Command::Get(Get::parse_frame(&mut parse)?)
        } else if same_text(n, "ping") {
            Command::Ping(Ping::parse_frame(&mut parse)?)
        } else if same_text(n, "publish") {
            Command::Publish(Publish::parse_frame(&mut parse)?)
        } else if same_text(n, "set") {
            Command::SetValue(SetValue::parse_frame(&mut parse)?)
        } else if same_text(n, "subscribe") {
            Command::Subscribe(Subscribe::parse_frame(&mut parse)?)
        } else if same_text(n, "unsubscribe") {
            Command::Unsubscribe(Unsubscribe::parse_frame(&mut parse)?)
        } else if same_text(n, "del") {
            Command::Del(Del::parse_frame(&mut parse)?)
        } else {
            return Ok(Command::Unknown(Unknown::new(n)));
        };
        parse.finish()?;
        Ok(cmd)
    }

    /// The lowercase name of the command.
    pub fn get_name(&self) -> (r: &str)
        ensures
            r@ == name_of(self.model()),
    {
        match self {
            Command::Get(_) => "get",
            Command::Ping(_) => "ping",
            Command::Publish(_) => "publish",
            Command::SetValue(_) => "set",
            Command::Subscribe(_) => "subscribe",
            Command::Unsubscribe(_) => "unsubscribe",
            Command::Unknown(c) => c.get_name(),
            Command::Del(_) => "del",
        }
    }

    /// Applies a command read in normal mode. `SUBSCRIBE` hands its channels
    /// back to enter subscriber mode; `UNSUBSCRIBE` is refused here.
    pub fn apply(self, store: &mut Store, now: u64) -> (r: Result<Applied, ConnectionError>)
        requires
            old(store).wf(),
        ensures
            final(store).wf(),
            final(store).is_shut_down() == old(store).is_shut_down(),
            final(store).channels() == old(store).channels(),
            final(store).senders() == old(store).senders(),
            !(self.model() is Publish) ==> final(store).sent() == old(store).sent(),
            !(self.model() is SetValue) || old(store).next_id() == u64::MAX ==> final(store).next_id()
                == old(store).next_id(),
            match self.model() {
                CommandModel::Get(k) => r matches Ok(Applied::Reply(f, false)) && f@ == get_reply(
                    old(store).entries(),
                    k,
                ) && final(store).entries() == old(store).entries(),
                CommandModel::Ping(None) => r matches Ok(Applied::Reply(f, false)) && f@
                    == FrameModel::Simple("PONG"@) && final(store).entries() == old(store).entries(),
                CommandModel::Ping(Some(m)) => r matches Ok(Applied::Reply(f, false)) && f@
                    == FrameModel::Bulk(encode_utf8(m)) && final(store).entries() == old(
                    store,
                ).entries(),
                CommandModel::Publish(c, m) => r matches Ok(Applied::Reply(f, false))
                    && final(store).entries() == old(store).entries() && (!old(store).channels().contains(c)
                    ==> f@ == FrameModel::Integer(0) && final(store).sent() == old(store).sent()) && (
                old(store).channels().contains(c) ==> final(store).sent() == old(store).sent().insert(
                    c,
                    old(store).sent()[c].push((m, final(store).sent()[c].last().1)),
                ) && f@ == FrameModel::Integer(reported(final(store).sent()[c].last().1) as u64)),
                CommandModel::SetValue(k, v, ttl) => if old(store).next_id() < u64::MAX {
                    r matches Ok(Applied::Reply(f, _)) && f@ == FrameModel::Simple("OK"@)
                        && final(store).entries() == old(store).entries().insert(
                        k,
                        EntryModel {
                            id: old(store).next_id(),
                            data: v,
                            expires_at: match ttl {
                                Some(d) => Some(deadline(now, d)),
                                None => None,
                            },
                        },
                    )
                } else {
                    r is Err && final(store).entries() == old(store).entries()
                },
                CommandModel::Subscribe(cs) => r matches Ok(Applied::Subscribe(v)) && texts(v@) == cs
                    && final(store).entries() == old(store).entries(),
                CommandModel::Unsubscribe(_) => (r matches Err(ConnectionError::CommandExecute(_)))
                    && final(store).entries() == old(store).entries(),
                CommandModel::Unknown(n) => r matches Ok(Applied::Reply(f, false)) && f@
                    == FrameModel::Error(unknown_command_text(n)) && final(store).entries() == old(
                    store,
                ).entries(),
                CommandModel::Del(k) => r matches Ok(Applied::Reply(f, false)) && f@
                    == FrameModel::Integer(
                    if old(store).entries().contains_key(k) { 1 } else { 0 },
                ) && final(store).entries() == old(store).entries().remove(k),
            },
    {
        match self {
            Command::Get(c) => {
                let f = c.apply(store);
                Ok(Applied::Reply(f, false))
            },
            Command::Ping(c) => Ok(Applied::Reply(c.apply(), false)),
            Command::Publish(c) => {
                let f = c.apply(store);
                Ok(Applied::Reply(f, false))
            },
            Command::SetValue(c) => {
                if !store.can_write() {
                    return Err(ConnectionError::CommandExecute(String::from_str("no sequence number left for a write")));
                }
                let (f, notify) = c.apply(store, now);
                Ok(Applied::Reply(f, notify))
            },
            Command::Subscribe(c) => Ok(Applied::Subscribe(c.channels)),
            Command::Unsubscribe(_) => Err(
                ConnectionError::CommandExecute(
                    String::from_str("`Unsubscribe` is unsupported in this context"),
                ),
            ),
            Command::Unknown(c) => Ok(Applied::Reply(c.apply(), false)),
            Command::Del(c) => Ok(Applied::Reply(c.apply(store), false)),
        }
    }
}

/// An unknown command: a request whose first item is a string that, in
/// lower case, names none of the commands is read as that unknown command,
/// and its reply is the error that names it in lower case.
pub proof fn lemma_unknown_command(items: Seq<FrameModel>)
    requires
        items.len() > 0,
        string_field(items[0]) is Some,
        ({
            let n = lower_of(string_field(items[0])->Some_0);
            n != "get"@ && n != "ping"@ && n != "publish"@ && n != "set"@ && n != "subscribe"@ && n
                != "unsubscribe"@ && n != "del"@
        }),
    ensures
        command_of(FrameModel::Array(items)) == Some(
            CommandModel::Unknown(lower_of(string_field(items[0])->Some_0)),
        ),
        name_of(CommandModel::Unknown(lower_of(string_field(items[0])->Some_0))) == lower_of(
            string_field(items[0])->Some_0,
        ),
{
}

/// `SET k v`, then `GET k`: the reply to the read is `v` as a bulk, whatever
/// the store held before.
pub proof fn lemma_get_after_set(
    m: Map<Seq<char>, EntryModel>,
    key: Seq<char>,
    id: u64,
    value: Seq<u8>,
    expires_at: Option<u64>,
)
    ensures
        get_reply(m.insert(key, EntryModel { id, data: value, expires_at }), key)
            == FrameModel::Bulk(value),
{
}

/// `SET k v PX t` at time `now0`, then a purge at any time `now >= now0 + t`,
/// then `GET k`: the reply is null.
pub proof fn lemma_get_after_expiry(
    m: Map<Seq<char>, EntryModel>,
    key: Seq<char>,
    id: u64,
    value: Seq<u8>,
    now0: u64,
    t: u64,
    now: u64,
)
    requires
        now >= now0 + t,
    ensures
        get_reply(
            crate::store::unexpired(
                m.insert(key, EntryModel { id, data: value, expires_at: Some(deadline(now0, t)) }),
                now,
            ),
            key,
        ) == FrameModel::Null,
{
}

/// `DEL k`, then `GET k`: the reply is null.
pub proof fn lemma_get_after_del(m: Map<Seq<char>, EntryModel>, key: Seq<char>)
    ensures
        get_reply(m.remove(key), key) == FrameModel::Null,
{
}

} // verus!
