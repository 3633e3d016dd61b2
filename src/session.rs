//! Subscriber mode of a connection: the channels it listens to, in the order
//! the message stream map keeps them, and the replies to the commands it
//! accepts there.
use vstd::prelude::*;
use vstd::utf8::encode_utf8;
use crate::cmd::{command_of, name_of, texts, unknown_command_text, Command, CommandModel, Unknown};
use crate::error::ParseError;
use crate::frame::{Frame, FrameModel};
use crate::text::same_text;

verus! {

/// No name occurs twice.
pub open spec fn unique(keys: Seq<Seq<char>>) -> bool {
    forall|i: int, j: int|
        0 <= i < keys.len() && 0 <= j < keys.len() && #[trigger] keys[i] == #[trigger] keys[j] ==> i == j
}

/// `keys` with `c` taken out: the last name moves into its place.
pub open spec fn without(keys: Seq<Seq<char>>, c: Seq<char>) -> Seq<Seq<char>> {
    if exists|i: int| 0 <= i < keys.len() && keys[i] == c {
        let i = choose|i: int| 0 <= i < keys.len() && keys[i] == c;
        keys.update(i, keys.last()).drop_last()
    } else {
        keys
    }
}

/// The acknowledgment of a subscription, with the number of channels held.
pub open spec fn subscribe_ack(c: Seq<char>, n: nat) -> FrameModel {
    FrameModel::Array(
        seq![
            FrameModel::Bulk(encode_utf8("subscribe"@)),
            FrameModel::Bulk(encode_utf8(c)),
            FrameModel::Integer(n as u64),
        ],
    )
}

/// The acknowledgment of an unsubscription, with the number of channels left.
pub open spec fn unsubscribe_ack(c: Seq<char>, n: nat) -> FrameModel {
    FrameModel::Array(
        seq![
            FrameModel::Bulk(encode_utf8("unsubscribe"@)),
            FrameModel::Bulk(encode_utf8(c)),
            FrameModel::Integer(n as u64),
        ],
    )
}

/// A message published on channel `c`.
pub open spec fn message_frame(c: Seq<char>, m: Seq<u8>) -> FrameModel {
    FrameModel::Array(
        seq![
            FrameModel::Bulk(encode_utf8("message"@)),
            FrameModel::Bulk(encode_utf8(c)),
            FrameModel::Bulk(m),
        ],
    )
}

/// Taking out a name that stands at `i`.
pub proof fn lemma_without(keys: Seq<Seq<char>>, c: Seq<char>, i: int)
    requires
        unique(keys),
        0 <= i < keys.len(),
        keys[i] == c,
    ensures
        without(keys, c) == keys.update(i, keys.last()).drop_last(),
        unique(without(keys, c)),
        !without(keys, c).contains(c),
        forall|x: Seq<char>| x != c ==> (without(keys, c).contains(x) <==> keys.contains(x)),
        without(keys, c).len() + 1 == keys.len(),
{
    let j = choose|j: int| 0 <= j < keys.len() && keys[j] == c;
    assert(keys[j] == keys[i]);
    let w = keys.update(i, keys.last()).drop_last();
    let n = keys.len() - 1;
    assert forall|a: int, b: int| 0 <= a < w.len() && 0 <= b < w.len() && #[trigger] w[a] == #[trigger] w[b]
        implies a == b by {
        let oa = if a == i { n } else { a };
        let ob = if b == i { n } else { b };
        assert(w[a] == keys[oa]);
        assert(w[b] == keys[ob]);
    }
    assert forall|x: Seq<char>| x != c implies (w.contains(x) <==> keys.contains(x)) by {
        if keys.contains(x) {
            let k = choose|k: int| 0 <= k < keys.len() && keys[k] == x;
            if k == n {
                assert(w[i] == x);
            } else {
                assert(w[k] == x);
            }
        }
        if w.contains(x) {
            let k = choose|k: int| 0 <= k < w.len() && w[k] == x;
            if k == i {
                assert(keys[n] == x);
            } else {
                assert(keys[k] == x);
            }
        }
    }
    if w.contains(c) {
        let k = choose|k: int| 0 <= k < w.len() && w[k] == c;
        if k == i {
            assert(keys[n] == c);
        } else {
            assert(keys[k] == c);
        }
    }
}

/// Taking out a name that is not there changes nothing.
pub proof fn lemma_without_absent(keys: Seq<Seq<char>>, c: Seq<char>)
    requires
        !keys.contains(c),
    ensures
        without(keys, c) == keys,
{
}

/// The channels held after subscribing to each of `cs` in turn.
pub open spec fn subscribe_all(keys: Seq<Seq<char>>, cs: Seq<Seq<char>>) -> Seq<Seq<char>>
    decreases cs.len(),
{
    if cs.len() == 0 {
        keys
    } else {
        let k = subscribe_all(keys, cs.drop_last());
        without(k, cs.last()).push(cs.last())
    }
}

/// The channels held after unsubscribing from each of `cs` in turn.
pub open spec fn unsubscribe_all(keys: Seq<Seq<char>>, cs: Seq<Seq<char>>) -> Seq<Seq<char>>
    decreases cs.len(),
{
    if cs.len() == 0 {
        keys
    } else {
        unsubscribe_all(without(keys, cs[0]), cs.drop_first())
    }
}

/// Subscribing to distinct channels that are not held yet, in request order:
/// after the one at index `i`, the channels held are the old ones followed by
/// the first `i + 1` requested, so its acknowledgment counts `|keys| + i + 1`.
pub proof fn lemma_subscribe_counts(keys: Seq<Seq<char>>, cs: Seq<Seq<char>>, i: int)
    requires
        unique(cs),
        forall|j: int| 0 <= j < cs.len() ==> !keys.contains(#[trigger] cs[j]),
        0 <= i < cs.len(),
    ensures
        subscribe_all(keys, cs.take(i + 1)) == keys + cs.take(i + 1),
        subscribe_all(keys, cs.take(i + 1)).len() == keys.len() + i + 1,
    decreases i,
{
    let prev = cs.take(i);
    assert(cs.take(i + 1).drop_last() =~= prev);
    assert(cs.take(i + 1).last() == cs[i]);
    if i == 0 {
        assert(subscribe_all(keys, prev) == keys);
        assert(keys =~= keys + prev);
    } else {
        lemma_subscribe_counts(keys, cs, i - 1);
        assert(cs.take(i - 1 + 1) =~= prev);
    }
    let k = keys + prev;
    assert(subscribe_all(keys, prev) == k);
    if k.contains(cs[i]) {
        let j = choose|j: int| 0 <= j < k.len() && k[j] == cs[i];
        if j < keys.len() {
            assert(keys[j] == cs[i]);
            assert(keys.contains(cs[i]));
        } else {
            assert(prev[j - keys.len()] == cs[j - keys.len()]);
        }
    }
    lemma_without_absent(k, cs[i]);
    assert(k.push(cs[i]) =~= keys + cs.take(i + 1));
}

/// Subscribing to each of `cs` in turn, in request order: the channels held
/// afterwards are those held before together with `cs`, each once, so the
/// count that acknowledges the last of them is the size of that union. For
/// the `i`-th channel of a request this applies to `cs.take(i + 1)`.
pub proof fn lemma_subscribe_union(keys: Seq<Seq<char>>, cs: Seq<Seq<char>>)
    requires
        unique(keys),
    ensures
        unique(subscribe_all(keys, cs)),
        subscribe_all(keys, cs).to_set() == keys.to_set().union(cs.to_set()),
        subscribe_all(keys, cs).len() == keys.to_set().union(cs.to_set()).len(),
    decreases cs.len(),
{
    let r = subscribe_all(keys, cs);
    if cs.len() == 0 {
        assert(cs.to_set() =~= Set::<Seq<char>>::empty());
        assert(r.to_set() =~= keys.to_set().union(cs.to_set()));
    } else {
        let front = cs.drop_last();
        let c = cs.last();
        lemma_subscribe_union(keys, front);
        let prev = subscribe_all(keys, front);
        let w = without(prev, c);
        if prev.contains(c) {
            let i = choose|i: int| 0 <= i < prev.len() && prev[i] == c;
            lemma_without(prev, c, i);
        } else {
            lemma_without_absent(prev, c);
        }
        assert(r == w.push(c));
        assert forall|a: int, b: int| 0 <= a < r.len() && 0 <= b < r.len() && #[trigger] r[a]
            == #[trigger] r[b] implies a == b by {
            if a < w.len() && b == w.len() {
                assert(w.contains(r[a]));
            } else if b < w.len() && a == w.len() {
                assert(w.contains(r[b]));
            } else if a < w.len() && b < w.len() {
                assert(r[a] == w[a] && r[b] == w[b]);
            }
        }
        assert forall|x: Seq<char>| r.contains(x) <==> (x == c || prev.contains(x)) by {
            if r.contains(x) {
                let k = choose|k: int| 0 <= k < r.len() && r[k] == x;
                if k < w.len() {
                    assert(w.contains(x));
                }
            }
            if x == c {
                assert(r[w.len() as int] == c);
            }
            if prev.contains(x) && x != c {
                assert(w.contains(x));
                let k = choose|k: int| 0 <= k < w.len() && w[k] == x;
                assert(r[k] == x);
            }
        }
        assert forall|x: Seq<char>| cs.contains(x) <==> (x == c || front.contains(x)) by {
            if cs.contains(x) {
                let k = choose|k: int| 0 <= k < cs.len() && cs[k] == x;
                if k < cs.len() - 1 {
                    assert(front[k] == x);
                }
            }
            if front.contains(x) {
                let k = choose|k: int| 0 <= k < front.len() && front[k] == x;
                assert(cs[k] == x);
            }
        }
        assert forall|x: Seq<char>| r.to_set().contains(x) <==> keys.to_set().union(cs.to_set()).contains(x) by {
            assert(prev.to_set().contains(x) == prev.contains(x));
            assert(keys.to_set().union(front.to_set()).contains(x) == (keys.contains(x) || front.contains(x)));
        }
        assert(r.to_set() =~= keys.to_set().union(cs.to_set()));
    }
    assert(r.no_duplicates());
    r.unique_seq_to_set();
}

/// Unsubscribing from every channel held, each once and in any order,
/// leaves no channel held.
pub proof fn lemma_unsubscribe_every_channel(keys: Seq<Seq<char>>, cs: Seq<Seq<char>>)
    requires
        unique(keys),
        unique(cs),
        forall|x: Seq<char>| keys.contains(x) <==> cs.contains(x),
    ensures
        unsubscribe_all(keys, cs).len() == 0,
    decreases cs.len(),
{
    if cs.len() == 0 {
        if keys.len() > 0 {
            assert(keys.contains(keys[0]));
        }
    } else {
        let c = cs[0];
        assert(cs.contains(c));
        let i = choose|i: int| 0 <= i < keys.len() && keys[i] == c;
        lemma_without(keys, c, i);
        let w = without(keys, c);
        let rest = cs.drop_first();
        assert forall|x: Seq<char>| w.contains(x) <==> rest.contains(x) by {
            if rest.contains(x) {
                let j = choose|j: int| 0 <= j < rest.len() && rest[j] == x;
                assert(cs[j + 1] == x);
                assert(x != c);
                assert(cs.contains(x));
            }
            if x != c && cs.contains(x) {
                let j = choose|j: int| 0 <= j < cs.len() && cs[j] == x;
                assert(j != 0);
                assert(rest[j - 1] == x);
            }
        }
        assert forall|a: int, b: int| 0 <= a < rest.len() && 0 <= b < rest.len() && #[trigger] rest[a]
            == #[trigger] rest[b] implies a == b by {
            assert(cs[a + 1] == cs[b + 1]);
        }
        lemma_unsubscribe_every_channel(w, rest);
    }
}

/// `UNSUBSCRIBE` with no channel: the channels it names are those held, in
/// order, and unsubscribing from each of them in turn leaves none held.
pub proof fn lemma_unsubscribe_all_held(keys: Seq<Seq<char>>)
    requires
        unique(keys),
    ensures
        unsubscribe_all(keys, keys).len() == 0,
{
    lemma_unsubscribe_every_channel(keys, keys);
}

/// The channels of a connection in subscriber mode.
pub struct Session {
    channels: Vec<String>,
}

/// What a command read in subscriber mode asks for.
#[derive(Debug)]
pub enum Step {
    /// Subscribe to these channels, in order.
    Subscribe(Vec<String>),
    /// Unsubscribe from these channels, in order.
    Unsubscribe(Vec<String>),
    /// Send this reply.
    Reply(Frame),
}

impl Session {
    /// The channel names, in order.
    pub closed spec fn keys(&self) -> Seq<Seq<char>> {
        texts(self.channels@)
    }

    pub open spec fn wf(&self) -> bool {
        unique(self.keys())
    }

    /// A session with no channel.
    pub fn new() -> (r: Session)
        ensures
            r.wf(),
            r.keys() == Seq::<Seq<char>>::empty(),
    {
        let r = Session { channels: Vec::new() };
        assert(r.keys() =~= Seq::<Seq<char>>::empty());
        r
    }

    /// The number of channels held.
    pub fn len(&self) -> (r: usize)
        ensures
            r == self.keys().len(),
    {
        self.channels.len()
    }

    /// The channel names, in order.
    pub fn channel_names(&self) -> (r: &Vec<String>)
        ensures
            texts(r@) == self.keys(),
    {
        &self.channels
    }

    fn find(&self, name: &str) -> (r: Option<usize>)
        ensures
            r matches Some(i) ==> i < self.keys().len() && self.keys()[i as int] == name@,
            r is None ==> !self.keys().contains(name@),
    {
        let mut i: usize = 0;
        while i < self.channels.len()
            invariant
                i <= self.channels@.len(),
                forall|j: int| 0 <= j < i ==> self.keys()[j] != name@,
            decreases self.channels@.len() - i,
        {
            if same_text(self.channels[i].as_str(), name) {
                return Some(i);
            }
            i = i + 1;
        }
        None
    }

    /// Takes out `name` as the message stream map does.
    fn take_out(&mut self, name: &str)
        requires
            old(self).wf(),
        ensures
            final(self).wf(),
            final(self).keys() == without(old(self).keys(), name@),
    {
        match self.find(name) {
            Some(i) => {
                let ghost k = self.keys();
                proof {
                    lemma_without(k, name@, i as int);
                }
                self.channels.swap_remove(i);
                assert(self.keys() =~= k.update(i as int, k.last()).drop_last());
            },
            None => {},
        }
    }

    /// Subscribes to `name`: a name held already moves to the end. The reply
    /// acknowledges it with the number of channels now held.
    pub fn subscribe_to_channel(&mut self, name: String) -> (r: Frame)
        requires
            old(self).wf(),
        ensures
            final(self).wf(),
            final(self).keys() == without(old(self).keys(), name@).push(name@),
            r@ == subscribe_ack(name@, final(self).keys().len()),
    {
        let ghost n = name@;
        self.take_out(name.as_str());
        proof {
            let k = self.keys();
            if k.contains(n) {
                let i = choose|i: int| 0 <= i < k.len() && k[i] == n;
            }
        }
        let reply_name = name.as_str().as_bytes_vec();
        self.channels.push(name);
        proof {
            assert(self.keys() =~= without(old(self).keys(), n).push(n));
        }
        let count = self.channels.len() as u64;
        let mut frame = Frame::array();
        let head = "subscribe".as_bytes_vec();
        let ghost items = seq![
            FrameModel::Bulk(head@),
            FrameModel::Bulk(reply_name@),
            FrameModel::Integer(count),
        ];
        frame.push_bulk(head).unwrap();
        frame.push_bulk(reply_name).unwrap();
        frame.push_int(count).unwrap();
        assert(frame@->Array_0 =~= items);
        frame
    }

    /// Unsubscribes from `name`, held or not. The reply acknowledges it with
    /// the number of channels left.
    pub fn unsubscribe_from_channel(&mut self, name: &str) -> (r: Frame)
        requires
            old(self).wf(),
        ensures
            final(self).wf(),
            final(self).keys() == without(old(self).keys(), name@),
            r@ == unsubscribe_ack(name@, final(self).keys().len()),
    {
        self.take_out(name);
        let count = self.channels.len() as u64;
        let mut frame = Frame::array();
        let head = "unsubscribe".as_bytes_vec();
        let reply_name = name.as_bytes_vec();
        let ghost items = seq![
            FrameModel::Bulk(head@),
            FrameModel::Bulk(reply_name@),
            FrameModel::Integer(count),
        ];
        frame.push_bulk(head).unwrap();
        frame.push_bulk(reply_name).unwrap();
        frame.push_int(count).unwrap();
        assert(frame@->Array_0 =~= items);
        frame
    }

    /// Decides what a frame read in subscriber mode asks for. Only
    /// `SUBSCRIBE` and `UNSUBSCRIBE` are served; any other command is answered
    /// as unknown. An `UNSUBSCRIBE` without channels means every channel held.
    pub fn handle_command(&self, frame: Frame) -> (r: Result<Step, ParseError>)
        ensures
            match command_of(frame@) {
                None => r is Err,
                Some(CommandModel::Subscribe(cs)) => r matches Ok(Step::Subscribe(v)) && texts(v@) == cs,
                Some(CommandModel::Unsubscribe(cs)) => r matches Ok(Step::Unsubscribe(v)) && texts(v@)
                    == if cs.len() == 0 { self.keys() } else { cs },
                Some(c) => r matches Ok(Step::Reply(f)) && f@ == FrameModel::Error(
                    unknown_command_text(name_of(c)),
                ),
            },
    {
        match Command::from_frame(frame)? {
            Command::Subscribe(c) => {
                let v = crate::cmd::copy_strings(c.channels().as_slice());
                Ok(Step::Subscribe(v))
            },
            Command::Unsubscribe(c) => {
                if c.channels().len() == 0 {
                    Ok(Step::Unsubscribe(crate::cmd::copy_strings(self.channels.as_slice())))
                } else {
                    Ok(Step::Unsubscribe(crate::cmd::copy_strings(c.channels().as_slice())))
                }
            },
            command => {
                let cmd = Unknown::new(command.get_name());
                Ok(Step::Reply(cmd.apply()))
            },
        }
    }
}

/// The frame that carries a message published on `channel`.
pub fn make_message_frame(channel: &str, msg: Vec<u8>) -> (r: Frame)
    ensures
        r@ == message_frame(channel@, msg@),
{
    let mut frame = Frame::array();
    let head = "message".as_bytes_vec();
    let name = channel.as_bytes_vec();
    let ghost items = seq![FrameModel::Bulk(head@), FrameModel::Bulk(name@), FrameModel::Bulk(msg@)];
    frame.push_bulk(head).unwrap();
    frame.push_bulk(name).unwrap();
    frame.push_bulk(msg).unwrap();
    assert(frame@->Array_0 =~= items);
    frame
}

} // verus!
