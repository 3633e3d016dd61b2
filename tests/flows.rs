use mini_redis::client::{
    check_subscribe_ack, get_value_reply, integer_reply, message_of, ping_reply, read_response,
    set_reply, Subscriptions,
};
use mini_redis::cmd::{Applied, Command, Del, Get, Ping, Publish, SetValue, Subscribe, Unsubscribe};
use mini_redis::connection::Connection;
use mini_redis::frame::Frame;
use mini_redis::session::{make_message_frame, Session, Step};
use mini_redis::store::Store;
use tokio::sync::broadcast::Receiver;

/// The server side of one connection, driven by hand.
struct Peer {
    conn: Connection,
    session: Option<Session>,
    streams: Vec<(String, Receiver<Vec<u8>>)>,
}

impl Peer {
    fn new() -> Peer {
        Peer { conn: Connection::new(), session: None, streams: Vec::new() }
    }

    fn subscribe(&mut self, store: &mut Store, channel: String) {
        if let Some(i) = self.streams.iter().position(|(c, _)| *c == channel) {
            self.streams.swap_remove(i);
        }
        self.streams.push((channel.clone(), store.subscribe(channel.clone())));
        let ack = self.session.as_mut().unwrap().subscribe_to_channel(channel);
        self.conn.write_frame(&ack).unwrap();
    }

    /// Handles the request bytes and gives back the reply bytes.
    fn send(&mut self, store: &mut Store, now: u64, bytes: &[u8]) -> Vec<u8> {
        self.conn.receive(bytes);
        while let Some(frame) = self.conn.parse_frame().unwrap() {
            if self.session.is_none() {
                match Command::from_frame(frame).unwrap().apply(store, now).unwrap() {
                    Applied::Reply(f, _) => self.conn.write_frame(&f).unwrap(),
                    Applied::Subscribe(channels) => {
                        self.session = Some(Session::new());
                        for c in channels {
                            self.subscribe(store, c);
                        }
                    }
                }
            } else {
                let step = self.session.as_ref().unwrap().handle_command(frame).unwrap();
                match step {
                    Step::Subscribe(channels) => {
                        for c in channels {
                            self.subscribe(store, c);
                        }
                    }
                    Step::Unsubscribe(channels) => {
                        for c in channels {
                            if let Some(i) = self.streams.iter().position(|(n, _)| *n == c) {
                                self.streams.swap_remove(i);
                            }
                            let ack = self.session.as_mut().unwrap().unsubscribe_from_channel(&c);
                            self.conn.write_frame(&ack).unwrap();
                        }
                    }
                    Step::Reply(f) => self.conn.write_frame(&f).unwrap(),
                }
            }
        }
        self.conn.take_output()
    }

    /// The message frames waiting for this subscriber.
    fn deliveries(&mut self) -> Vec<u8> {
        for (channel, rx) in self.streams.iter_mut() {
            while let Ok(msg) = rx.try_recv() {
                self.conn.write_frame(&make_message_frame(channel, msg)).unwrap();
            }
        }
        self.conn.take_output()
    }
}

fn encode(frame: &Frame) -> Vec<u8> {
    let mut c = Connection::new();
    c.write_frame(frame).unwrap();
    c.take_output()
}

fn decode(bytes: &[u8]) -> Vec<Frame> {
    let mut c = Connection::new();
    c.receive(bytes);
    let mut out = Vec::new();
    while let Some(f) = c.parse_frame().unwrap() {
        out.push(f);
    }
    out
}

/// One request and its single reply, as the client sees it.
fn call(store: &mut Store, peer: &mut Peer, request: Frame) -> Frame {
    let replies = decode(&peer.send(store, 0, &encode(&request)));
    assert_eq!(replies.len(), 1);
    read_response(replies.into_iter().next()).unwrap()
}

fn subscribe_client(store: &mut Store, peer: &mut Peer, channels: &[String]) -> Subscriptions {
    let replies = decode(&peer.send(store, 0, &encode(&Subscribe::new(channels).into_frame().unwrap())));
    assert_eq!(replies.len(), channels.len());
    for (reply, channel) in replies.iter().zip(channels) {
        check_subscribe_ack(reply, channel).unwrap();
    }
    Subscriptions::new(channels.to_vec())
}

#[test]
fn ping_pong_without_message() {
    let mut store = Store::new();
    let mut peer = Peer::new();
    let reply = call(&mut store, &mut peer, Ping::new(None).into_frame().unwrap());
    assert_eq!(b"PONG".to_vec(), ping_reply(reply).unwrap());
}

#[test]
fn ping_pong_with_message() {
    let mut store = Store::new();
    let mut peer = Peer::new();
    let reply = call(&mut store, &mut peer, Ping::new(Some("你好世界".to_string())).into_frame().unwrap());
    assert_eq!("你好世界".as_bytes().to_vec(), ping_reply(reply).unwrap());
}

#[test]
fn client_key_value_get_set() {
    let mut store = Store::new();
    let mut peer = Peer::new();
    let reply = call(&mut store, &mut peer, SetValue::new("hello", b"world".to_vec(), None).into_frame().unwrap());
    set_reply(reply).unwrap();
    let reply = call(&mut store, &mut peer, Get::new("hello").into_frame().unwrap());
    assert_eq!(Some(b"world".to_vec()), get_value_reply(reply).unwrap());
}

#[test]
fn receive_message_subscribed_channel() {
    let mut store = Store::new();
    let mut sub = Peer::new();
    subscribe_client(&mut store, &mut sub, &["hello".to_string()]);
    let mut publisher = Peer::new();
    let reply = call(&mut store, &mut publisher, Publish::new("hello", b"world".to_vec()).into_frame().unwrap());
    integer_reply(reply).unwrap();
    let frames = decode(&sub.deliveries());
    let message = message_of(frames.into_iter().next().unwrap()).unwrap();
    assert_eq!("hello", &message.channel);
    assert_eq!(b"world".to_vec(), message.content);
}

#[test]
fn receive_message_multiple_subscribed_channels() {
    let mut store = Store::new();
    let mut sub = Peer::new();
    subscribe_client(&mut store, &mut sub, &["hello".to_string(), "world".to_string()]);
    let mut publisher = Peer::new();
    call(&mut store, &mut publisher, Publish::new("hello", b"world".to_vec()).into_frame().unwrap());
    let message1 = message_of(decode(&sub.deliveries()).remove(0)).unwrap();
    assert_eq!("hello", &message1.channel);
    assert_eq!(b"world".to_vec(), message1.content);
    call(&mut store, &mut publisher, Publish::new("world", b"howdy?".to_vec()).into_frame().unwrap());
    let message2 = message_of(decode(&sub.deliveries()).remove(0)).unwrap();
    assert_eq!("world", &message2.channel);
    assert_eq!(b"howdy?".to_vec(), message2.content);
}

#[test]
fn unsubscribes_from_channels() {
    let mut store = Store::new();
    let mut sub = Peer::new();
    let mut subscribed = subscribe_client(&mut store, &mut sub, &["hello".to_string(), "world".to_string()]);
    let replies = decode(&sub.send(&mut store, 0, &encode(&Unsubscribe::new(&[]).into_frame().unwrap())));
    assert_eq!(replies.len(), subscribed.acks_expected(0));
    for reply in &replies {
        subscribed.apply_unsubscribe_ack(reply).unwrap();
    }
    assert_eq!(subscribed.get_subscribed().len(), 0);
}

#[test]
fn test_del_command() {
    let mut store = Store::new();
    let mut peer = Peer::new();
    call(&mut store, &mut peer, SetValue::new("hello", b"world".to_vec(), None).into_frame().unwrap());
    let deleted_count = integer_reply(call(&mut store, &mut peer, Del::new("hello").into_frame().unwrap())).unwrap();
    assert_eq!(deleted_count, 1);
    let after = get_value_reply(call(&mut store, &mut peer, Get::new("hello").into_frame().unwrap())).unwrap();
    assert_eq!(after, None);
}

#[test]
fn server_key_value_get_set() {
    let mut store = Store::new();
    let mut peer = Peer::new();
    assert_eq!(b"$-1\r\n".to_vec(), peer.send(&mut store, 0, b"*2\r\n$3\r\nGET\r\n$5\r\nhello\r\n"));
    assert_eq!(b"+OK\r\n".to_vec(), peer.send(&mut store, 0, b"*3\r\n$3\r\nSET\r\n$5\r\nhello\r\n$5\r\nworld\r\n"));
    assert_eq!(b"$5\r\nworld\r\n".to_vec(), peer.send(&mut store, 0, b"*2\r\n$3\r\nGET\r\n$5\r\nhello\r\n"));
    assert!(peer.conn.read_closed().unwrap().is_none());
}

#[test]
fn key_value_timeout() {
    let mut store = Store::new();
    let mut peer = Peer::new();
    assert_eq!(
        b"+OK\r\n".to_vec(),
        peer.send(&mut store, 0, b"*5\r\n$3\r\nSET\r\n$5\r\nhello\r\n$5\r\nworld\r\n+EX\r\n:1\r\n")
    );
    assert_eq!(b"$5\r\nworld\r\n".to_vec(), peer.send(&mut store, 0, b"*2\r\n$3\r\nGET\r\n$5\r\nhello\r\n"));
    store.purge_expired_keys(1000);
    assert_eq!(b"$-1\r\n".to_vec(), peer.send(&mut store, 1000, b"*2\r\n$3\r\nGET\r\n$5\r\nhello\r\n"));
}

#[test]
fn pub_sub() {
    let mut store = Store::new();
    let mut publisher = Peer::new();
    let mut sub1 = Peer::new();
    let mut sub2 = Peer::new();
    assert_eq!(
        b":0\r\n".to_vec(),
        publisher.send(&mut store, 0, b"*3\r\n$7\r\nPUBLISH\r\n$5\r\nhello\r\n$5\r\nworld\r\n")
    );
    assert_eq!(
        b"*3\r\n$9\r\nsubscribe\r\n$5\r\nhello\r\n:1\r\n".to_vec(),
        sub1.send(&mut store, 0, b"*2\r\n$9\r\nSUBSCRIBE\r\n$5\r\nhello\r\n")
    );
    assert_eq!(
        b":1\r\n".to_vec(),
        publisher.send(&mut store, 0, b"*3\r\n$7\r\nPUBLISH\r\n$5\r\nhello\r\n$5\r\nworld\r\n")
    );
    assert_eq!(b"*3\r\n$7\r\nmessage\r\n$5\r\nhello\r\n$5\r\nworld\r\n".to_vec(), sub1.deliveries());
    assert_eq!(
        b"*3\r\n$9\r\nsubscribe\r\n$5\r\nhello\r\n:1\r\n*3\r\n$9\r\nsubscribe\r\n$3\r\nfoo\r\n:2\r\n".to_vec(),
        sub2.send(&mut store, 0, b"*3\r\n$9\r\nSUBSCRIBE\r\n$5\r\nhello\r\n$3\r\nfoo\r\n")
    );
    assert_eq!(
        b":2\r\n".to_vec(),
        publisher.send(&mut store, 0, b"*3\r\n$7\r\nPUBLISH\r\n$5\r\nhello\r\n$5\r\njazzy\r\n")
    );
    assert_eq!(
        b":1\r\n".to_vec(),
        publisher.send(&mut store, 0, b"*3\r\n$7\r\nPUBLISH\r\n$3\r\nfoo\r\n$3\r\nbar\r\n")
    );
    assert_eq!(b"*3\r\n$7\r\nmessage\r\n$5\r\nhello\r\n$5\r\njazzy\r\n".to_vec(), sub1.deliveries());
    assert!(sub1.deliveries().is_empty());
    assert_eq!(
        b"*3\r\n$7\r\nmessage\r\n$5\r\nhello\r\n$5\r\njazzy\r\n*3\r\n$7\r\nmessage\r\n$3\r\nfoo\r\n$3\r\nbar\r\n".to_vec(),
        sub2.deliveries()
    );
}

#[test]
fn manage_subscription() {
    let mut store = Store::new();
    let mut publisher = Peer::new();
    let mut sub = Peer::new();
    assert_eq!(
        b"*3\r\n$9\r\nsubscribe\r\n$5\r\nhello\r\n:1\r\n".to_vec(),
        sub.send(&mut store, 0, b"*2\r\n$9\r\nSUBSCRIBE\r\n$5\r\nhello\r\n")
    );
    assert_eq!(
        b"*3\r\n$9\r\nsubscribe\r\n$3\r\nfoo\r\n:2\r\n".to_vec(),
        sub.send(&mut store, 0, b"*2\r\n$9\r\nSUBSCRIBE\r\n$3\r\nfoo\r\n")
    );
    assert_eq!(
        b"*3\r\n$11\r\nunsubscribe\r\n$5\r\nhello\r\n:1\r\n".to_vec(),
        sub.send(&mut store, 0, b"*2\r\n$11\r\nUNSUBSCRIBE\r\n$5\r\nhello\r\n")
    );
    assert_eq!(
        b":0\r\n".to_vec(),
        publisher.send(&mut store, 0, b"*3\r\n$7\r\nPUBLISH\r\n$5\r\nhello\r\n$5\r\nworld\r\n")
    );
    assert_eq!(
        b":1\r\n".to_vec(),
        publisher.send(&mut store, 0, b"*3\r\n$7\r\nPUBLISH\r\n$3\r\nfoo\r\n$3\r\nbar\r\n")
    );
    assert_eq!(b"*3\r\n$7\r\nmessage\r\n$3\r\nfoo\r\n$3\r\nbar\r\n".to_vec(), sub.deliveries());
    assert!(sub.deliveries().is_empty());
    assert_eq!(
        b"*3\r\n$11\r\nunsubscribe\r\n$3\r\nfoo\r\n:0\r\n".to_vec(),
        sub.send(&mut store, 0, b"*1\r\n$11\r\nunsubscribe\r\n")
    );
}

#[test]
fn send_error_unknown_command() {
    let mut store = Store::new();
    let mut peer = Peer::new();
    assert_eq!(
        b"-err unknown command 'foo'\r\n".to_vec(),
        peer.send(&mut store, 0, b"*2\r\n$3\r\nFOO\r\n$5\r\nhello\r\n")
    );
}

#[test]
fn send_error_get_set_after_subscribe() {
    let mut store = Store::new();
    let mut peer = Peer::new();
    assert_eq!(
        b"*3\r\n$9\r\nsubscribe\r\n$5\r\nhello\r\n:1\r\n".to_vec(),
        peer.send(&mut store, 0, b"*2\r\n$9\r\nsubscribe\r\n$5\r\nhello\r\n")
    );
    assert_eq!(
        b"-err unknown command 'set'\r\n".to_vec(),
        peer.send(&mut store, 0, b"*3\r\n$3\r\nSET\r\n$5\r\nhello\r\n$5\r\nworld\r\n")
    );
    assert_eq!(
        b"-err unknown command 'get'\r\n".to_vec(),
        peer.send(&mut store, 0, b"*2\r\n$3\r\nGET\r\n$5\r\nhello\r\n")
    );
}
