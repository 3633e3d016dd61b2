use mini_redis::frame::Frame;
use mini_redis::session::{make_message_frame, Session, Step};

fn request(parts: &[&[u8]]) -> Frame {
    Frame::Array(parts.iter().map(|p| Frame::Bulk(p.to_vec())).collect())
}

#[test]
fn subscribe_acks_count_channels() {
    let mut s = Session::new();
    assert_eq!(s.subscribe_to_channel("hello".to_string()).to_text(), "subscribe hello 1");
    assert_eq!(s.subscribe_to_channel("foo".to_string()).to_text(), "subscribe foo 2");
    assert_eq!(s.subscribe_to_channel("hello".to_string()).to_text(), "subscribe hello 2");
    assert_eq!(s.channel_names(), &vec!["foo".to_string(), "hello".to_string()]);
}

#[test]
fn unsubscribe_acks_count_channels_left() {
    let mut s = Session::new();
    s.subscribe_to_channel("hello".to_string());
    s.subscribe_to_channel("foo".to_string());
    assert_eq!(s.unsubscribe_from_channel("hello").to_text(), "unsubscribe hello 1");
    assert_eq!(s.unsubscribe_from_channel("nope").to_text(), "unsubscribe nope 1");
    assert_eq!(s.unsubscribe_from_channel("foo").to_text(), "unsubscribe foo 0");
    assert_eq!(s.len(), 0);
}

#[test]
fn empty_unsubscribe_names_every_channel() {
    let mut s = Session::new();
    s.subscribe_to_channel("a".to_string());
    s.subscribe_to_channel("b".to_string());
    s.subscribe_to_channel("c".to_string());
    s.unsubscribe_from_channel("a");
    match s.handle_command(request(&[b"UNSUBSCRIBE"])).unwrap() {
        Step::Unsubscribe(v) => {
            assert_eq!(v, vec!["c".to_string(), "b".to_string()]);
            for c in &v {
                s.unsubscribe_from_channel(c);
            }
            assert_eq!(s.len(), 0);
        }
        _ => panic!(),
    }
}

#[test]
fn subscriber_mode_accepts_only_subscription_commands() {
    let s = Session::new();
    match s.handle_command(request(&[b"SET", b"hello", b"world"])).unwrap() {
        Step::Reply(f) => assert_eq!(f.to_text(), "error: err unknown command 'set'"),
        _ => panic!(),
    }
    match s.handle_command(request(&[b"GET", b"hello"])).unwrap() {
        Step::Reply(f) => assert_eq!(f.to_text(), "error: err unknown command 'get'"),
        _ => panic!(),
    }
    match s.handle_command(request(&[b"ping"])).unwrap() {
        Step::Reply(f) => assert_eq!(f.to_text(), "error: err unknown command 'ping'"),
        _ => panic!(),
    }
    match s.handle_command(request(&[b"subscribe", b"x", b"y"])).unwrap() {
        Step::Subscribe(v) => assert_eq!(v, vec!["x".to_string(), "y".to_string()]),
        _ => panic!(),
    }
    match s.handle_command(request(&[b"unsubscribe", b"x"])).unwrap() {
        Step::Unsubscribe(v) => assert_eq!(v, vec!["x".to_string()]),
        _ => panic!(),
    }
    assert!(s.handle_command(Frame::Null).is_err());
}

#[test]
fn message_frame_bytes() {
    let f = make_message_frame("hello", b"world".to_vec());
    let mut conn = mini_redis::connection::Connection::new();
    conn.write_frame(&f).unwrap();
    assert_eq!(conn.take_output(), b"*3\r\n$7\r\nmessage\r\n$5\r\nhello\r\n$5\r\nworld\r\n".to_vec());
}

#[test]
fn subscribe_count_is_size_of_union() {
    let mut s = Session::new();
    s.subscribe_to_channel("a".to_string());
    s.subscribe_to_channel("b".to_string());
    let acks: Vec<String> = ["b", "c", "a", "d"]
        .iter()
        .map(|c| s.subscribe_to_channel(c.to_string()).to_text())
        .collect();
    assert_eq!(acks, vec!["subscribe b 2", "subscribe c 3", "subscribe a 3", "subscribe d 4"]);
}
