use mini_redis::client::{
    duration_from_ms_str, check_subscribe_ack, frame_is_text, get_value_reply, integer_reply, message_of,
    ping_reply, read_response, set_reply, Subscriptions,
};
use mini_redis::error::ConnectionError;
use mini_redis::listener::accept_backoff;
use mini_redis::frame::Frame;

fn bulk(s: &str) -> Frame {
    Frame::Bulk(s.as_bytes().to_vec())
}

#[test]
fn responses_map_errors() {
    assert!(matches!(read_response(None), Err(ConnectionError::Disconnect)));
    match read_response(Some(Frame::Error("boom".to_string()))) {
        Err(ConnectionError::CommandExecute(m)) => assert_eq!(m, "boom"),
        _ => panic!(),
    }
    assert!(read_response(Some(Frame::Integer(1))).is_ok());
}

#[test]
fn ping_and_get_replies() {
    assert_eq!(ping_reply(Frame::Simple("PONG".to_string())).unwrap(), b"PONG".to_vec());
    assert_eq!(ping_reply(bulk("你好世界")).unwrap(), "你好世界".as_bytes().to_vec());
    assert!(matches!(ping_reply(Frame::Integer(3)), Err(ConnectionError::CommandExecute(m)) if m == "3"));
    assert_eq!(get_value_reply(bulk("world")).unwrap(), Some(b"world".to_vec()));
    assert_eq!(get_value_reply(Frame::Null).unwrap(), None);
    assert!(get_value_reply(Frame::Integer(1)).is_err());
}

#[test]
fn set_publish_del_replies() {
    assert!(set_reply(Frame::Simple("OK".to_string())).is_ok());
    assert!(matches!(set_reply(Frame::Simple("NO".to_string())), Err(ConnectionError::CommandExecute(m)) if m == "NO"));
    assert_eq!(integer_reply(Frame::Integer(2)).unwrap(), 2);
    assert!(integer_reply(Frame::Null).is_err());
}

#[test]
fn subscribe_ack_checks() {
    let ack = Frame::Array(vec![bulk("subscribe"), bulk("hello"), Frame::Integer(1)]);
    assert!(check_subscribe_ack(&ack, "hello").is_ok());
    assert!(matches!(check_subscribe_ack(&ack, "other"), Err(ConnectionError::CommandExecute(_))));
    assert!(matches!(check_subscribe_ack(&Frame::Null, "hello"), Err(ConnectionError::InvalidFrameType)));
}

#[test]
fn messages_are_read() {
    let f = Frame::Array(vec![bulk("message"), bulk("hello"), bulk("world")]);
    let m = message_of(f).unwrap();
    assert_eq!(m.channel, "hello");
    assert_eq!(m.content, b"world".to_vec());
    let bad = Frame::Array(vec![bulk("other"), bulk("hello"), bulk("world")]);
    assert!(matches!(message_of(bad), Err(ConnectionError::InvalidFrameType)));
    assert!(matches!(message_of(Frame::Integer(1)), Err(ConnectionError::CommandExecute(_))));
}

#[test]
fn unsubscribe_acks_update_the_list() {
    let mut subs = Subscriptions::new(vec!["hello".to_string(), "foo".to_string()]);
    subs.extend(&["bar".to_string()]);
    assert_eq!(subs.get_subscribed().len(), 3);
    assert_eq!(subs.acks_expected(0), 3);
    assert_eq!(subs.acks_expected(1), 1);
    let ack = Frame::Array(vec![bulk("unsubscribe"), bulk("foo"), Frame::Integer(2)]);
    assert!(subs.apply_unsubscribe_ack(&ack).is_ok());
    assert_eq!(subs.get_subscribed(), &["hello".to_string(), "bar".to_string()]);
    assert!(matches!(subs.apply_unsubscribe_ack(&ack), Err(ConnectionError::CommandExecute(_))));
    let wrong = Frame::Array(vec![bulk("subscribe"), bulk("foo")]);
    assert!(matches!(subs.apply_unsubscribe_ack(&wrong), Err(ConnectionError::InvalidFrameType)));
    let mut none = Subscriptions::new(vec![]);
    assert!(matches!(none.apply_unsubscribe_ack(&ack), Err(ConnectionError::InvalidArgument(_))));
}

#[test]
fn text_comparison_of_frames() {
    assert!(frame_is_text(&Frame::Simple("a".to_string()), "a"));
    assert!(frame_is_text(&bulk("a"), "a"));
    assert!(!frame_is_text(&bulk("ab"), "a"));
    assert!(!frame_is_text(&Frame::Integer(1), "1"));
}

#[test]
fn backoff_doubles_then_gives_up() {
    let mut backoff = 1;
    let mut waits = Vec::new();
    while let Some((wait, next)) = accept_backoff(backoff) {
        waits.push(wait);
        backoff = next;
    }
    assert_eq!(waits, vec![1, 2, 4, 8, 16, 32, 64]);
    assert_eq!(backoff, 128);
}

#[test]
fn milliseconds_from_text() {
    assert_eq!(duration_from_ms_str("1500"), Some(1500));
    assert_eq!(duration_from_ms_str("+7"), Some(7));
    assert_eq!(duration_from_ms_str(""), None);
    assert_eq!(duration_from_ms_str("12ms"), None);
    assert_eq!(duration_from_ms_str("-1"), None);
    assert_eq!(duration_from_ms_str("18446744073709551616"), None);
}

#[test]
fn message_payload_keeps_its_bytes() {
    let f = Frame::Array(vec![bulk("message"), bulk("hello"), Frame::Bulk(vec![0xff, 0x00, b'a'])]);
    let m = message_of(f).unwrap();
    assert_eq!(m.content, vec![0xff, 0x00, b'a']);
}
