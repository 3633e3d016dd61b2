use mini_redis::cmd::{Applied, Command, Del, Get, Ping, Publish, SetValue, Subscribe, Unsubscribe};
use mini_redis::connection::Connection;
use mini_redis::frame::Frame;
use mini_redis::parse::Parse;
use mini_redis::store::Store;

/// Feeds request bytes to a connection, applies each command to the store
/// and gives back the reply bytes.
fn exchange(store: &mut Store, now: u64, request: &[u8]) -> Vec<u8> {
    let mut conn = Connection::new();
    conn.receive(request);
    while let Some(frame) = conn.parse_frame().unwrap() {
        let cmd = Command::from_frame(frame).unwrap();
        match cmd.apply(store, now).unwrap() {
            Applied::Reply(f, _) => conn.write_frame(&f).unwrap(),
            Applied::Subscribe(_) => panic!("unexpected subscribe"),
        }
    }
    conn.take_output()
}

fn request(parts: &[&[u8]]) -> Frame {
    Frame::Array(parts.iter().map(|p| Frame::Bulk(p.to_vec())).collect())
}

#[test]
fn scenario_get_missing_key() {
    let mut store = Store::new();
    assert_eq!(exchange(&mut store, 0, b"*2\r\n$3\r\nGET\r\n$5\r\nhello\r\n"), b"$-1\r\n".to_vec());
}

#[test]
fn scenario_set_then_get() {
    let mut store = Store::new();
    assert_eq!(
        exchange(&mut store, 0, b"*3\r\n$3\r\nSET\r\n$5\r\nhello\r\n$5\r\nworld\r\n"),
        b"+OK\r\n".to_vec()
    );
    assert_eq!(
        exchange(&mut store, 0, b"*2\r\n$3\r\nGET\r\n$5\r\nhello\r\n"),
        b"$5\r\nworld\r\n".to_vec()
    );
}

#[test]
fn scenario_set_with_ex_expires() {
    let mut store = Store::new();
    assert_eq!(
        exchange(&mut store, 0, b"*5\r\n$3\r\nSET\r\n$5\r\nhello\r\n$5\r\nworld\r\n+EX\r\n:1\r\n"),
        b"+OK\r\n".to_vec()
    );
    assert_eq!(
        exchange(&mut store, 500, b"*2\r\n$3\r\nGET\r\n$5\r\nhello\r\n"),
        b"$5\r\nworld\r\n".to_vec()
    );
    assert_eq!(store.purge_expired_keys(1000), None);
    assert_eq!(exchange(&mut store, 1000, b"*2\r\n$3\r\nGET\r\n$5\r\nhello\r\n"), b"$-1\r\n".to_vec());
}

#[test]
fn scenario_publish_without_subscribers() {
    let mut store = Store::new();
    assert_eq!(
        exchange(&mut store, 0, b"*3\r\n$7\r\nPUBLISH\r\n$5\r\nhello\r\n$5\r\nworld\r\n"),
        b":0\r\n".to_vec()
    );
}

#[test]
fn scenario_unknown_command() {
    let mut store = Store::new();
    assert_eq!(
        exchange(&mut store, 0, b"*2\r\n$3\r\nFOO\r\n$5\r\nhello\r\n"),
        b"-err unknown command 'foo'\r\n".to_vec()
    );
}

#[test]
fn unknown_command_is_lowercased() {
    let cmd = Command::from_frame(request(&[b"FlUsHaLl"])).unwrap();
    assert_eq!(cmd.get_name(), "flushall");
    match cmd.apply(&mut Store::new(), 0).unwrap() {
        Applied::Reply(f, _) => assert_eq!(f.to_text(), "error: err unknown command 'flushall'"),
        _ => panic!(),
    }
}

#[test]
fn command_names_in_any_case() {
    for name in [&b"get"[..], b"GET", b"Get"] {
        let cmd = Command::from_frame(request(&[name, b"k"])).unwrap();
        assert_eq!(cmd.get_name(), "get");
    }
}

#[test]
fn del_present_and_absent() {
    let mut store = Store::new();
    exchange(&mut store, 0, b"*3\r\n$3\r\nSET\r\n$5\r\nhello\r\n$5\r\nworld\r\n");
    assert_eq!(exchange(&mut store, 0, b"*2\r\n$3\r\nDEL\r\n$5\r\nhello\r\n"), b":1\r\n".to_vec());
    assert_eq!(exchange(&mut store, 0, b"*2\r\n$3\r\nGET\r\n$5\r\nhello\r\n"), b"$-1\r\n".to_vec());
    assert_eq!(exchange(&mut store, 0, b"*2\r\n$3\r\nDEL\r\n$5\r\nhello\r\n"), b":0\r\n".to_vec());
}

#[test]
fn ping_with_and_without_message() {
    let mut store = Store::new();
    assert_eq!(exchange(&mut store, 0, b"*1\r\n$4\r\nPING\r\n"), b"+PONG\r\n".to_vec());
    assert_eq!(exchange(&mut store, 0, b"*2\r\n$4\r\nping\r\n$2\r\nhi\r\n"), b"$2\r\nhi\r\n".to_vec());
}

#[test]
fn malformed_requests_are_errors() {
    assert!(Command::from_frame(Frame::Simple("GET".to_string())).is_err());
    assert!(Command::from_frame(Frame::Array(vec![])).is_err());
    assert!(Command::from_frame(request(&[b"get"])).is_err());
    assert!(Command::from_frame(request(&[b"get", b"a", b"b"])).is_err());
    assert!(Command::from_frame(request(&[b"set", b"k"])).is_err());
    assert!(Command::from_frame(request(&[b"set", b"k", b"v", b"NX"])).is_err());
    assert!(Command::from_frame(request(&[b"set", b"k", b"v", b"EX"])).is_err());
    assert!(Command::from_frame(request(&[b"set", b"k", b"v", b"EX", b"abc"])).is_err());
    assert!(Command::from_frame(request(&[b"subscribe"])).is_err());
    assert!(Command::from_frame(Frame::Array(vec![Frame::Bulk(b"get".to_vec()), Frame::Integer(1)])).is_err());
    assert!(Command::from_frame(Frame::Array(vec![Frame::Bulk(b"get".to_vec()), Frame::Bulk(vec![0xff])])).is_err());
}

#[test]
fn set_expiration_options() {
    let ex = Command::from_frame(request(&[b"set", b"k", b"v", b"ex", b"2"])).unwrap();
    match ex {
        Command::SetValue(s) => {
            assert_eq!(s.key(), "k");
            assert_eq!(s.value(), &b"v".to_vec());
            assert_eq!(s.expire(), Some(2000));
        }
        _ => panic!(),
    }
    let px = Command::from_frame(request(&[b"set", b"k", b"v", b"Px", b"15"])).unwrap();
    match px {
        Command::SetValue(s) => assert_eq!(s.expire(), Some(15)),
        _ => panic!(),
    }
    let huge = format!("{}", u64::MAX);
    match Command::from_frame(request(&[b"set", b"k", b"v", b"EX", huge.as_bytes()])).unwrap() {
        Command::SetValue(s) => assert_eq!(s.expire(), Some(u64::MAX)),
        _ => panic!(),
    }
    let zero = Command::from_frame(request(&[b"set", b"k", b"v", b"EX", b"0"])).unwrap();
    match zero {
        Command::SetValue(s) => assert_eq!(s.expire(), Some(0)),
        _ => panic!(),
    }
}

#[test]
fn unsubscribe_outside_subscriber_mode_is_refused() {
    let cmd = Command::from_frame(request(&[b"unsubscribe"])).unwrap();
    assert!(cmd.apply(&mut Store::new(), 0).is_err());
}

#[test]
fn subscribe_hands_channels_back() {
    let cmd = Command::from_frame(request(&[b"SUBSCRIBE", b"a", b"b"])).unwrap();
    match cmd.apply(&mut Store::new(), 0).unwrap() {
        Applied::Subscribe(v) => assert_eq!(v, vec!["a".to_string(), "b".to_string()]),
        _ => panic!(),
    }
}

#[test]
fn request_frames_of_commands() {
    assert_eq!(Get::new("hello").into_frame().unwrap().to_text(), "get hello");
    assert_eq!(Del::new("hello").into_frame().unwrap().to_text(), "del hello");
    assert_eq!(Ping::new(None).into_frame().unwrap().to_text(), "ping");
    assert_eq!(Ping::new(Some("hi".to_string())).into_frame().unwrap().to_text(), "ping hi");
    assert_eq!(Publish::new("ch", b"m".to_vec()).into_frame().unwrap().to_text(), "publish ch m");
    assert_eq!(SetValue::new("k", b"v".to_vec(), None).into_frame().unwrap().to_text(), "set k v");
    assert_eq!(SetValue::new("k", b"v".to_vec(), Some(100)).into_frame().unwrap().to_text(), "set k v px 100");
    let chans = vec!["a".to_string(), "b".to_string()];
    assert_eq!(Subscribe::new(&chans).into_frame().unwrap().to_text(), "subscribe a b");
    assert_eq!(Unsubscribe::new(&[]).into_frame().unwrap().to_text(), "unsubscribe");
    assert_eq!(Get::new("x").key(), "x");
    assert_eq!(Del::new("y").key(), "y");
}

#[test]
fn parse_cursor_fields() {
    let f = Frame::Array(vec![
        Frame::Simple("12".to_string()),
        Frame::Bulk(b"7 days".to_vec()),
        Frame::Integer(9),
        Frame::Null,
    ]);
    let mut p = Parse::new(f).unwrap();
    assert_eq!(p.next_int().unwrap(), 12);
    assert_eq!(p.next_int().unwrap(), 7);
    assert_eq!(p.next_bytes().is_err(), true);
    assert!(p.next_string().is_err());
    assert!(p.finish().is_ok());
    assert!(matches!(p.next_string(), Err(mini_redis::error::ParseError::EndOfStream)));
    assert!(Parse::new(Frame::Null).is_err());
}
