use mini_redis::connection::Connection;
use mini_redis::error::{ConnectionError, ParseError};
use mini_redis::frame::{get_decimal, get_line, get_u8, peek_u8, skip, Cursor, Frame};

fn encode(frame: &Frame) -> Vec<u8> {
    let mut conn = Connection::new();
    conn.write_frame(frame).unwrap();
    conn.take_output()
}

fn decode_all(bytes: &[u8]) -> Vec<Frame> {
    let mut conn = Connection::new();
    conn.receive(bytes);
    let mut out = Vec::new();
    while let Some(f) = conn.parse_frame().unwrap() {
        out.push(f);
    }
    assert!(conn.read_closed().unwrap().is_none());
    out
}

fn same(a: &Frame, b: &Frame) -> bool {
    format!("{:?}", a) == format!("{:?}", b)
}

#[test]
fn encodes_each_scalar() {
    assert_eq!(encode(&Frame::Simple("OK".to_string())), b"+OK\r\n".to_vec());
    assert_eq!(encode(&Frame::Error("err x".to_string())), b"-err x\r\n".to_vec());
    assert_eq!(encode(&Frame::Integer(0)), b":0\r\n".to_vec());
    assert_eq!(encode(&Frame::Integer(1234567890)), b":1234567890\r\n".to_vec());
    assert_eq!(encode(&Frame::Integer(u64::MAX)), b":18446744073709551615\r\n".to_vec());
    assert_eq!(encode(&Frame::Null), b"$-1\r\n".to_vec());
    assert_eq!(encode(&Frame::Bulk(b"world".to_vec())), b"$5\r\nworld\r\n".to_vec());
    assert_eq!(encode(&Frame::Bulk(Vec::new())), b"$0\r\n\r\n".to_vec());
}

#[test]
fn encodes_flat_array() {
    let f = Frame::Array(vec![
        Frame::Bulk(b"message".to_vec()),
        Frame::Bulk(b"hello".to_vec()),
        Frame::Bulk(b"world".to_vec()),
    ]);
    assert_eq!(encode(&f), b"*3\r\n$7\r\nmessage\r\n$5\r\nhello\r\n$5\r\nworld\r\n".to_vec());
}

#[test]
fn refuses_nested_array() {
    let mut conn = Connection::new();
    let f = Frame::Array(vec![Frame::Array(vec![])]);
    let r = conn.write_frame(&f);
    assert!(matches!(r, Err(ConnectionError::Parse(ParseError::Unimplemented))));
    assert!(conn.take_output().is_empty());
}

#[test]
fn round_trip_of_encodable_frames() {
    let frames = vec![
        Frame::Simple("PONG".to_string()),
        Frame::Error("err unknown command 'foo'".to_string()),
        Frame::Integer(42),
        Frame::Bulk(vec![0, 13, 10, 255]),
        Frame::Null,
        Frame::Array(vec![Frame::Bulk(b"subscribe".to_vec()), Frame::Integer(2), Frame::Null]),
        Frame::Simple("你好世界".to_string()),
    ];
    for f in &frames {
        let bytes = encode(f);
        let back = decode_all(&bytes);
        assert_eq!(back.len(), 1);
        assert!(same(&back[0], f), "{:?} came back as {:?}", f, back[0]);
    }
}

#[test]
fn stream_split_at_every_position() {
    let frames = vec![
        Frame::Array(vec![Frame::Bulk(b"SET".to_vec()), Frame::Bulk(b"hello".to_vec()), Frame::Bulk(b"world".to_vec())]),
        Frame::Integer(7),
        Frame::Simple("OK".to_string()),
    ];
    let mut stream = Vec::new();
    for f in &frames {
        stream.extend(encode(f));
    }
    for cut in 0..=stream.len() {
        let mut conn = Connection::new();
        let mut got = Vec::new();
        conn.receive(&stream[..cut]);
        while let Some(f) = conn.parse_frame().unwrap() {
            got.push(f);
        }
        conn.receive(&stream[cut..]);
        while let Some(f) = conn.parse_frame().unwrap() {
            got.push(f);
        }
        assert_eq!(got.len(), frames.len());
        for (a, b) in got.iter().zip(frames.iter()) {
            assert!(same(a, b));
        }
        assert!(conn.read_closed().unwrap().is_none());
    }
}

#[test]
fn partial_frame_waits_then_disconnects_at_eof() {
    let mut conn = Connection::new();
    conn.receive(b"$5\r\nwor");
    assert!(conn.parse_frame().unwrap().is_none());
    assert!(!conn.is_buffer_empty());
    assert!(matches!(conn.read_closed(), Err(ConnectionError::Disconnect)));
}

#[test]
fn nested_array_is_decoded() {
    let got = decode_all(b"*2\r\n*1\r\n:1\r\n+x\r\n");
    assert_eq!(got.len(), 1);
    let want = Frame::Array(vec![Frame::Array(vec![Frame::Integer(1)]), Frame::Simple("x".to_string())]);
    assert!(same(&got[0], &want));
}

#[test]
fn invalid_type_byte_is_an_error() {
    let mut conn = Connection::new();
    conn.receive(b"!oops\r\n");
    assert!(conn.parse_frame().is_err());
    let mut cur = Cursor::new(b"!oops\r\n");
    assert!(matches!(Frame::check(&mut cur), Err(ParseError::Parse(_))));
    let mut cur = Cursor::new(b"!oops\r\n");
    assert!(matches!(Frame::parse(&mut cur), Err(ParseError::Unimplemented)));
}

#[test]
fn invalid_decimal_is_an_error() {
    let mut cur = Cursor::new(b":abc\r\n");
    assert!(matches!(Frame::check(&mut cur), Err(ParseError::Parse(_))));
    let mut cur = Cursor::new(b":99999999999999999999\r\n");
    assert!(matches!(Frame::check(&mut cur), Err(ParseError::Parse(_))));
}

#[test]
fn decimal_reading_follows_leading_digits() {
    let mut cur = Cursor::new(b"+12abc\r\n");
    assert_eq!(get_decimal(&mut cur).unwrap(), 12);
    assert_eq!(cur.pos, 8);
    let mut cur = Cursor::new(b"-0\r\n");
    assert_eq!(get_decimal(&mut cur).unwrap(), 0);
    let mut cur = Cursor::new(b"-3\r\n");
    assert!(get_decimal(&mut cur).is_err());
    let mut cur = Cursor::new(b"18446744073709551615\r\n");
    assert_eq!(get_decimal(&mut cur).unwrap(), u64::MAX);
}

#[test]
fn invalid_utf8_simple_is_refused_by_parse_only() {
    let bytes = b"+\xff\xfe\r\n";
    let mut cur = Cursor::new(bytes);
    assert!(Frame::check(&mut cur).is_ok());
    assert_eq!(cur.pos, 5);
    let mut cur = Cursor::new(bytes);
    assert!(matches!(Frame::parse(&mut cur), Err(ParseError::Parse(_))));
}

#[test]
fn null_with_wrong_length_is_refused() {
    let mut cur = Cursor::new(b"$-2\r\n");
    assert!(matches!(Frame::check(&mut cur), Err(ParseError::Parse(_))));
    let mut cur = Cursor::new(b"$-xyz");
    assert!(matches!(Frame::check(&mut cur), Err(ParseError::Parse(_))));
    let mut cur = Cursor::new(b"$-1\r");
    assert!(matches!(Frame::check(&mut cur), Err(ParseError::Incomplete)));
    let mut cur = Cursor::new(b"$-2\r\n");
    assert!(Frame::parse(&mut cur).is_err());
    let mut conn = Connection::new();
    conn.receive(b"$-xyz");
    assert!(conn.parse_frame().is_err());
    assert!(!conn.is_buffer_empty());
}

#[test]
fn cursor_helpers() {
    let data = b"ab\r\ncd";
    let mut cur = Cursor::new(data);
    assert_eq!(peek_u8(&mut cur).unwrap(), b'a');
    assert_eq!(cur.pos, 0);
    assert_eq!(get_u8(&mut cur).unwrap(), b'a');
    assert_eq!(cur.pos, 1);
    assert_eq!(get_line(&mut cur).unwrap(), b"b");
    assert_eq!(cur.pos, 4);
    assert!(matches!(get_line(&mut cur), Err(ParseError::Incomplete)));
    assert_eq!(cur.pos, 4);
    assert!(matches!(skip(&mut cur, 3), Err(ParseError::Incomplete)));
    assert!(skip(&mut cur, 2).is_ok());
    assert_eq!(cur.pos, 6);
    assert!(matches!(get_u8(&mut cur), Err(ParseError::Incomplete)));
    assert!(matches!(peek_u8(&mut cur), Err(ParseError::Incomplete)));
}

#[test]
fn array_push_helpers() {
    let mut f = Frame::array();
    f.push_bulk(b"x".to_vec()).unwrap();
    f.push_int(3).unwrap();
    assert!(same(&f, &Frame::Array(vec![Frame::Bulk(b"x".to_vec()), Frame::Integer(3)])));
    let mut g = Frame::Null;
    assert!(matches!(g.push_bulk(vec![]), Err(ParseError::ParseArrayFrame)));
    assert!(matches!(g.push_int(1), Err(ParseError::ParseArrayFrame)));
}

#[test]
fn display_text_of_frames() {
    assert_eq!(Frame::Simple("OK".to_string()).to_text(), "OK");
    assert_eq!(Frame::Error("bad".to_string()).to_text(), "error: bad");
    assert_eq!(Frame::Integer(305).to_text(), "305");
    assert_eq!(Frame::Null.to_text(), "(nil)");
    assert_eq!(Frame::Bulk(b"world".to_vec()).to_text(), "world");
    assert_eq!(Frame::Bulk(vec![0xff, b'a']).to_text(), "b\"\\xffa\"");
    let arr = Frame::Array(vec![Frame::Bulk(b"a".to_vec()), Frame::Integer(1), Frame::Null]);
    assert_eq!(arr.to_text(), "a 1 (nil)");
}

#[test]
fn display_escapes_of_bytes() {
    let f = Frame::Bulk(vec![b'\n', b'"', 0, 0x7f, b'\\', b'\t', b'\r', 0xab]);
    assert_eq!(f.to_text(), "b\"\\n\\\"\\0\\x7f\\\\\\t\\r\\xab\"");
}
