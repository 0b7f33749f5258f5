use kvs::resp::{to_string, to_writer, write_bytes, write_i64, write_seq, write_str};
use kvs::{Resp, RespError};

fn text(value: &Resp) -> String {
    to_string(value).unwrap()
}

#[test]
fn resp_simple_string_and_error() {
    assert_eq!(text(&Resp::SimpleString("OK".to_string())), "+OK\r\n");
    assert_eq!(text(&Resp::SimpleString(String::new())), "+\r\n");
    assert_eq!(text(&Resp::Error("ERR unknown command".to_string())), "-ERR unknown command\r\n");
    assert_eq!(text(&Resp::SimpleString("grüß".to_string())), "+grüß\r\n");
}

#[test]
fn resp_integers_are_decimal() {
    assert_eq!(text(&Resp::Integer(0)), ":0\r\n");
    assert_eq!(text(&Resp::Integer(7)), ":7\r\n");
    assert_eq!(text(&Resp::Integer(10)), ":10\r\n");
    assert_eq!(text(&Resp::Integer(1000)), ":1000\r\n");
    assert_eq!(text(&Resp::Integer(-1)), ":-1\r\n");
    assert_eq!(text(&Resp::Integer(-120)), ":-120\r\n");
    assert_eq!(text(&Resp::Integer(i64::MAX)), ":9223372036854775807\r\n");
    assert_eq!(text(&Resp::Integer(i64::MIN)), ":-9223372036854775808\r\n");
}

#[test]
fn resp_integers_agree_with_the_standard_library() {
    let mut v: i64 = 1;
    for _ in 0..200 {
        v = v.wrapping_mul(6364136223846793005).wrapping_add(1442695040888963407);
        for candidate in [v, v % 100_000, v % 10, -(v % 1000)] {
            assert_eq!(text(&Resp::Integer(candidate)), format!(":{}\r\n", candidate));
        }
    }
}

#[test]
fn resp_bulk_strings() {
    assert_eq!(text(&Resp::BulkString(Some(b"foobar".to_vec()))), "$6\r\nfoobar\r\n");
    assert_eq!(text(&Resp::BulkString(Some(Vec::new()))), "$0\r\n\r\n");
    assert_eq!(text(&Resp::BulkString(None)), "$-1\r\n");
    let long = vec![b'x'; 123];
    assert_eq!(text(&Resp::BulkString(Some(long.clone()))), format!("$123\r\n{}\r\n", "x".repeat(123)));
}

#[test]
fn resp_arrays() {
    assert_eq!(text(&Resp::Array(None)), "*-1\r\n");
    assert_eq!(text(&Resp::Array(Some(Vec::new()))), "*0\r\n");
    let value = Resp::Array(Some(vec![
        Resp::BulkString(Some(b"foo".to_vec())),
        Resp::BulkString(Some(b"bar".to_vec())),
    ]));
    assert_eq!(text(&value), "*2\r\n$3\r\nfoo\r\n$3\r\nbar\r\n");
    let nested = Resp::Array(Some(vec![
        Resp::Array(Some(vec![Resp::Integer(1), Resp::Integer(2), Resp::Integer(3)])),
        Resp::Array(Some(vec![
            Resp::SimpleString("Foo".to_string()),
            Resp::Error("Bar".to_string()),
        ])),
        Resp::Array(None),
        Resp::BulkString(None),
    ]));
    assert_eq!(
        text(&nested),
        "*4\r\n*3\r\n:1\r\n:2\r\n:3\r\n*2\r\n+Foo\r\n-Bar\r\n*-1\r\n$-1\r\n"
    );
}

#[test]
fn resp_to_writer_appends() {
    let mut buf = b"before".to_vec();
    to_writer(&Resp::Integer(5), &mut buf).unwrap();
    to_writer(&Resp::BulkString(Some(vec![0xff, 0x00])), &mut buf).unwrap();
    assert_eq!(buf, b"before:5\r\n$2\r\n\xff\x00\r\n".to_vec());
}

#[test]
fn resp_to_string_fails_on_bytes_that_are_not_utf8() {
    let value = Resp::Array(Some(vec![Resp::Integer(1), Resp::BulkString(Some(vec![0xff]))]));
    assert!(matches!(to_string(&value), Err(RespError::FromUtf8Error(_))));
}

#[test]
fn resp_pieces() {
    let mut buf = Vec::new();
    write_seq(&mut buf, 12);
    write_str(&mut buf, "+PONG");
    write_i64(&mut buf, -45);
    write_bytes(&mut buf, b"ab");
    assert_eq!(buf, b"*12\r\n+PONG\r\n:-45\r\n$2\r\nab\r\n".to_vec());
}
