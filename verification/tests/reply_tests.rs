use mongrel2::headers::Headers;
use mongrel2::reply::{http_reply, send_frame};

#[test]
fn send_frame_wraps_one_id() {
    let out = send_frame("F0D32575", &vec!["56".to_string()], b"HELLO");
    assert_eq!(out, b"F0D32575 2:56, HELLO".to_vec());
}

#[test]
fn send_frame_joins_ids_with_spaces() {
    let out = send_frame("u", &vec!["a".to_string(), "bc".to_string()], b"X");
    assert_eq!(out, b"u 4:a bc, X".to_vec());
}

#[test]
fn send_frame_with_no_ids_sends_an_empty_id_string() {
    let out = send_frame("u", &Vec::new(), b"X");
    assert_eq!(out, b"u 0:, X".to_vec());
}

#[test]
fn send_frame_appends_body_raw() {
    let out = send_frame("u", &vec!["1".to_string()], b"9:not a tv,");
    assert_eq!(out, b"u 1:1, 9:not a tv,".to_vec());
}

#[test]
fn http_reply_without_headers() {
    let headers = Headers { entries: Vec::new() };
    let out = http_reply(404, "Not Found", &headers, b"");
    assert_eq!(
        out,
        b"HTTP/1.1 404 Not Found\r\nContent-Length: 0\r\n\r\n".to_vec()
    );
}

#[test]
fn http_reply_with_headers_and_body() {
    let headers = Headers {
        entries: vec![("Content-Type".to_string(), vec!["text/html".to_string()])],
    };
    let out = http_reply(200, "OK", &headers, b"<b>hi</b>");
    assert_eq!(
        out,
        b"HTTP/1.1 200 OK\r\nContent-Length: 9\r\nContent-Type: text/html\r\n\r\n<b>hi</b>"
            .to_vec()
    );
}

#[test]
fn http_reply_writes_one_line_per_value_in_order() {
    let headers = Headers {
        entries: vec![
            ("Set-Cookie".to_string(), vec!["a=1".to_string(), "b=2".to_string()]),
            ("X-One".to_string(), vec!["y".to_string()]),
        ],
    };
    let out = http_reply(200, "OK", &headers, b"ok");
    let expected = b"HTTP/1.1 200 OK\r\nContent-Length: 2\r\nSet-Cookie: a=1\r\nSet-Cookie: b=2\r\nX-One: y\r\n\r\nok".to_vec();
    assert_eq!(out, expected);
}
