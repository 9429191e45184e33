use mongrel2::headers::Headers;
use mongrel2::request::{parse, Request};
use mongrel2::FormatError;

#[test]
fn test_request_parse() {
    let request = parse("abCD-123 56 / 13:{\"foo\":\"bar\"},11:hello world,".as_bytes()).unwrap();

    assert_eq!(request.uuid, "abCD-123");
    assert_eq!(request.id, "56");
    assert_eq!(request.headers.len(), 1);
    assert_eq!(request.headers.find("foo"), Some(&vec!["bar".to_string()]));
    assert_eq!(request.body, "hello world".as_bytes().to_vec());
}

#[test]
fn parse_reads_path_and_leaves_no_json_body() {
    let request = parse("abCD-123 56 / 13:{\"foo\":\"bar\"},11:hello world,".as_bytes()).unwrap();
    assert_eq!(request.path, "/");
    assert!(request.json_body.is_none());
}

#[test]
fn parse_dictionary_headers() {
    let request = parse(b"uuid 42 /some/path 12:3:foo,3:bar,}5:hello,").unwrap();
    assert_eq!(request.uuid, "uuid");
    assert_eq!(request.id, "42");
    assert_eq!(request.path, "/some/path");
    assert_eq!(request.headers.find("foo"), Some(&vec!["bar".to_string()]));
    assert_eq!(request.body, b"hello".to_vec());
}

#[test]
fn repeated_dictionary_keys_merge_in_order() {
    let request = parse(b"u 1 / 24:3:foo,3:bar,3:foo,3:baz,}0:,").unwrap();
    assert_eq!(
        request.headers.find("foo"),
        Some(&vec!["bar".to_string(), "baz".to_string()])
    );
    assert_eq!(request.headers.len(), 1);
}

#[test]
fn list_valued_dictionary_header() {
    let request = parse(b"u 1 / 17:3:foo,8:1:a,1:b,]}0:,").unwrap();
    assert_eq!(
        request.headers.find("foo"),
        Some(&vec!["a".to_string(), "b".to_string()])
    );
}

#[test]
fn json_method_populates_json_body() {
    let request = parse(b"u 1 / 16:6:METHOD,4:JSON,}21:{\"type\":\"disconnect\"},").unwrap();
    assert!(request.json_body.is_some());
    assert!(request.is_disconnect());
}

#[test]
fn json_method_with_array_body_is_fatal() {
    let r = parse(b"u 1 / 16:6:METHOD,4:JSON,}5:[1,2],");
    assert_eq!(r.err(), Some(FormatError::JsonBody));
}

#[test]
fn json_method_with_invalid_json_body_is_fatal() {
    let r = parse(b"u 1 / 16:6:METHOD,4:JSON,}3:{x[,");
    assert_eq!(r.err(), Some(FormatError::JsonBody));
}

#[test]
fn non_json_method_never_sets_json_body() {
    let request = parse(b"u 1 / 16:6:METHOD,4:POST,}21:{\"type\":\"disconnect\"},").unwrap();
    assert!(request.json_body.is_none());
    assert!(!request.is_disconnect());
}

#[test]
fn is_disconnect_needs_exact_type_string() {
    let request = parse(b"u 1 / 16:6:METHOD,4:JSON,}12:{\"type\":\"x\"},").unwrap();
    assert!(request.json_body.is_some());
    assert!(!request.is_disconnect());

    let request = parse(b"u 1 / 16:6:METHOD,4:JSON,}13:{\"type\":null},").unwrap();
    assert!(!request.is_disconnect());

    let request = parse(b"u 1 / 16:6:METHOD,4:JSON,}11:{\"other\":1},").unwrap();
    assert!(!request.is_disconnect());
}

#[test]
fn is_disconnect_ignores_extra_keys() {
    let body = "{\"a\":1,\"type\":\"disconnect\"}";
    let msg = format!("u 1 / 16:6:METHOD,4:JSON,}}{}:{},", body.len(), body);
    let request = parse(msg.as_bytes()).unwrap();
    assert!(request.is_disconnect());
}

#[test]
fn should_close_on_connection_close_whatever_version_says() {
    let request = parse(b"u 1 / 43:10:connection,5:close,7:VERSION,8:HTTP/1.1,}0:,").unwrap();
    assert!(request.should_close());

    let request = parse(b"u 1 / 22:10:connection,5:close,}0:,").unwrap();
    assert!(request.should_close());
}

#[test]
fn should_close_on_http_1_0_version_alone() {
    let request = parse(b"u 1 / 21:7:VERSION,8:HTTP/1.0,}0:,").unwrap();
    assert!(request.should_close());

    let request = parse(b"u 1 / 21:7:VERSION,8:HTTP/1.1,}0:,").unwrap();
    assert!(!request.should_close());

    let request = parse(b"u 1 / 12:3:foo,3:bar,}0:,").unwrap();
    assert!(!request.should_close());
}

#[test]
fn version_check_survives_other_connection_values() {
    let request = parse(
        b"u 1 / 49:10:connection,10:keep-alive,7:VERSION,8:HTTP/1.0,}0:,",
    )
    .unwrap();
    assert!(request.should_close());
}

#[test]
fn missing_tokens_are_fatal() {
    assert_eq!(parse(b"").err(), Some(FormatError::Uuid));
    assert_eq!(parse(b"abc").err(), Some(FormatError::Uuid));
    assert_eq!(parse(b"a b").err(), Some(FormatError::Id));
    assert_eq!(parse(b"a b c").err(), Some(FormatError::Path));
}

#[test]
fn missing_typed_values_are_fatal() {
    assert_eq!(parse(b"a b c ").err(), Some(FormatError::EmptyHeaders));
    assert_eq!(parse(b"a b c 0:}").err(), Some(FormatError::EmptyBody));
}

#[test]
fn body_must_be_the_string_variant() {
    assert_eq!(parse(b"a b c 0:}0:}").err(), Some(FormatError::BodyShape));
    assert_eq!(parse(b"a b c 0:}0:]").err(), Some(FormatError::BodyShape));
}

#[test]
fn header_shape_violations_are_fatal() {
    // headers value is a list, not a dictionary or string
    assert_eq!(parse(b"a b c 0:]0:,").err(), Some(FormatError::HeaderShape));
    // a dictionary value that is neither string nor list of strings
    assert_eq!(parse(b"a b c 10:3:foo,1:5#}0:,").err(), Some(FormatError::HeaderShape));
    // a bare string that is not JSON at all
    assert_eq!(parse(b"a b c 7:notjson,0:,").err(), Some(FormatError::HeaderShape));
    // a bare string holding JSON that is not an object
    assert_eq!(parse(b"a b c 5:[1,2],0:,").err(), Some(FormatError::HeaderShape));
}

#[test]
fn truncated_headers_value_is_fatal() {
    assert_eq!(parse(b"a b c 5:ab,").err(), Some(FormatError::Truncated));
}

#[test]
fn invalid_utf8_token_is_fatal() {
    assert_eq!(parse(&[0xff, 0xfe, 32, 97, 32, 47, 32][..]).err(), Some(FormatError::Utf8));
}

#[test]
fn multibyte_tokens_decode_as_text() {
    let msg = "héllo Ω /π 12:3:foo,3:bar,}0:,".as_bytes();
    let request = parse(msg).unwrap();
    assert_eq!(request.uuid, "héllo");
    assert_eq!(request.id, "Ω");
    assert_eq!(request.path, "/π");
}

#[test]
fn json_string_headers_with_list_values() {
    let hdr = "{\"foo\":[\"a\",\"b\"],\"bar\":\"c\"}";
    let msg = format!("u 1 / {}:{},0:,", hdr.len(), hdr);
    let request = parse(msg.as_bytes()).unwrap();
    assert_eq!(
        request.headers.find("foo"),
        Some(&vec!["a".to_string(), "b".to_string()])
    );
    assert_eq!(request.headers.find("bar"), Some(&vec!["c".to_string()]));
    assert_eq!(request.headers.find("baz"), None);
}

#[test]
fn json_string_headers_with_bad_value_shape() {
    let hdr = "{\"foo\":[\"a\",1]}";
    let msg = format!("u 1 / {}:{},0:,", hdr.len(), hdr);
    assert_eq!(parse(msg.as_bytes()).err(), Some(FormatError::HeaderShape));

    let hdr = "{\"foo\":7}";
    let msg = format!("u 1 / {}:{},0:,", hdr.len(), hdr);
    assert_eq!(parse(msg.as_bytes()).err(), Some(FormatError::HeaderShape));
}

#[test]
fn empty_list_header_values_are_refused() {
    // a dictionary header value that is the empty list
    assert_eq!(parse(b"a b c 9:3:foo,0:]}0:,").err(), Some(FormatError::HeaderShape));
    // a JSON header value that is the empty list
    let hdr = "{\"foo\":[]}";
    let msg = format!("u 1 / {}:{},0:,", hdr.len(), hdr);
    assert_eq!(parse(msg.as_bytes()).err(), Some(FormatError::HeaderShape));
}

#[test]
fn predicates_on_a_hand_built_request() {
    let request = Request {
        uuid: "u".to_string(),
        id: "1".to_string(),
        path: "/".to_string(),
        headers: Headers {
            entries: vec![("connection".to_string(), vec!["close".to_string()])],
        },
        body: Vec::new(),
        json_body: None,
    };
    assert!(request.should_close());
    assert!(!request.is_disconnect());
}
