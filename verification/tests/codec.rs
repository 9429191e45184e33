use mongrel2::typed_value::{decode, encode, encode_string, Tv};
use mongrel2::FormatError;

#[test]
fn encode_decode_string_round_trip() {
    let v = Tv::Str(b"hello".to_vec());
    let bytes = encode(&v).unwrap();
    assert_eq!(bytes, b"5:hello,".to_vec());
    let (decoded, rest) = decode(&bytes).unwrap();
    assert_eq!(decoded, Some(Tv::Str(b"hello".to_vec())));
    assert_eq!(rest, &b""[..]);
}

#[test]
fn encode_decode_empty_string_round_trip() {
    let v = Tv::Str(Vec::new());
    let bytes = encode(&v).unwrap();
    assert_eq!(bytes, b"0:,".to_vec());
    let (decoded, rest) = decode(&bytes).unwrap();
    assert_eq!(decoded, Some(Tv::Str(Vec::new())));
    assert_eq!(rest, &b""[..]);
}

#[test]
fn encode_decode_list_round_trip() {
    let v = Tv::List(vec![Tv::Str(b"a".to_vec()), Tv::Str(b"hi".to_vec())]);
    let bytes = encode(&v).unwrap();
    assert_eq!(bytes, b"9:1:a,2:hi,]".to_vec());
    let (decoded, rest) = decode(&bytes).unwrap();
    assert_eq!(
        decoded,
        Some(Tv::List(vec![Tv::Str(b"a".to_vec()), Tv::Str(b"hi".to_vec())]))
    );
    assert_eq!(rest, &b""[..]);
}

#[test]
fn encode_string_matches_general_encode() {
    assert_eq!(encode_string(b"hello world"), b"11:hello world,".to_vec());
}

#[test]
fn encode_refuses_other_variants() {
    assert_eq!(encode(&Tv::Null), Err(FormatError::Unencodable));
    assert_eq!(encode(&Tv::Int(3)), Err(FormatError::Unencodable));
    assert_eq!(
        encode(&Tv::List(vec![Tv::Bool(true)])),
        Err(FormatError::Unencodable)
    );
}

#[test]
fn decode_leaves_trailing_bytes() {
    let (v, rest) = decode(b"1:a,XYZ").unwrap();
    assert_eq!(v, Some(Tv::Str(b"a".to_vec())));
    assert_eq!(rest, &b"XYZ"[..]);
}

#[test]
fn decode_empty_input_is_no_value() {
    let (v, rest) = decode(b"").unwrap();
    assert_eq!(v, None);
    assert_eq!(rest, &b""[..]);
}

#[test]
fn decode_dict() {
    let (v, _) = decode(b"12:3:foo,3:bar,}").unwrap();
    assert_eq!(
        v,
        Some(Tv::Dict(vec![(b"foo".to_vec(), Tv::Str(b"bar".to_vec()))]))
    );
}

#[test]
fn decode_scalars() {
    assert_eq!(decode(b"2:42#").unwrap().0, Some(Tv::Int(42)));
    assert_eq!(decode(b"3:-17#").unwrap().0, Some(Tv::Int(-17)));
    assert_eq!(decode(b"4:true!").unwrap().0, Some(Tv::Bool(true)));
    assert_eq!(decode(b"5:false!").unwrap().0, Some(Tv::Bool(false)));
    assert_eq!(decode(b"0:~").unwrap().0, Some(Tv::Null));
    assert_eq!(decode(b"3:1.5^").unwrap().0, Some(Tv::Float(b"1.5".to_vec())));
}

#[test]
fn length_prefix_past_buffer_end_is_truncated() {
    assert_eq!(decode(b"5:ab,"), Err(FormatError::Truncated));
    assert_eq!(decode(b"3:abc"), Err(FormatError::Truncated));
    assert_eq!(decode(b"999999999999999999999999:x,"), Err(FormatError::Truncated));
}

#[test]
fn bad_length_prefix_is_refused() {
    assert_eq!(decode(b"abc"), Err(FormatError::Length));
    assert_eq!(decode(b":x,"), Err(FormatError::Length));
    assert_eq!(decode(b"12"), Err(FormatError::Length));
}

#[test]
fn unknown_tag_is_refused() {
    assert_eq!(decode(b"3:abcX"), Err(FormatError::Tag));
}

#[test]
fn malformed_payloads_are_refused() {
    assert_eq!(decode(b"2:4a#"), Err(FormatError::Payload));
    assert_eq!(decode(b"3:tru!"), Err(FormatError::Payload));
    assert_eq!(decode(b"1:x~"), Err(FormatError::Payload));
    // a dictionary key that is not a string value
    assert_eq!(decode(b"10:1:5#3:bar,}"), Err(FormatError::Payload));
}

#[test]
fn nested_list_round_trip() {
    let v = Tv::List(vec![
        Tv::List(vec![Tv::Str(b"x".to_vec())]),
        Tv::Str(b"y".to_vec()),
    ]);
    let bytes = encode(&v).unwrap();
    let (decoded, rest) = decode(&bytes).unwrap();
    assert_eq!(decoded, Some(v));
    assert_eq!(rest, &b""[..]);
}
