use lava_torrent::bencode::BencodeElem;
use lava_torrent::error::ErrorKind;

#[test]
fn encode_negative_integer() {
    assert_eq!(BencodeElem::Integer(-42).encode(), b"i-42e".to_vec());
}

#[test]
fn encode_empty_string() {
    assert_eq!(
        BencodeElem::String("".to_string()).encode(),
        b"0:".to_vec()
    );
}

#[test]
fn encode_list() {
    let v = BencodeElem::List(vec![
        BencodeElem::Integer(1),
        BencodeElem::String("a".to_string()),
    ]);
    assert_eq!(v.encode(), b"li1e1:ae".to_vec());
}

#[test]
fn encode_dictionary_sorts_keys() {
    let v = BencodeElem::dictionary(vec![
        ("b".to_string(), BencodeElem::Integer(2)),
        ("a".to_string(), BencodeElem::Integer(1)),
    ]);
    assert_eq!(v.encode(), b"d1:ai1e1:bi2ee".to_vec());
}

#[test]
fn parse_negative_zero_is_an_error() {
    let r = BencodeElem::from_bytes(b"i-0e");
    assert_eq!(r.unwrap_err().kind(), ErrorKind::MalformedBencode);
}

#[test]
fn parse_leading_zeros_is_an_error() {
    let r = BencodeElem::from_bytes(b"i00e");
    assert_eq!(r.unwrap_err().kind(), ErrorKind::MalformedBencode);
}

#[test]
fn parse_zero() {
    let r = BencodeElem::from_bytes(b"i0e").unwrap();
    assert_eq!(r, vec![BencodeElem::Integer(0)]);
}

#[test]
fn parse_empty_string() {
    let r = BencodeElem::from_bytes(b"0:").unwrap();
    assert_eq!(r, vec![BencodeElem::String("".to_string())]);
}

#[test]
fn parse_unsorted_dictionary_keys_is_an_error() {
    let r = BencodeElem::from_bytes(b"d1:bi2e1:ai1ee");
    assert_eq!(r.unwrap_err().kind(), ErrorKind::MalformedBencode);
}

#[test]
fn parse_duplicate_dictionary_keys_is_an_error() {
    let r = BencodeElem::from_bytes(b"d1:ai1e1:ai2ee");
    assert_eq!(r.unwrap_err().kind(), ErrorKind::MalformedBencode);
}

#[test]
fn parse_integer_bounds() {
    let r = BencodeElem::from_bytes(b"i9223372036854775807e").unwrap();
    assert_eq!(r, vec![BencodeElem::Integer(i64::MAX)]);
    let r = BencodeElem::from_bytes(b"i-9223372036854775808e").unwrap();
    assert_eq!(r, vec![BencodeElem::Integer(i64::MIN)]);
    let r = BencodeElem::from_bytes(b"i9223372036854775808e");
    assert_eq!(r.unwrap_err().kind(), ErrorKind::MalformedBencode);
}

#[test]
fn parse_truncated_input_is_an_error() {
    assert_eq!(
        BencodeElem::from_bytes(b"5:ab").unwrap_err().kind(),
        ErrorKind::MalformedBencode
    );
    assert_eq!(
        BencodeElem::from_bytes(b"li1e").unwrap_err().kind(),
        ErrorKind::MalformedBencode
    );
    assert_eq!(
        BencodeElem::from_bytes(b"i42").unwrap_err().kind(),
        ErrorKind::MalformedBencode
    );
}

#[test]
fn parse_unknown_prefix_is_an_error() {
    assert_eq!(
        BencodeElem::from_bytes(b"x").unwrap_err().kind(),
        ErrorKind::MalformedBencode
    );
}

#[test]
fn parse_decides_string_or_bytes() {
    let r = BencodeElem::from_bytes(b"2:ab").unwrap();
    assert_eq!(r, vec![BencodeElem::String("ab".to_string())]);
    let r = BencodeElem::from_bytes(b"2:\xff\xfe").unwrap();
    assert_eq!(r, vec![BencodeElem::Bytes(vec![0xff, 0xfe])]);
}

#[test]
fn parse_decides_dictionary_or_raw_dictionary() {
    let r = BencodeElem::from_bytes(b"d1:ai1ee").unwrap();
    assert_eq!(
        r,
        vec![BencodeElem::dictionary(vec![(
            "a".to_string(),
            BencodeElem::Integer(1)
        )])]
    );
    let r = BencodeElem::from_bytes(b"d1:\xffi1ee").unwrap();
    assert_eq!(
        r,
        vec![BencodeElem::RawDictionary(vec![(
            vec![0xff],
            BencodeElem::Integer(1)
        )])]
    );
}

#[test]
fn round_trip_parse_then_encode() {
    // encoding what was parsed gives back the input, byte for byte
    let cases: Vec<&[u8]> = vec![
        b"i0e",
        b"i-42e",
        b"0:",
        b"4:spam",
        b"li1e1:ae",
        b"d1:ai1e1:bi2ee",
        b"d3:cowd3:mooi4ee4:spam4:eggse",
        b"ld1:xi1eeli2ei3eee",
    ];
    for bytes in cases {
        let parsed = BencodeElem::from_bytes(bytes).unwrap();
        assert_eq!(parsed.len(), 1);
        assert_eq!(parsed[0].encode(), bytes.to_vec());
    }
}

#[test]
fn round_trip_encode_then_parse() {
    let values = vec![
        BencodeElem::Integer(1234567),
        BencodeElem::String("hello".to_string()),
        BencodeElem::Bytes(vec![0xc0, 0xff, 0xee]),
        BencodeElem::List(vec![
            BencodeElem::Integer(-1),
            BencodeElem::List(vec![BencodeElem::String("x".to_string())]),
        ]),
        BencodeElem::dictionary(vec![
            ("zz".to_string(), BencodeElem::Integer(1)),
            ("a".to_string(), BencodeElem::String("b".to_string())),
        ]),
    ];
    for v in values {
        let encoded = v.encode();
        let parsed = BencodeElem::from_bytes(encoded.as_slice()).unwrap();
        assert_eq!(parsed, vec![v]);
    }
}

#[test]
fn parse_two_top_level_values() {
    let r = BencodeElem::from_bytes(b"i1ei2e").unwrap();
    assert_eq!(r, vec![BencodeElem::Integer(1), BencodeElem::Integer(2)]);
}

#[test]
fn dictionary_replaces_equal_key() {
    // writing the same key twice keeps the later value
    let d1 = BencodeElem::dictionary(vec![
        ("a".to_string(), BencodeElem::Integer(1)),
        ("a".to_string(), BencodeElem::Integer(2)),
    ]);
    let d2 = BencodeElem::dictionary(vec![("a".to_string(), BencodeElem::Integer(2))]);
    assert_eq!(d1, d2);
    assert_eq!(d1.encode(), b"d1:ai2ee".to_vec());
}
