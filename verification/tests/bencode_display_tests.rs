use lava_torrent::bencode::BencodeElem;

#[test]
fn display_test_string() {
    assert_eq!(
        BencodeElem::String("".to_string()).to_display_string(),
        r#""""#
    );
}

#[test]
fn display_test_bytes() {
    assert_eq!(
        BencodeElem::Bytes(vec![0xff, 0xf8, 0xff, 0xee]).to_display_string(),
        "[0xff, 0xf8, 0xff, 0xee]"
    );
}

#[test]
fn display_test_integer() {
    assert_eq!(BencodeElem::Integer(0).to_display_string(), "0");
}

#[test]
fn display_test_list() {
    assert_eq!(
        BencodeElem::List(vec![
            BencodeElem::Integer(0),
            BencodeElem::String("spam".to_string()),
        ])
        .to_display_string(),
        r#"[0, "spam"]"#
    );
}

#[test]
fn display_test_dictionary() {
    let inner = BencodeElem::dictionary(vec![(
        "moo".to_string(),
        BencodeElem::Integer(4),
    )]);
    let outer = BencodeElem::dictionary(vec![
        ("cow".to_string(), inner),
        ("spam".to_string(), BencodeElem::String("eggs".to_string())),
    ]);
    assert_eq!(
        outer.to_display_string(),
        r#"{ ("cow", { ("moo", 4) }), ("spam", "eggs") }"#,
    )
}
