use lava_torrent::bencode::BencodeElem;
use lava_torrent::builder::{FilePath, TorrentBuilder};
use lava_torrent::error::ErrorKind;

#[test]
fn new_ok() {
    assert_eq!(
        TorrentBuilder::new("url".to_string(), "dir/", 42),
        TorrentBuilder {
            announce: "url".to_string(),
            path: FilePath::new("dir"),
            piece_length: 42,
            ..Default::default()
        }
    );
}

#[test]
fn set_announce_ok() {
    let builder = TorrentBuilder::new("url".to_string(), "dir/", 42);

    let builder = builder.set_announce("url2".to_string());
    assert_eq!(
        builder,
        TorrentBuilder {
            announce: "url2".to_string(),
            path: FilePath::new("dir"),
            piece_length: 42,
            ..Default::default()
        }
    );

    let builder = builder.set_announce("url3".to_string());
    assert_eq!(
        builder,
        TorrentBuilder {
            announce: "url3".to_string(),
            path: FilePath::new("dir"),
            piece_length: 42,
            ..Default::default()
        }
    );
}

#[test]
fn set_announce_list_ok() {
    let builder = TorrentBuilder::new("url".to_string(), "dir/", 42);

    let builder =
        builder.set_announce_list(vec![vec!["url2".to_string()], vec!["url3".to_string()]]);
    assert_eq!(
        builder,
        TorrentBuilder {
            announce: "url".to_string(),
            announce_list: Some(vec![vec!["url2".to_string()], vec!["url3".to_string()]]),
            path: FilePath::new("dir"),
            piece_length: 42,
            ..Default::default()
        }
    );

    let builder = builder.set_announce_list(vec![vec!["url2".to_string()]]);
    assert_eq!(
        builder,
        TorrentBuilder {
            announce: "url".to_string(),
            announce_list: Some(vec![vec!["url2".to_string()]]),
            path: FilePath::new("dir"),
            piece_length: 42,
            ..Default::default()
        }
    );
}

#[test]
fn set_name_ok() {
    let builder = TorrentBuilder::new("url".to_string(), "dir/", 42);

    let builder = builder.set_name("sample".to_string());
    assert_eq!(
        builder,
        TorrentBuilder {
            announce: "url".to_string(),
            name: Some("sample".to_string()),
            path: FilePath::new("dir"),
            piece_length: 42,
            ..Default::default()
        }
    );

    let builder = builder.set_name("sample2".to_string());
    assert_eq!(
        builder,
        TorrentBuilder {
            announce: "url".to_string(),
            name: Some("sample2".to_string()),
            path: FilePath::new("dir"),
            piece_length: 42,
            ..Default::default()
        }
    );
}

#[test]
fn set_path_ok() {
    let builder = TorrentBuilder::new("url".to_string(), "dir/", 42);

    let builder = builder.set_path("dir2");
    assert_eq!(
        builder,
        TorrentBuilder {
            announce: "url".to_string(),
            path: FilePath::new("dir2"),
            piece_length: 42,
            ..Default::default()
        }
    );

    let builder = builder.set_path("dir3");
    assert_eq!(
        builder,
        TorrentBuilder {
            announce: "url".to_string(),
            path: FilePath::new("dir3"),
            piece_length: 42,
            ..Default::default()
        }
    );
}

#[test]
fn set_piece_length_ok() {
    let builder = TorrentBuilder::new("url".to_string(), "dir/", 42);

    let builder = builder.set_piece_length(256);
    assert_eq!(
        builder,
        TorrentBuilder {
            announce: "url".to_string(),
            path: FilePath::new("dir"),
            piece_length: 256,
            ..Default::default()
        }
    );

    let builder = builder.set_piece_length(512);
    assert_eq!(
        builder,
        TorrentBuilder {
            announce: "url".to_string(),
            path: FilePath::new("dir"),
            piece_length: 512,
            ..Default::default()
        }
    );
}

#[test]
fn add_extra_field_ok() {
    let builder = TorrentBuilder::new("url".to_string(), "dir/", 42);

    let builder = builder.add_extra_field("k1".to_string(), BencodeElem::String("v1".to_string()));
    assert_eq!(
        builder,
        TorrentBuilder {
            announce: "url".to_string(),
            path: FilePath::new("dir"),
            piece_length: 42,
            extra_fields: Some(vec![(
                "k1".to_string(),
                BencodeElem::String("v1".to_string())
            )]),
            ..Default::default()
        }
    );

    let builder = builder.add_extra_field("k2".to_string(), BencodeElem::String("v2".to_string()));
    assert_eq!(
        builder,
        TorrentBuilder {
            announce: "url".to_string(),
            path: FilePath::new("dir"),
            piece_length: 42,
            extra_fields: Some(vec![
                ("k1".to_string(), BencodeElem::String("v1".to_string())),
                ("k2".to_string(), BencodeElem::String("v2".to_string())),
            ]),
            ..Default::default()
        }
    );
}

#[test]
fn add_extra_info_field_ok() {
    let builder = TorrentBuilder::new("url".to_string(), "dir/", 42);

    let builder =
        builder.add_extra_info_field("k1".to_string(), BencodeElem::String("v1".to_string()));
    assert_eq!(
        builder,
        TorrentBuilder {
            announce: "url".to_string(),
            path: FilePath::new("dir"),
            piece_length: 42,
            extra_info_fields: Some(vec![(
                "k1".to_string(),
                BencodeElem::String("v1".to_string())
            )]),
            ..Default::default()
        }
    );

    let builder =
        builder.add_extra_info_field("k2".to_string(), BencodeElem::String("v2".to_string()));
    assert_eq!(
        builder,
        TorrentBuilder {
            announce: "url".to_string(),
            path: FilePath::new("dir"),
            piece_length: 42,
            extra_info_fields: Some(vec![
                ("k1".to_string(), BencodeElem::String("v1".to_string())),
                ("k2".to_string(), BencodeElem::String("v2".to_string())),
            ]),
            ..Default::default()
        }
    );
}

#[test]
fn set_privacy_ok() {
    let builder = TorrentBuilder::new("url".to_string(), "dir/", 42);

    let builder = builder.set_privacy(true);
    assert_eq!(
        builder,
        TorrentBuilder {
            announce: "url".to_string(),
            path: FilePath::new("dir"),
            piece_length: 42,
            is_private: true,
            ..Default::default()
        }
    );

    let builder = builder.set_privacy(false);
    assert_eq!(
        builder,
        TorrentBuilder {
            announce: "url".to_string(),
            path: FilePath::new("dir"),
            piece_length: 42,
            ..Default::default()
        }
    );
}

#[test]
fn validate_announce_ok() {
    let builder = TorrentBuilder::new("url".to_string(), "dir/", 42);

    builder.validate_announce().unwrap();
    // validation methods should not modify builder
    assert_eq!(builder, TorrentBuilder::new("url".to_string(), "dir/", 42));
}

#[test]
fn validate_announce_empty() {
    let builder = TorrentBuilder::new("".to_string(), "dir/", 42);

    match builder.validate_announce() {
        Ok(_) => assert!(false),
        Err(e) => assert_eq!(e.kind(), ErrorKind::TorrentBuilderFailure),
    }
}

#[test]
fn validate_announce_list_ok() {
    let builder = TorrentBuilder::new("url".to_string(), "dir/", 42)
        .set_announce_list(vec![vec!["url2".to_string()]]);

    builder.validate_announce_list().unwrap();
    // validation methods should not modify builder
    assert_eq!(
        builder,
        TorrentBuilder::new("url".to_string(), "dir/", 42)
            .set_announce_list(vec![vec!["url2".to_string()]])
    );
}

#[test]
fn validate_announce_list_none() {
    let builder = TorrentBuilder::new("url".to_string(), "dir/", 42);

    builder.validate_announce_list().unwrap();
    // validation methods should not modify builder
    assert_eq!(builder, TorrentBuilder::new("url".to_string(), "dir/", 42));
}

#[test]
fn validate_announce_list_empty() {
    let builder = TorrentBuilder::new("url".to_string(), "dir/", 42).set_announce_list(vec![]);

    match builder.validate_announce_list() {
        Ok(_) => assert!(false),
        Err(e) => assert_eq!(e.kind(), ErrorKind::TorrentBuilderFailure),
    }
}

#[test]
fn validate_announce_list_empty_tier() {
    let builder = TorrentBuilder::new("url".to_string(), "dir/", 42)
        .set_announce_list(vec![vec!["url2".to_string()], vec![]]);

    match builder.validate_announce_list() {
        Ok(_) => assert!(false),
        Err(e) => assert_eq!(e.kind(), ErrorKind::TorrentBuilderFailure),
    }
}

#[test]
fn validate_announce_list_empty_url() {
    let builder = TorrentBuilder::new("url".to_string(), "dir/", 42)
        .set_announce_list(vec![vec!["url2".to_string()], vec!["".to_string()]]);

    match builder.validate_announce_list() {
        Ok(_) => assert!(false),
        Err(e) => assert_eq!(e.kind(), ErrorKind::TorrentBuilderFailure),
    }
}

#[test]
fn validate_name_ok() {
    let builder = TorrentBuilder::new("url".to_string(), "dir/", 42).set_name("sample".to_string());

    builder.validate_name().unwrap();
    // validation methods should not modify builder
    assert_eq!(
        builder,
        TorrentBuilder::new("url".to_string(), "dir/", 42).set_name("sample".to_string())
    );
}

#[test]
fn validate_name_none() {
    let builder = TorrentBuilder::new("url".to_string(), "dir/", 42);

    builder.validate_name().unwrap();
    // validation methods should not modify builder
    assert_eq!(builder, TorrentBuilder::new("url".to_string(), "dir/", 42));
}

#[test]
fn validate_name_empty() {
    let builder = TorrentBuilder::new("url".to_string(), "dir/", 42).set_name("".to_string());

    match builder.validate_name() {
        Ok(_) => assert!(false),
        Err(e) => assert_eq!(e.kind(), ErrorKind::TorrentBuilderFailure),
    }
}

#[test]
fn validate_path_ok() {
    // an absolute path with ordinary components; the caller's I/O layer
    // reports that it exists
    let builder = TorrentBuilder::new("url".to_string(), "/target", 42);

    builder.validate_path(true).unwrap();
    // validation methods should not modify builder
    assert_eq!(builder, TorrentBuilder::new("url".to_string(), "/target", 42));
}

#[test]
fn validate_path_does_not_exist() {
    let builder = TorrentBuilder::new("url".to_string(), "/dir", 42);

    match builder.validate_path(false) {
        Ok(_) => assert!(false),
        Err(e) => assert_eq!(e.kind(), ErrorKind::TorrentBuilderFailure),
    }
}

#[test]
fn validate_path_has_invalid_component() {
    let builder = TorrentBuilder::new("url".to_string(), "/target/..", 42);

    match builder.validate_path(true) {
        Ok(_) => assert!(false),
        Err(e) => assert_eq!(e.kind(), ErrorKind::TorrentBuilderFailure),
    }
}

#[test]
fn validate_path_has_hidden_component() {
    let builder = TorrentBuilder::new("url".to_string(), "/tests/files/.hidden", 42);

    match builder.validate_path(true) {
        Ok(_) => assert!(false),
        Err(e) => assert_eq!(e.kind(), ErrorKind::TorrentBuilderFailure),
    }
}

#[test]
fn validate_path_not_absolute() {
    let builder = TorrentBuilder::new("url".to_string(), "target/", 42);

    match builder.validate_path(true) {
        Ok(_) => assert!(false),
        Err(e) => assert_eq!(e.kind(), ErrorKind::TorrentBuilderFailure),
    }
}

#[test]
fn validate_piece_length_ok() {
    let builder = TorrentBuilder::new("url".to_string(), "target/", 1024);

    builder.validate_piece_length().unwrap();
    // validation methods should not modify builder
    assert_eq!(
        builder,
        TorrentBuilder::new("url".to_string(), "target/", 1024),
    );
}

#[test]
fn validate_piece_length_not_positive() {
    let builder = TorrentBuilder::new("url".to_string(), "dir/", -1024);

    match builder.validate_piece_length() {
        Ok(_) => assert!(false),
        Err(e) => assert_eq!(e.kind(), ErrorKind::TorrentBuilderFailure),
    }
}

#[test]
fn validate_piece_length_not_power_of_two() {
    let builder = TorrentBuilder::new("url".to_string(), "dir/", 1023);

    match builder.validate_piece_length() {
        Ok(_) => assert!(false),
        Err(e) => assert_eq!(e.kind(), ErrorKind::TorrentBuilderFailure),
    }
}

#[test]
fn validate_extra_fields_ok() {
    let builder = TorrentBuilder::new("url".to_string(), "target/", 42)
        .add_extra_field("k1".to_string(), BencodeElem::String("v1".to_string()));

    builder.validate_extra_fields().unwrap();
    // validation methods should not modify builder
    assert_eq!(
        builder,
        TorrentBuilder::new("url".to_string(), "target/", 42)
            .add_extra_field("k1".to_string(), BencodeElem::String("v1".to_string())),
    );
}

#[test]
fn validate_extra_fields_none() {
    let builder = TorrentBuilder::new("url".to_string(), "target/", 42);

    builder.validate_extra_fields().unwrap();
    // validation methods should not modify builder
    assert_eq!(
        builder,
        TorrentBuilder::new("url".to_string(), "target/", 42),
    );
}

#[test]
fn validate_extra_fields_empty_key() {
    let builder = TorrentBuilder::new("url".to_string(), "target/", 42)
        .add_extra_field("".to_string(), BencodeElem::String("v1".to_string()));

    match builder.validate_extra_fields() {
        Ok(_) => assert!(false),
        Err(e) => assert_eq!(e.kind(), ErrorKind::TorrentBuilderFailure),
    }
}

#[test]
fn validate_extra_info_fields_ok() {
    let builder = TorrentBuilder::new("url".to_string(), "target/", 42)
        .add_extra_info_field("k1".to_string(), BencodeElem::String("v1".to_string()));

    builder.validate_extra_info_fields().unwrap();
    // validation methods should not modify builder
    assert_eq!(
        builder,
        TorrentBuilder::new("url".to_string(), "target/", 42)
            .add_extra_info_field("k1".to_string(), BencodeElem::String("v1".to_string())),
    );
}

#[test]
fn validate_extra_info_fields_none() {
    let builder = TorrentBuilder::new("url".to_string(), "target/", 42);

    builder.validate_extra_info_fields().unwrap();
    // validation methods should not modify builder
    assert_eq!(
        builder,
        TorrentBuilder::new("url".to_string(), "target/", 42),
    );
}

#[test]
fn validate_extra_info_fields_empty_key() {
    let builder = TorrentBuilder::new("url".to_string(), "target/", 42)
        .add_extra_info_field("".to_string(), BencodeElem::String("v1".to_string()));

    match builder.validate_extra_info_fields() {
        Ok(_) => assert!(false),
        Err(e) => assert_eq!(e.kind(), ErrorKind::TorrentBuilderFailure),
    }
}

#[test]
fn file_path_resolves_separators_and_dots() {
    assert_eq!(FilePath::new("/a/./b//c/"), FilePath::new("/a/b/c"));
    assert_ne!(FilePath::new("a/b"), FilePath::new("/a/b"));
    let p = FilePath::new("dir/");
    assert_eq!(p, FilePath::new("dir"));
    assert!(!p.absolute);
    assert_eq!(p.components, vec!["dir".to_string()]);
}
