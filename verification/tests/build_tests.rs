use lava_torrent::bencode::BencodeElem;
use lava_torrent::builder::TorrentBuilder;
use lava_torrent::error::ErrorKind;

fn byte_sequence() -> Vec<u8> {
    (0u16..256).map(|b| b as u8).collect()
}

#[test]
fn build_single_file_pieces() {
    // 256 bytes 0x00..0xff hashed in 64-byte pieces: four digests
    let t = TorrentBuilder::new("url".to_string(), "/dir/byte_sequence", 64)
        .build_with_file(byte_sequence(), true)
        .unwrap();
    assert_eq!(t.length, 256);
    assert_eq!(t.piece_length, 64);
    assert_eq!(t.name, "byte_sequence");
    assert_eq!(t.files, None);
    assert_eq!(
        t.pieces,
        vec![
            vec![
                198, 19, 141, 81, 79, 250, 33, 53, 191, 206, 14, 208, 184, 250, 198, 86, 105,
                145, 126, 199,
            ],
            vec![
                8, 244, 44, 162, 89, 207, 18, 29, 46, 169, 205, 139, 108, 91, 36, 200, 109, 115,
                61, 183,
            ],
            vec![
                156, 122, 162, 177, 31, 39, 9, 152, 166, 59, 27, 23, 149, 207, 243, 137, 10, 78,
                181, 111,
            ],
            vec![
                185, 161, 57, 156, 18, 128, 41, 140, 193, 70, 116, 118, 156, 255, 135, 160, 167,
                133, 230, 171,
            ],
        ]
    );
}

#[test]
fn build_piece_count_follows_length() {
    // |pieces| == ceil(length / piece_length)
    for (len, pl, expect) in [(0usize, 16i64, 0usize), (1, 16, 1), (16, 16, 1), (17, 16, 2), (256, 64, 4)] {
        let content = vec![7u8; len];
        let t = TorrentBuilder::new("url".to_string(), "/dir/f", pl)
            .build_with_file(content, true)
            .unwrap();
        assert_eq!(t.pieces.len(), expect);
        assert_eq!(t.length, len as i64);
    }
}

#[test]
fn build_piece_length_zero_fails() {
    let r = TorrentBuilder::new("url".to_string(), "/dir/f", 0).build_with_file(vec![1], true);
    assert_eq!(r.unwrap_err().kind(), ErrorKind::TorrentBuilderFailure);
}

#[test]
fn build_piece_length_negative_fails() {
    let r = TorrentBuilder::new("url".to_string(), "/dir/f", -1).build_with_file(vec![1], true);
    assert_eq!(r.unwrap_err().kind(), ErrorKind::TorrentBuilderFailure);
}

#[test]
fn build_piece_length_three_fails() {
    let r = TorrentBuilder::new("url".to_string(), "/dir/f", 3).build_with_file(vec![1], true);
    assert_eq!(r.unwrap_err().kind(), ErrorKind::TorrentBuilderFailure);
}

#[test]
fn build_path_with_parent_component_fails() {
    let r = TorrentBuilder::new("url".to_string(), "/dir/../f", 64).build_with_file(vec![1], true);
    assert_eq!(r.unwrap_err().kind(), ErrorKind::TorrentBuilderFailure);
}

#[test]
fn build_path_with_hidden_component_fails() {
    let r = TorrentBuilder::new("url".to_string(), "/dir/.hidden", 64)
        .build_with_file(vec![1], true);
    assert_eq!(r.unwrap_err().kind(), ErrorKind::TorrentBuilderFailure);
}

#[test]
fn build_directory_sorts_and_spans_pieces() {
    // two files hashed across the boundary: contents concatenate in
    // path order before being cut into pieces
    let entries = vec![
        (vec!["b.txt".to_string()], vec![2u8; 40]),
        (vec!["a.txt".to_string()], vec![1u8; 40]),
    ];
    let t = TorrentBuilder::new("url".to_string(), "/dir", 64)
        .build_with_dir(entries, true)
        .unwrap();
    let files = t.files.as_ref().unwrap();
    assert_eq!(files.len(), 2);
    assert_eq!(files[0].path, vec!["a.txt".to_string()]);
    assert_eq!(files[0].length, 40);
    assert_eq!(files[1].path, vec!["b.txt".to_string()]);
    assert_eq!(files[1].length, 40);
    assert_eq!(t.length, 80);
    // 80 bytes at 64 a piece: two pieces, the first spanning both files
    assert_eq!(t.pieces.len(), 2);
    let mut all = vec![1u8; 40];
    all.extend_from_slice(&[2u8; 40]);
    let whole = TorrentBuilder::new("url".to_string(), "/dir/whole", 64)
        .build_with_file(all, true)
        .unwrap();
    assert_eq!(t.pieces, whole.pieces);
}

#[test]
fn build_private_sets_info_field() {
    let t = TorrentBuilder::new("url".to_string(), "/dir/f", 64)
        .set_privacy(true)
        .build_with_file(vec![9u8; 10], true)
        .unwrap();
    let extras = t.extra_info_fields.unwrap();
    assert_eq!(
        extras,
        vec![("private".to_string(), BencodeElem::Integer(1))]
    );
}

#[test]
fn build_empty_announce_fails() {
    let r = TorrentBuilder::new("".to_string(), "/dir/f", 64).build_with_file(vec![1], true);
    assert_eq!(r.unwrap_err().kind(), ErrorKind::TorrentBuilderFailure);
}

#[test]
fn build_missing_path_fails() {
    let r = TorrentBuilder::new("url".to_string(), "/dir/f", 64).build_with_file(vec![1], false);
    assert_eq!(r.unwrap_err().kind(), ErrorKind::TorrentBuilderFailure);
}

#[test]
fn build_name_defaults_to_last_component() {
    let t = TorrentBuilder::new("url".to_string(), "/some/place/thing", 32)
        .build_with_file(vec![1, 2, 3], true)
        .unwrap();
    assert_eq!(t.name, "thing");
    let t = TorrentBuilder::new("url".to_string(), "/some/place/thing", 32)
        .set_name("other".to_string())
        .build_with_file(vec![1, 2, 3], true)
        .unwrap();
    assert_eq!(t.name, "other");
}

#[test]
fn build_deterministic_pieces() {
    // the same content, piece length and announce give the same digests
    let t1 = TorrentBuilder::new("url".to_string(), "/a/f", 64)
        .build_with_file(byte_sequence(), true)
        .unwrap();
    let t2 = TorrentBuilder::new("url".to_string(), "/b/f", 64)
        .set_name("f".to_string())
        .build_with_file(byte_sequence(), true)
        .unwrap();
    assert_eq!(t1.pieces, t2.pieces);
}
