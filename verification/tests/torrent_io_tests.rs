use lava_torrent::bencode::BencodeElem;
use lava_torrent::builder::TorrentBuilder;
use lava_torrent::error::ErrorKind;
use lava_torrent::torrent::Torrent;

fn sample_torrent_bytes() -> Vec<u8> {
    // announce "url", single file "f" of 3 bytes with one 20-byte digest
    let mut bytes = b"d8:announce3:url4:infod6:lengthi3e4:name1:f12:piece lengthi16384e6:pieces20:".to_vec();
    bytes.extend_from_slice(&[0xe1; 20]);
    bytes.extend_from_slice(b"ee");
    bytes
}

#[test]
fn read_single_file_torrent() {
    let t = Torrent::read_from_bytes(sample_torrent_bytes().as_slice()).unwrap();
    assert_eq!(t.announce, "url");
    assert_eq!(t.name, "f");
    assert_eq!(t.piece_length, 16384);
    assert_eq!(t.length, 3);
    assert_eq!(t.files, None);
    assert_eq!(t.pieces, vec![vec![0xe1; 20]]);
    assert_eq!(t.extra_fields, None);
    assert_eq!(t.extra_info_fields, None);
}

#[test]
fn read_rejects_untwenty_pieces() {
    // a `pieces` field whose length is not a multiple of twenty
    let mut bytes = b"d8:announce3:url4:infod6:lengthi3e4:name1:f12:piece lengthi16384e6:pieces19:".to_vec();
    bytes.extend_from_slice(&[0x11; 19]);
    bytes.extend_from_slice(b"ee");
    let r = Torrent::read_from_bytes(bytes.as_slice());
    assert_eq!(r.unwrap_err().kind(), ErrorKind::MalformedTorrent);
}

#[test]
fn read_rejects_both_modes() {
    let mut bytes = b"d8:announce3:url4:infod5:filesle6:lengthi3e4:name1:f12:piece lengthi16384e6:pieces20:".to_vec();
    bytes.extend_from_slice(&[0xe1; 20]);
    bytes.extend_from_slice(b"ee");
    let r = Torrent::read_from_bytes(bytes.as_slice());
    assert_eq!(r.unwrap_err().kind(), ErrorKind::MalformedTorrent);
}

#[test]
fn read_multi_file_torrent_sums_lengths() {
    let mut bytes = b"d8:announce3:url4:infod5:filesl\
d6:lengthi5e4:pathl1:aee\
d6:lengthi7e4:pathl3:sub1:beee\
4:name1:d12:piece lengthi16384e6:pieces20:"
        .to_vec();
    bytes.extend_from_slice(&[0xe2; 20]);
    bytes.extend_from_slice(b"ee");
    let t = Torrent::read_from_bytes(bytes.as_slice()).unwrap();
    assert_eq!(t.length, 12);
    let files = t.files.unwrap();
    assert_eq!(files.len(), 2);
    assert_eq!(files[0].length, 5);
    assert_eq!(files[0].path, vec!["a".to_string()]);
    assert_eq!(files[1].length, 7);
    assert_eq!(files[1].path, vec!["sub".to_string(), "b".to_string()]);
}

#[test]
fn encode_then_read_round_trip() {
    // the writer's output reads back to an equal torrent
    let t = TorrentBuilder::new("url".to_string(), "/dir/f", 64)
        .build_with_file((0u16..256).map(|b| b as u8).collect(), true)
        .unwrap();
    let bytes = t.encode();
    let back = Torrent::read_from_bytes(bytes.as_slice()).unwrap();
    assert_eq!(back, t);
}

#[test]
fn encode_then_read_round_trip_with_extras() {
    let t = TorrentBuilder::new("url".to_string(), "/dir/f", 64)
        .set_announce_list(vec![vec!["u1".to_string()], vec!["u2".to_string()]])
        .add_extra_field("zz".to_string(), BencodeElem::Integer(9))
        .add_extra_info_field("source".to_string(), BencodeElem::String("here".to_string()))
        .set_privacy(true)
        .build_with_file(vec![5u8; 100], true)
        .unwrap();
    let bytes = t.encode();
    let back = Torrent::read_from_bytes(bytes.as_slice()).unwrap();
    assert_eq!(back, t);
}

#[test]
fn info_hash_is_deterministic() {
    // the same content and piece length give the same info hash, whatever
    // the tracker or root extras say
    let t1 = TorrentBuilder::new("url".to_string(), "/x/f", 64)
        .build_with_file(vec![3u8; 130], true)
        .unwrap();
    let t2 = TorrentBuilder::new("elsewhere".to_string(), "/y/f", 64)
        .set_name("f".to_string())
        .add_extra_field("comment".to_string(), BencodeElem::String("x".to_string()))
        .build_with_file(vec![3u8; 130], true)
        .unwrap();
    assert_eq!(t1.info_hash(), t2.info_hash());
    let t3 = TorrentBuilder::new("url".to_string(), "/x/f", 128)
        .build_with_file(vec![3u8; 130], true)
        .unwrap();
    assert_ne!(t1.info_hash(), t3.info_hash());
}

#[test]
fn reencoding_preserves_info_hash() {
    // re-encoding a parsed torrent leaves the info hash alone
    let t = TorrentBuilder::new("url".to_string(), "/dir/data", 64)
        .build_with_file((0u16..256).map(|b| b as u8).collect(), true)
        .unwrap();
    let bytes = t.encode();
    let back = Torrent::read_from_bytes(bytes.as_slice()).unwrap();
    assert_eq!(back.info_hash(), t.info_hash());
    assert_eq!(back.encode(), bytes);
}

#[test]
fn magnet_link_shape() {
    let t = TorrentBuilder::new("http://t".to_string(), "/dir/f", 64)
        .build_with_file(vec![1, 2, 3], true)
        .unwrap();
    let m = t.magnet_link();
    assert!(m.starts_with("magnet:?xt=urn:btih:"));
    assert!(m.ends_with("&dn=f&tr=http://t"));
    // 20 bytes of hash written as 40 hexadecimal characters
    let hex = &m["magnet:?xt=urn:btih:".len()..m.len() - "&dn=f&tr=http://t".len()];
    assert_eq!(hex.len(), 40);
}
