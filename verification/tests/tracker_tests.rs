use lava_torrent::error::ErrorKind;
use lava_torrent::ip::{PeerAddr, PeerIp};
use lava_torrent::tracker::{TrackerResponse, TrackerScrapeResponse};

#[test]
fn compact_peers_single_record() {
    // interval plus one compact peer record for 127.0.0.1:6881
    let mut bytes = b"d8:intervali900e5:peers6:".to_vec();
    bytes.extend_from_slice(&[0x7f, 0x00, 0x00, 0x01, 0x1a, 0xe1]);
    bytes.push(b'e');
    let r = TrackerResponse::from_bytes(bytes.as_slice()).unwrap();
    assert_eq!(r.interval, 900);
    assert_eq!(r.peers.len(), 1);
    let p = &r.peers[0];
    assert_eq!(p.id, None);
    assert_eq!(
        p.addr,
        PeerAddr { ip: PeerIp::V4(127, 0, 0, 1), port: 6881 }
    );
    assert_eq!(p.extra_fields, None);
}

#[test]
fn compact_peers_count() {
    // 6k bytes of compact peers yield exactly k peers
    for k in [0usize, 1, 2, 7] {
        let payload: Vec<u8> = (0..(6 * k)).map(|i| i as u8).collect();
        let mut bytes = format!("d8:intervali60e5:peers{}:", 6 * k).into_bytes();
        bytes.extend_from_slice(&payload);
        bytes.push(b'e');
        let r = TrackerResponse::from_bytes(bytes.as_slice()).unwrap();
        assert_eq!(r.peers.len(), k);
    }
}

#[test]
fn compact_peers_wrong_length() {
    let mut bytes = b"d8:intervali60e5:peers5:".to_vec();
    bytes.extend_from_slice(&[1, 2, 3, 4, 5]);
    bytes.push(b'e');
    let r = TrackerResponse::from_bytes(bytes.as_slice());
    assert_eq!(r.unwrap_err().kind(), ErrorKind::MalformedResponse);
}

#[test]
fn failure_reason_wins() {
    // a failure reason is reported whatever else the response holds
    let bytes = b"d14:failure reason6:banned8:intervali60ee";
    let e = TrackerResponse::from_bytes(&bytes[..]).unwrap_err();
    assert_eq!(e.kind(), ErrorKind::TrackerErrorResponse);
    assert_eq!(e.message(), "banned");
}

#[test]
fn dict_peers_with_ip_and_port() {
    let bytes = b"d8:intervali1800e5:peersld2:ip9:127.0.0.14:porti51413eeee";
    let r = TrackerResponse::from_bytes(&bytes[..]).unwrap();
    assert_eq!(r.interval, 1800);
    assert_eq!(r.peers.len(), 1);
    assert_eq!(
        r.peers[0].addr,
        PeerAddr { ip: PeerIp::V4(127, 0, 0, 1), port: 51413 }
    );
}

#[test]
fn dict_peers_with_v6_ip() {
    let bytes = b"d8:intervali1800e5:peersld2:ip6:::12344:porti6881eeee";
    let r = TrackerResponse::from_bytes(&bytes[..]).unwrap();
    assert_eq!(
        r.peers[0].addr,
        PeerAddr { ip: PeerIp::V6(0, 0, 0, 0, 0, 0, 0, 0x1234), port: 6881 }
    );
}

#[test]
fn dict_peers_with_v6_mapped_ip() {
    // an embedded dotted quad stands for the last two groups
    let bytes = b"d8:intervali1800e5:peersld2:ip14:::ffff:1.2.3.44:porti6881eeee";
    let r = TrackerResponse::from_bytes(&bytes[..]).unwrap();
    assert_eq!(
        r.peers[0].addr,
        PeerAddr { ip: PeerIp::V6(0, 0, 0, 0, 0, 0xffff, 0x0102, 0x0304), port: 6881 }
    );
}

#[test]
fn dict_peers_with_v6_compat_ip() {
    let bytes = b"d8:intervali1800e5:peersld2:ip9:::1.2.3.44:porti6881eeee";
    let r = TrackerResponse::from_bytes(&bytes[..]).unwrap();
    assert_eq!(
        r.peers[0].addr,
        PeerAddr { ip: PeerIp::V6(0, 0, 0, 0, 0, 0, 0x0102, 0x0304), port: 6881 }
    );
}

#[test]
fn dict_peers_with_full_v6_and_quad() {
    let bytes = b"d8:intervali1800e5:peersld2:ip20:1:2:3:4:5:6:7.8.9.104:porti80eeee";
    let r = TrackerResponse::from_bytes(&bytes[..]).unwrap();
    assert_eq!(
        r.peers[0].addr,
        PeerAddr { ip: PeerIp::V6(1, 2, 3, 4, 5, 6, 0x0708, 0x090a), port: 80 }
    );
}

#[test]
fn dict_peers_with_bad_embedded_quad() {
    // five dotted components are no address
    let bytes = b"d8:intervali1800e5:peersld2:ip11:::1.2.3.4.54:porti80eeee";
    let r = TrackerResponse::from_bytes(&bytes[..]);
    assert_eq!(r.unwrap_err().kind(), ErrorKind::MalformedResponse);
}

#[test]
fn dict_peers_with_hex_peer_id() {
    // a raw-bytes peer id comes out written in hexadecimal
    let mut bytes = b"d8:intervali60e5:peersld2:ip7:8.8.8.87:peer id2:".to_vec();
    bytes.extend_from_slice(&[0xab, 0x05]);
    bytes.extend_from_slice(b"4:porti80eeee");
    let r = TrackerResponse::from_bytes(bytes.as_slice()).unwrap();
    assert_eq!(r.peers[0].id, Some("ab5".to_string()));
}

#[test]
fn dict_peers_invalid_ip() {
    let bytes = b"d8:intervali60e5:peersld2:ip3:abc4:porti80eeee";
    let r = TrackerResponse::from_bytes(&bytes[..]);
    assert_eq!(r.unwrap_err().kind(), ErrorKind::MalformedResponse);
}

#[test]
fn missing_interval_is_an_error() {
    let bytes = b"d5:peers0:e";
    let r = TrackerResponse::from_bytes(&bytes[..]);
    assert_eq!(r.unwrap_err().kind(), ErrorKind::MalformedResponse);
}

#[test]
fn response_extra_fields_are_kept() {
    let bytes = b"d8:completei5e8:intervali60e5:peers0:7:private3:yese";
    let r = TrackerResponse::from_bytes(&bytes[..]).unwrap();
    assert_eq!(r.complete, Some(5));
    let extras = r.extra_fields.unwrap();
    assert_eq!(extras.len(), 1);
    assert_eq!(extras[0].0, "private");
}

#[test]
fn scrape_response_single_file() {
    let mut bytes = b"d5:filesd20:".to_vec();
    bytes.extend_from_slice(&[0xaa; 20]);
    bytes.extend_from_slice(b"d8:completei10e10:downloadedi50e10:incompletei3eeee");
    let r = TrackerScrapeResponse::from_bytes(bytes.as_slice()).unwrap();
    assert_eq!(r.files.len(), 1);
    assert_eq!(r.files[0].0, vec![0xaa; 20]);
    assert_eq!(r.files[0].1.complete, 10);
    assert_eq!(r.files[0].1.incomplete, 3);
    assert_eq!(r.files[0].1.downloaded, 50);
    assert_eq!(r.extra_fields, None);
}

#[test]
fn scrape_response_missing_files_is_an_error() {
    let bytes = b"de";
    let r = TrackerScrapeResponse::from_bytes(&bytes[..]);
    assert_eq!(r.unwrap_err().kind(), ErrorKind::MalformedResponse);
}

#[test]
fn scrape_response_missing_counter_is_an_error() {
    let mut bytes = b"d5:filesd20:".to_vec();
    bytes.extend_from_slice(&[0xbb; 20]);
    bytes.extend_from_slice(b"d8:completei10eeee");
    let r = TrackerScrapeResponse::from_bytes(bytes.as_slice());
    assert_eq!(r.unwrap_err().kind(), ErrorKind::MalformedResponse);
}

#[test]
fn response_must_be_single_dictionary() {
    let r = TrackerResponse::from_bytes(b"i1ei2e");
    assert_eq!(r.unwrap_err().kind(), ErrorKind::MalformedResponse);
    let r = TrackerResponse::from_bytes(b"i1e");
    assert_eq!(r.unwrap_err().kind(), ErrorKind::MalformedResponse);
    let r = TrackerResponse::from_bytes(b"x");
    assert_eq!(r.unwrap_err().kind(), ErrorKind::MalformedBencode);
}
