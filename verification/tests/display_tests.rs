use lava_torrent::bencode::BencodeElem;
use lava_torrent::ip::{PeerAddr, PeerIp};
use lava_torrent::tracker::{Peer, SwarmMetadata, TrackerResponse, TrackerScrapeResponse};

fn sep() -> String {
    "=".repeat(40)
}

#[test]
fn peer_display_with_id_v4() {
    let p = Peer {
        id: Some("abc".to_string()),
        addr: PeerAddr {
            ip: PeerIp::V4(1, 2, 3, 4),
            port: 80,
        },
        extra_fields: None,
    };
    assert_eq!(
        p.to_display_string(),
        format!("\t-id: abc\n\t-addr: 1.2.3.4:80\n\t{}\n", sep())
    );
}

#[test]
fn peer_display_v6_compressed() {
    let p = Peer {
        id: None,
        addr: PeerAddr {
            ip: PeerIp::V6(0, 0, 0, 0, 0, 0, 0, 0x1234),
            port: 6881,
        },
        extra_fields: None,
    };
    assert_eq!(
        p.to_display_string(),
        format!("\t-addr: [::1234]:6881\n\t{}\n", sep())
    );
}

#[test]
fn peer_display_v6_mapped() {
    let p = Peer {
        id: None,
        addr: PeerAddr {
            ip: PeerIp::V6(0, 0, 0, 0, 0, 0xffff, 0x7f00, 0x0001),
            port: 9,
        },
        extra_fields: None,
    };
    assert_eq!(
        p.to_display_string(),
        format!("\t-addr: [::ffff:127.0.0.1]:9\n\t{}\n", sep())
    );
}

#[test]
fn peer_display_v6_inner_run() {
    // the longest zero run is compressed, the leftmost on a tie
    let p = Peer {
        id: None,
        addr: PeerAddr {
            ip: PeerIp::V6(0x2001, 0xdb8, 0, 0, 1, 0, 0, 1),
            port: 1,
        },
        extra_fields: None,
    };
    assert_eq!(
        p.to_display_string(),
        format!("\t-addr: [2001:db8::1:0:0:1]:1\n\t{}\n", sep())
    );
}

#[test]
fn peer_display_extras_sorted() {
    let p = Peer {
        id: None,
        addr: PeerAddr {
            ip: PeerIp::V4(8, 8, 8, 8),
            port: 53,
        },
        extra_fields: Some(vec![
            ("b".to_string(), BencodeElem::Integer(2)),
            ("a".to_string(), BencodeElem::Integer(1)),
        ]),
    };
    assert_eq!(
        p.to_display_string(),
        format!("\t-addr: 8.8.8.8:53\n-a: 1\n-b: 2\n\t{}\n", sep())
    );
}

#[test]
fn response_display_lines() {
    let p = Peer {
        id: None,
        addr: PeerAddr {
            ip: PeerIp::V4(127, 0, 0, 1),
            port: 6881,
        },
        extra_fields: None,
    };
    let r = TrackerResponse {
        interval: 900,
        peers: vec![p],
        warning: None,
        min_interval: Some(60),
        tracker_id: None,
        complete: Some(5),
        incomplete: None,
        extra_fields: None,
    };
    assert_eq!(
        r.to_display_string(),
        format!(
            "-interval: 900\n-min_interval: 60\n-complete: 5\n-peers (1):\n\t-addr: 127.0.0.1:6881\n\t{}\n\n",
            sep()
        )
    );
}

#[test]
fn swarm_display_lines() {
    let m = SwarmMetadata {
        complete: 10,
        incomplete: 3,
        downloaded: 50,
        extra_fields: None,
    };
    assert_eq!(
        m.to_display_string(),
        format!(
            "-complete: 10\n-incomplete: 3\n-downloaded: 50\n{}\n",
            sep()
        )
    );
}

#[test]
fn scrape_display_hex_keys() {
    let m = SwarmMetadata {
        complete: 1,
        incomplete: 0,
        downloaded: 2,
        extra_fields: None,
    };
    let r = TrackerScrapeResponse {
        files: vec![(vec![0xab, 0x05], m)],
        extra_fields: None,
    };
    assert_eq!(
        r.to_display_string(),
        format!(
            "files:\nab5\n-complete: 1\n-incomplete: 0\n-downloaded: 2\n{}\n",
            sep()
        )
    );
}

#[test]
fn bencode_elem_from_conversions() {
    assert_eq!(BencodeElem::from(7u8), BencodeElem::Integer(7));
    assert_eq!(BencodeElem::from(-3i32), BencodeElem::Integer(-3));
    assert_eq!(BencodeElem::from(42i64), BencodeElem::Integer(42));
    assert_eq!(
        BencodeElem::from("spam".to_string()),
        BencodeElem::String("spam".to_string())
    );
    assert_eq!(
        BencodeElem::from(vec![1u8, 2]),
        BencodeElem::Bytes(vec![1, 2])
    );
}
