use bit_torrent::metainfo::parse_torrent;
use bit_torrent::tracker::{
    announce_urls, build_announce_request, build_connect_request, make_peer_id, merge_peers,
    mix_tx_id, parse_announce_response, parse_connect_response, udp_host_port, PeerAddr,
    TrackerError,
};

#[test]
fn connect_request_layout() {
    let req = build_connect_request(0xDEADBEEF);
    assert_eq!(req.len(), 16);
    assert_eq!(&req[..8], &0x41727101980u64.to_be_bytes()[..]);
    assert_eq!(&req[8..12], &[0u8, 0, 0, 0][..]);
    assert_eq!(&req[12..], &0xDEADBEEFu32.to_be_bytes()[..]);
}

#[test]
fn connect_response_rejects_wrong_action_or_tx() {
    let tx = 0x01020304u32;
    let mut good = Vec::new();
    good.extend_from_slice(&0u32.to_be_bytes()); // action 0: connect
    good.extend_from_slice(&tx.to_be_bytes());
    good.extend_from_slice(&0x1122334455667788u64.to_be_bytes());

    assert_eq!(parse_connect_response(&good, tx), Ok(0x1122334455667788));

    // Wrong action, otherwise well-formed.
    let mut wrong_action = good.clone();
    wrong_action[3] = 1;
    assert_eq!(
        parse_connect_response(&wrong_action, tx),
        Err(TrackerError::InvalidConnectResponse)
    );

    // Mismatched transaction id, otherwise well-formed.
    let mut wrong_tx = good.clone();
    wrong_tx[7] ^= 1;
    assert_eq!(
        parse_connect_response(&wrong_tx, tx),
        Err(TrackerError::InvalidConnectResponse)
    );

    // Short datagram.
    assert_eq!(
        parse_connect_response(&good[..15], tx),
        Err(TrackerError::ShortConnectResponse(15))
    );
}

fn announce_header(action: u32, tx: u32) -> Vec<u8> {
    let mut v = Vec::new();
    v.extend_from_slice(&action.to_be_bytes());
    v.extend_from_slice(&tx.to_be_bytes());
    v.extend_from_slice(&1800u32.to_be_bytes()); // interval
    v.extend_from_slice(&3u32.to_be_bytes()); // leechers
    v.extend_from_slice(&5u32.to_be_bytes()); // seeders
    v
}

#[test]
fn announce_response_parses_compact_peers() {
    let tx = 7u32;
    let mut resp = announce_header(1, tx);
    resp.extend_from_slice(&[10, 0, 0, 1, 0x1A, 0xE1]); // 10.0.0.1:6881
    resp.extend_from_slice(&[192, 168, 1, 2, 0x00, 0x50]); // 192.168.1.2:80

    let peers = parse_announce_response(&resp, tx).unwrap();
    assert_eq!(
        peers,
        vec![
            PeerAddr { ip: u32::from_be_bytes([10, 0, 0, 1]), port: 6881 },
            PeerAddr { ip: u32::from_be_bytes([192, 168, 1, 2]), port: 80 },
        ]
    );

    // A bare header is an empty peer list.
    assert_eq!(parse_announce_response(&announce_header(1, tx), tx), Ok(vec![]));
}

#[test]
fn announce_response_rejects_wrong_action_tx_or_length() {
    let tx = 7u32;
    let mut resp = announce_header(1, tx);
    resp.extend_from_slice(&[10, 0, 0, 1, 0x1A, 0xE1]);

    // Wrong action, otherwise well-formed.
    let mut wrong_action = resp.clone();
    wrong_action[3] = 3;
    assert_eq!(
        parse_announce_response(&wrong_action, tx),
        Err(TrackerError::InvalidAnnounceResponse)
    );

    // Mismatched transaction id, otherwise well-formed.
    assert_eq!(
        parse_announce_response(&resp, tx + 1),
        Err(TrackerError::InvalidAnnounceResponse)
    );

    // Peers section not a multiple of 6.
    let mut ragged = resp.clone();
    ragged.push(0xFF);
    assert_eq!(
        parse_announce_response(&ragged, tx),
        Err(TrackerError::NotCompactPeerList)
    );

    // Short datagram.
    assert_eq!(
        parse_announce_response(&resp[..19], tx),
        Err(TrackerError::ShortAnnounceResponse(19))
    );
}

#[test]
fn announce_request_layout_is_98_bytes() {
    let info_hash = vec![0xAAu8; 20];
    let peer_id = vec![0xBBu8; 20];
    let req = build_announce_request(0x0102030405060708, 0x11223344, &info_hash, &peer_id, 5, 7, 9, 6881);
    assert_eq!(req.len(), 98);
    assert_eq!(&req[..8], &0x0102030405060708u64.to_be_bytes()[..]);
    assert_eq!(&req[8..12], &1u32.to_be_bytes()[..]); // announce action
    assert_eq!(&req[12..16], &0x11223344u32.to_be_bytes()[..]);
    assert_eq!(&req[16..36], info_hash.as_slice());
    assert_eq!(&req[36..56], peer_id.as_slice());
    assert_eq!(&req[56..64], &5u64.to_be_bytes()[..]); // downloaded
    assert_eq!(&req[64..72], &7u64.to_be_bytes()[..]); // left
    assert_eq!(&req[72..80], &9u64.to_be_bytes()[..]); // uploaded
    assert_eq!(&req[80..84], &[0u8, 0, 0, 0][..]); // event
    assert_eq!(&req[84..88], &[0u8, 0, 0, 0][..]); // ip
    assert_eq!(&req[88..92], &(0x11223344u32 ^ 0xA5A5A5A5).to_be_bytes()[..]); // key
    assert_eq!(&req[92..96], &[0xFFu8, 0xFF, 0xFF, 0xFF][..]); // num_want = -1
    assert_eq!(&req[96..98], &6881u16.to_be_bytes()[..]);
}

#[test]
fn udp_url_host_port_extraction() {
    assert_eq!(
        udp_host_port(&b"udp://tracker.example:6969/announce".to_vec()),
        Some(b"tracker.example:6969".to_vec())
    );
    assert_eq!(
        udp_host_port(&b"udp://10.1.2.3:80".to_vec()),
        Some(b"10.1.2.3:80".to_vec())
    );
    assert_eq!(udp_host_port(&b"http://tracker.example/announce".to_vec()), None);
    assert_eq!(udp_host_port(&b"udp:".to_vec()), None);
}

#[test]
fn announce_urls_and_peer_merging() {
    let t = parse_torrent(
        b"d8:announce12:udp://a.b:104:infod6:lengthi1e4:name1:xe13:announce-listl12:udp://c.d:99l12:udp://e.f:11eee",
    )
    .unwrap();
    let urls = announce_urls(&t);
    assert_eq!(
        urls,
        vec![b"udp://a.b:10".to_vec(), b"udp://c.d:99".to_vec(), b"udp://e.f:11".to_vec()]
    );

    let a = PeerAddr { ip: 1, port: 1 };
    let b = PeerAddr { ip: 2, port: 2 };
    let c = PeerAddr { ip: 3, port: 3 };
    let mut peers = Vec::new();
    merge_peers(&mut peers, &vec![a, b, a]);
    merge_peers(&mut peers, &vec![b, c]);
    assert_eq!(peers, vec![a, b, c]);
}

#[test]
fn tx_id_mixing_and_peer_id_shape() {
    // The mix is a fixed function of its inputs.
    assert_eq!(mix_tx_id(0, 0, 0), 0);
    assert_eq!(mix_tx_id(1, 0, 0), 0x9E3779B1);
    assert_eq!(mix_tx_id(0, 0xFFFF0000, 0), 0xFFFF0000);
    assert_eq!(mix_tx_id(0, 0, 1), 0x00010000);
    assert_eq!(
        mix_tx_id(2, 123, 456),
        123 ^ ((456u32 << 16) | (456u32 >> 16)) ^ 2u32.wrapping_mul(0x9E3779B1)
    );

    let id = make_peer_id(0x0102030405060708090A0B0Cu128);
    assert_eq!(id.len(), 20);
    assert_eq!(&id[..8], &b"-RB0001-"[..]);
    // Twelve bytes of the mix, least significant first.
    assert_eq!(&id[8..], &[0x0Cu8, 0x0B, 0x0A, 0x09, 0x08, 0x07, 0x06, 0x05, 0x04, 0x03, 0x02, 0x01][..]);
}
