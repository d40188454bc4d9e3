use bit_torrent::connection::{validate_remote_handshake, ConnectionError};
use bit_torrent::handshake::Handshake;
use bit_torrent::message::{Message, MessageError};

fn decode_frame(frame: &[u8]) -> Message {
    // A frame is a 4-byte big-endian length prefix and the body it counts.
    assert!(frame.len() >= 4);
    let len = u32::from_be_bytes([frame[0], frame[1], frame[2], frame[3]]) as usize;
    assert_eq!(frame.len(), 4 + len);
    Message::from_bytes(&frame[4..]).unwrap()
}

#[test]
fn message_round_trip_every_variant() {
    let max_block = vec![0xAB; 16384];
    let cases = vec![
        Message::KeepAlive,
        Message::Choke,
        Message::Unchoke,
        Message::Interested,
        Message::NotInterested,
        Message::Have(0x01020304),
        Message::Bitfield(Vec::new()),
        Message::Bitfield(vec![0b1010_0000, 0xFF]),
        Message::Request { index: 1, begin: 16384, length: 16384 },
        Message::Piece { index: 7, begin: 32768, block: max_block },
        Message::Piece { index: 0, begin: 0, block: vec![9] },
        Message::Cancel { index: 3, begin: 4, length: 5 },
        Message::Port(6881),
        Message::Extension(vec![0, 1, 2]),
    ];
    for m in cases {
        let encoded = m.to_bytes();
        let decoded = decode_frame(&encoded);
        assert_eq!(decoded, m);
    }
}

#[test]
fn message_wire_layout() {
    assert_eq!(Message::KeepAlive.to_bytes(), vec![0, 0, 0, 0]);
    assert_eq!(Message::Choke.to_bytes(), vec![0, 0, 0, 1, 0]);
    assert_eq!(Message::Have(2).to_bytes(), vec![0, 0, 0, 5, 4, 0, 0, 0, 2]);
    assert_eq!(
        Message::Request { index: 1, begin: 2, length: 3 }.to_bytes(),
        vec![0, 0, 0, 13, 6, 0, 0, 0, 1, 0, 0, 0, 2, 0, 0, 0, 3]
    );
    assert_eq!(Message::Port(0x1A2B).to_bytes(), vec![0, 0, 0, 3, 9, 0x1A, 0x2B]);
}

#[test]
fn message_decode_rejects_bad_payload_sizes() {
    // Each wrong shape gets its named error.
    assert_eq!(Message::from_bytes(&[4, 0, 0, 0]), Err(MessageError::HavePayloadSize));
    assert_eq!(Message::from_bytes(&[6, 0, 0]), Err(MessageError::RequestPayloadSize));
    assert_eq!(Message::from_bytes(&[7, 1, 2, 3]), Err(MessageError::PiecePayloadTooSmall));
    assert_eq!(Message::from_bytes(&[8, 0, 0, 0, 0]), Err(MessageError::CancelPayloadSize));
    assert_eq!(Message::from_bytes(&[9, 1]), Err(MessageError::PortPayloadSize));
    assert_eq!(Message::from_bytes(&[10]), Err(MessageError::UnknownId(10)));
    assert_eq!(Message::from_bytes(&[19, 1, 2]), Err(MessageError::UnknownId(19)));
    // An empty body is a keep-alive; id 20 is opaque extension payload.
    assert_eq!(Message::from_bytes(&[]), Ok(Message::KeepAlive));
    assert_eq!(Message::from_bytes(&[20, 9, 9]), Ok(Message::Extension(vec![9, 9])));
}

#[test]
fn handshake_round_trip_is_68_bytes() {
    let hs = Handshake::new(vec![7u8; 20], vec![9u8; 20]);
    let bytes = hs.to_bytes();
    assert_eq!(bytes.len(), 68);
    assert_eq!(bytes[0], 19);
    assert_eq!(&bytes[1..20], &b"BitTorrent protocol"[..]);
    let back = Handshake::from_bytes(&bytes).unwrap();
    assert_eq!(back, hs);
}

#[test]
fn handshake_rejects_truncation_before_declared_pstr_len() {
    let hs = Handshake::new(vec![1u8; 20], vec![2u8; 20]);
    let bytes = hs.to_bytes();
    // Truncated before the declared pstr length is read in full.
    assert!(Handshake::from_bytes(&bytes[..10]).is_err());
    // Truncated anywhere before the full 68 bytes.
    assert!(Handshake::from_bytes(&bytes[..67]).is_err());
    assert!(Handshake::from_bytes(&[]).is_err());
    // A declared pstr length the buffer cannot hold.
    let mut big = bytes.clone();
    big[0] = 200;
    assert!(Handshake::from_bytes(&big).is_err());
}

#[test]
fn connection_rejects_mismatched_info_hash() {
    let expected = vec![7u8; 20];
    let other = vec![8u8; 20];
    let good = Handshake::new(expected.clone(), vec![1u8; 20]).to_bytes();
    let bad = Handshake::new(other, vec![1u8; 20]).to_bytes();

    let ok = validate_remote_handshake(&good, &expected).unwrap();
    assert_eq!(ok.peer_id, vec![1u8; 20]);

    // Structurally valid handshake, wrong info hash: rejected as a
    // handshake error.
    match validate_remote_handshake(&bad, &expected) {
        Err(ConnectionError::Handshake(_)) => {}
        other => panic!("expected handshake rejection, got {:?}", other),
    }
}
