use bit_torrent::bitfield::Bitfield;
use bit_torrent::piece_manager::{PieceManager, PieceManagerError, Request, BLOCK_SIZE};
use bit_torrent::sha1::sha1;

fn two_piece_manager() -> (PieceManager, Vec<u8>, Vec<u8>) {
    // Two pieces of 32768 bytes, two 16 KiB blocks each.
    let piece0: Vec<u8> = (0..32768u32).map(|i| (i % 251) as u8).collect();
    let piece1: Vec<u8> = (0..32768u32).map(|i| (i % 13) as u8).collect();
    let hashes = vec![sha1(&piece0), sha1(&piece1)];
    let pm = PieceManager::new(hashes, 32768, 65536);
    (pm, piece0, piece1)
}

fn full_peer(pieces: usize) -> Bitfield {
    let mut bf = Bitfield::new(pieces);
    for i in 0..pieces {
        bf.set(i, true).unwrap();
    }
    bf
}

#[test]
fn interleaved_blocks_complete_both_pieces() {
    // Deliver the four blocks in every possible interleaving; each run
    // completes both pieces with no verification error.
    let blocks = [(0usize, 0usize), (0, 1), (1, 0), (1, 1)];
    let mut orders: Vec<Vec<(usize, usize)>> = Vec::new();
    for a in 0..4 {
        for b in 0..4 {
            for c in 0..4 {
                for d in 0..4 {
                    if a != b && a != c && a != d && b != c && b != d && c != d {
                        orders.push(vec![blocks[a], blocks[b], blocks[c], blocks[d]]);
                    }
                }
            }
        }
    }
    assert_eq!(orders.len(), 24);
    for order in orders {
        let (mut pm, piece0, piece1) = two_piece_manager();
        let data = [&piece0, &piece1];
        let mut completed = 0;
        for (piece, block) in order {
            let begin = block * BLOCK_SIZE;
            let bytes = &data[piece][begin..begin + BLOCK_SIZE];
            match pm.add_block(piece, begin, bytes).unwrap() {
                Some(full) => {
                    assert_eq!(&full, data[piece]);
                    completed += 1;
                }
                None => {}
            }
        }
        assert_eq!(completed, 2);
        assert!(pm.piece_complete(0).unwrap());
        assert!(pm.piece_complete(1).unwrap());
        assert_eq!(pm.have_bitfield().count_ones(), 2);
    }
}

#[test]
fn corrupted_block_resets_only_that_piece() {
    let (mut pm, piece0, piece1) = two_piece_manager();

    // Complete piece 1 first.
    assert_eq!(pm.add_block(1, 0, &piece1[..BLOCK_SIZE]).unwrap(), None);
    assert!(pm.add_block(1, BLOCK_SIZE, &piece1[BLOCK_SIZE..]).unwrap().is_some());

    // Corrupt one byte of piece 0's first block, then deliver the final
    // block: verification fails and only piece 0 resets.
    let mut bad = piece0[..BLOCK_SIZE].to_vec();
    bad[100] ^= 0xFF;
    assert_eq!(pm.add_block(0, 0, &bad).unwrap(), None);
    assert_eq!(
        pm.add_block(0, BLOCK_SIZE, &piece0[BLOCK_SIZE..]),
        Err(PieceManagerError::VerificationFailed)
    );
    assert!(!pm.piece_complete(0).unwrap());
    assert!(pm.piece_complete(1).unwrap());

    // After the reset the piece can be downloaded again and verifies.
    assert_eq!(pm.add_block(0, 0, &piece0[..BLOCK_SIZE]).unwrap(), None);
    let full = pm.add_block(0, BLOCK_SIZE, &piece0[BLOCK_SIZE..]).unwrap();
    assert_eq!(full.unwrap(), piece0);
    assert!(pm.piece_complete(0).unwrap());
}

#[test]
fn next_request_never_repeats_and_exhausts() {
    let (mut pm, _p0, _p1) = two_piece_manager();
    let peer = full_peer(2);
    let mut seen: Vec<Request> = Vec::new();
    loop {
        match pm.next_request(&peer, BLOCK_SIZE) {
            Some(req) => {
                // Never an already-requested block.
                assert!(!seen.contains(&req), "repeated request {:?}", req);
                assert_eq!(req.length, BLOCK_SIZE);
                assert_eq!(req.begin % BLOCK_SIZE, 0);
                seen.push(req);
            }
            None => break,
        }
    }
    // All four blocks were handed out exactly once, then None.
    assert_eq!(seen.len(), 4);
    assert!(pm.next_request(&peer, BLOCK_SIZE).is_none());
}

#[test]
fn next_request_skips_downloaded_blocks_and_absent_peers() {
    let (mut pm, piece0, _p1) = two_piece_manager();
    // Peer only has piece 0.
    let mut peer = Bitfield::new(2);
    peer.set(0, true).unwrap();

    // Block 0 of piece 0 already downloaded: the first request must be
    // block 1 of piece 0.
    assert_eq!(pm.add_block(0, 0, &piece0[..BLOCK_SIZE]).unwrap(), None);
    let req = pm.next_request(&peer, 4096).unwrap();
    assert_eq!(req.piece_index, 0);
    assert_eq!(req.begin, BLOCK_SIZE);
    // Capped by max_request_size.
    assert_eq!(req.length, 4096);
    // Nothing else the peer can offer.
    assert!(pm.next_request(&peer, 4096).is_none());
}

#[test]
fn mark_requested_validates_bounds() {
    let (mut pm, _p0, _p1) = two_piece_manager();
    assert_eq!(pm.mark_requested(2, 0), Err(PieceManagerError::InvalidPieceIndex));
    assert_eq!(pm.mark_requested(0, 5 * BLOCK_SIZE), Err(PieceManagerError::InvalidBlockOffset));
    assert_eq!(pm.mark_requested(0, BLOCK_SIZE), Ok(()));
    // The marked block is no longer offered.
    let peer = full_peer(2);
    let req = pm.next_request(&peer, BLOCK_SIZE).unwrap();
    assert_eq!((req.piece_index, req.begin), (0, 0));
    let req2 = pm.next_request(&peer, BLOCK_SIZE).unwrap();
    assert_eq!(req2.piece_index, 1);
}

#[test]
fn add_block_validates_arguments() {
    let (mut pm, piece0, _p1) = two_piece_manager();
    assert_eq!(
        pm.add_block(9, 0, &piece0[..BLOCK_SIZE]),
        Err(PieceManagerError::InvalidPieceIndex)
    );
    assert_eq!(
        pm.add_block(0, 7, &piece0[..BLOCK_SIZE]),
        Err(PieceManagerError::InvalidBlockOffset)
    );
    assert_eq!(
        pm.add_block(0, 4 * BLOCK_SIZE, &piece0[..BLOCK_SIZE]),
        Err(PieceManagerError::InvalidBlockOffset)
    );
    assert_eq!(pm.add_block(0, 0, &piece0[..100]), Err(PieceManagerError::InvalidBlockSize));
}

#[test]
fn mark_have_from_data_verifies_before_marking() {
    let (mut pm, piece0, piece1) = two_piece_manager();
    assert_eq!(
        pm.mark_have_from_data(5, &piece0),
        Err(PieceManagerError::InvalidPieceIndex)
    );
    assert_eq!(
        pm.mark_have_from_data(0, &piece0[..100]),
        Err(PieceManagerError::InvalidBlockSize)
    );
    // Right length, wrong content.
    assert_eq!(
        pm.mark_have_from_data(0, &piece1),
        Err(PieceManagerError::VerificationFailed)
    );
    assert!(!pm.piece_complete(0).unwrap());
    assert_eq!(pm.mark_have_from_data(0, &piece0), Ok(()));
    assert!(pm.piece_complete(0).unwrap());
    // A seeded piece is no longer interesting.
    let peer = full_peer(2);
    assert_eq!(pm.interesting_pieces(&peer), vec![1]);
}

#[test]
fn last_piece_may_be_shorter() {
    // 40000 bytes with 16384-byte pieces: lengths 16384, 16384, 7232.
    let p0 = vec![1u8; 16384];
    let p1 = vec![2u8; 16384];
    let p2 = vec![3u8; 7232];
    let hashes = vec![sha1(&p0), sha1(&p1), sha1(&p2)];
    let mut pm = PieceManager::new(hashes, 16384, 40000);
    assert_eq!(pm.pieces_count(), 3);
    // The last piece is one short block of 7232 bytes.
    let peer = full_peer(3);
    pm.mark_have_from_data(0, &p0).unwrap();
    pm.mark_have_from_data(1, &p1).unwrap();
    let req = pm.next_request(&peer, BLOCK_SIZE).unwrap();
    assert_eq!((req.piece_index, req.begin, req.length), (2, 0, 7232));
    // Wrong-size final block rejected.
    assert_eq!(pm.add_block(2, 0, &p2[..100]), Err(PieceManagerError::InvalidBlockSize));
    assert_eq!(pm.add_block(2, 0, &p2).unwrap().unwrap(), p2);
    assert_eq!(pm.have_bitfield().count_ones(), 3);
}
