use bit_torrent::bitfield::Bitfield;

#[test]
fn basic_set_get() {
    let mut bf = Bitfield::new(10);
    assert_eq!(bf.len(), 10);
    for i in 0..10 {
        assert_eq!(bf.get(i).unwrap(), false);
    }

    bf.set(0, true).unwrap();
    bf.set(3, true).unwrap();
    bf.set(9, true).unwrap();

    assert_eq!(bf.get(0).unwrap(), true);
    assert_eq!(bf.get(1).unwrap(), false);
    assert_eq!(bf.get(3).unwrap(), true);
    assert_eq!(bf.get(9).unwrap(), true);
    assert_eq!(bf.count_ones(), 3);
}

#[test]
fn to_from_bytes_roundtrip() {
    let mut bf = Bitfield::new(13); // requires 2 bytes, 13 bits
    bf.set(0, true).unwrap();
    bf.set(7, true).unwrap(); // last bit of first byte
    bf.set(8, true).unwrap(); // first bit of second byte
    bf.set(12, true).unwrap(); // bit index 12

    let bytes = bf.to_bytes();
    let bf2 = Bitfield::from_bytes(&bytes, 13).unwrap();
    assert_eq!(bf, bf2);

    // Ensure unused low-order bits in last byte are zero
    let last = bytes[bytes.len() - 1];
    let unused_bits = 8 - (13 % 8); // 8 - 5 = 3 unused bits
    assert_eq!(last & ((1 << unused_bits) - 1), 0);
}

#[test]
fn from_bytes_too_short() {
    let res = Bitfield::from_bytes(&[0u8], 9); // needs 2 bytes
    assert!(res.is_err());
}

#[test]
fn out_of_bounds() {
    let mut bf = Bitfield::new(5);
    assert!(bf.set(5, true).is_err());
    assert!(bf.get(5).is_err());
}

#[test]
fn from_bytes_clears_unused_bits() {
    // 5 pieces in one byte: the low 3 bits of the wire byte are noise and
    // must come back cleared.
    let bf = Bitfield::from_bytes(&[0b1010_1111u8], 5).unwrap();
    assert_eq!(bf.get(0).unwrap(), true);
    assert_eq!(bf.get(1).unwrap(), false);
    assert_eq!(bf.get(2).unwrap(), true);
    assert_eq!(bf.get(3).unwrap(), false);
    assert_eq!(bf.get(4).unwrap(), true);
    assert_eq!(bf.to_bytes(), vec![0b1010_1000u8]);
    assert_eq!(bf.count_ones(), 3);
}

#[test]
fn roundtrip_non_multiple_of_eight_lengths() {
    for n in 0..20 {
        let mut bf = Bitfield::new(n);
        for i in (0..n).step_by(3) {
            bf.set(i, true).unwrap();
        }
        let bytes = bf.to_bytes();
        assert_eq!(bytes.len(), (n + 7) / 8);
        let bf2 = Bitfield::from_bytes(&bytes, n).unwrap();
        assert_eq!(bf, bf2);
    }
}

#[test]
fn has_reports_out_of_range_as_absent() {
    let mut bf = Bitfield::new(3);
    bf.set(1, true).unwrap();
    assert!(!bf.has(0));
    assert!(bf.has(1));
    assert!(!bf.has(3));
    assert!(!bf.has(100));
    assert!(bf.is_empty() == false);
    assert!(Bitfield::new(0).is_empty());
}
