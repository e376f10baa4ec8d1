use rustorrent::bitfield::{Bitfield, OutOfBoundsError};

#[test]
fn test_bitfield() {
    let mut bitfield = Bitfield::new(10);
    assert_eq!(bitfield.len(), 10);
    assert_eq!(bitfield.is_set(0).unwrap(), false);
    assert_eq!(bitfield.is_set(1).unwrap(), false);
    assert_eq!(bitfield.is_set(2).unwrap(), false);
    assert_eq!(bitfield.is_set(3).unwrap(), false);
    assert_eq!(bitfield.is_set(4).unwrap(), false);
    assert_eq!(bitfield.is_set(5).unwrap(), false);
    assert_eq!(bitfield.is_set(6).unwrap(), false);
    assert_eq!(bitfield.is_set(7).unwrap(), false);
    assert_eq!(bitfield.is_set(8).unwrap(), false);
    assert_eq!(bitfield.is_set(9).unwrap(), false);

    bitfield.set(0, true).unwrap();
    bitfield.set(1, true).unwrap();
    bitfield.set(2, true).unwrap();
    bitfield.set(3, true).unwrap();
    bitfield.set(4, true).unwrap();
    bitfield.set(5, true).unwrap();
    bitfield.set(6, true).unwrap();
    bitfield.set(7, true).unwrap();
    bitfield.set(8, true).unwrap();
    bitfield.set(9, true).unwrap();

    assert_eq!(bitfield.is_set(0).unwrap(), true);
    assert_eq!(bitfield.is_set(1).unwrap(), true);
    assert_eq!(bitfield.is_set(2).unwrap(), true);
    assert_eq!(bitfield.is_set(3).unwrap(), true);
    assert_eq!(bitfield.is_set(4).unwrap(), true);
    assert_eq!(bitfield.is_set(5).unwrap(), true);
    assert_eq!(bitfield.is_set(6).unwrap(), true);
    assert_eq!(bitfield.is_set(7).unwrap(), true);
    assert_eq!(bitfield.is_set(8).unwrap(), true);
    assert_eq!(bitfield.is_set(9).unwrap(), true);

    let bytes = bitfield.to_bytes();
    assert_eq!(bytes, vec![0b11111111, 0b11000000]);

    bitfield.set(7, false).unwrap();
    bitfield.set(3, false).unwrap();

    assert_eq!(
        bitfield.set(23, false),
        Err(OutOfBoundsError { index: 23, len: 10 })
    );

    assert_eq!(
        bitfield.is_set(23),
        Err(OutOfBoundsError { index: 23, len: 10 })
    );

    let bytes = bitfield.to_bytes();
    assert_eq!(bytes, vec![0b11101110, 0b11000000]);
}

#[test]
fn test_bitfield_roundtrip() {
    let mut bitfield = Bitfield::new(11);
    bitfield.set(0, true).unwrap();
    bitfield.set(4, true).unwrap();
    bitfield.set(10, true).unwrap();
    let bytes = bitfield.to_bytes();
    assert_eq!(bytes, vec![0b10001000, 0b00100000]);

    let back = Bitfield::from_bytes(&bytes, 11);
    assert_eq!(back.len(), 11);
    for i in 0..11 {
        assert_eq!(back.is_set(i).unwrap(), bitfield.is_set(i).unwrap());
    }
}

#[test]
fn test_from_bytes_ignores_pad_bits() {
    let bytes = vec![0b10000001u8];
    let bf = Bitfield::from_bytes(&bytes, 4);
    assert_eq!(bf.len(), 4);
    assert_eq!(bf.is_set(0).unwrap(), true);
    assert_eq!(bf.is_set(1).unwrap(), false);
    assert_eq!(bf.is_set(2).unwrap(), false);
    assert_eq!(bf.is_set(3).unwrap(), false);
    // Serializing back zeroes the pad bits.
    assert_eq!(bf.to_bytes(), vec![0b10000000]);
}
