use pgvector::{Bit, CodecError};

#[test]
fn test_from_bytes() {
    let vec = Bit::from_bytes(&[0b00000000, 0b11111111]);
    assert_eq!(16, vec.len());
    assert_eq!(&[0b00000000, 0b11111111], vec.as_bytes());
}

#[test]
fn test_as_bytes() {
    let vec = Bit::new(&[true, false, true]);
    assert_eq!(3, vec.len());
    assert_eq!(&[0b10100000], vec.as_bytes());
}

#[test]
fn test_is_empty() {
    let vec = Bit::new(&[]);
    assert_eq!(0, vec.len());
    assert!(vec.is_empty());
}

#[test]
fn bit_new_packs_across_bytes() {
    let vec = Bit::new(&[
        true, false, true, false, false, false, false, false, false, true,
    ]);
    assert_eq!(10, vec.len());
    assert!(!vec.is_empty());
    assert_eq!(&[0b10100000, 0b01000000], vec.as_bytes());
}

#[test]
fn bit_three_bits_encode() {
    let vec = Bit::new(&[true, false, true]);
    assert_eq!(Ok(vec![0, 0, 0, 3, 0b10100000]), vec.to_sql());
}

#[test]
fn bit_bytes_round_trip() {
    let bytes = [0x00, 0xff, 0x5a, 0x81];
    let encoded = Bit::from_bytes(&bytes).to_sql().unwrap();
    assert_eq!(vec![0, 0, 0, 32, 0x00, 0xff, 0x5a, 0x81], encoded);
    let decoded = Bit::from_sql(&encoded).unwrap();
    assert_eq!(32, decoded.len());
    assert_eq!(&bytes, decoded.as_bytes());
}

#[test]
fn bit_empty_round_trip() {
    let encoded = Bit::from_bytes(&[]).to_sql().unwrap();
    assert_eq!(vec![0, 0, 0, 0], encoded);
    let decoded = Bit::from_sql(&encoded).unwrap();
    assert!(decoded.is_empty());
    assert_eq!(0, decoded.as_bytes().len());
}

#[test]
fn bit_decode_partial_byte() {
    let decoded = Bit::from_sql(&[0, 0, 0, 10, 0b10100000, 0b01000000, 0xee]).unwrap();
    assert_eq!(10, decoded.len());
    assert_eq!(&[0b10100000, 0b01000000], decoded.as_bytes());
    assert_eq!(decoded, Bit::new(&[
        true, false, true, false, false, false, false, false, false, true,
    ]));
}

#[test]
fn bit_decode_short_header() {
    assert_eq!(Err(CodecError::TruncatedInput), Bit::from_sql(&[0, 0, 0]));
}

#[test]
fn bit_decode_short_body() {
    assert_eq!(Err(CodecError::TruncatedInput), Bit::from_sql(&[0, 0, 0, 9, 0xff]));
}

#[test]
fn bit_decode_negative_length() {
    assert_eq!(Err(CodecError::NegativeLength), Bit::from_sql(&[0xff, 0xff, 0xff, 0xff]));
}

#[test]
fn bit_clone_keeps_bits() {
    let vec = Bit::new(&[true, true, false, true]);
    let copy = vec.clone();
    assert_eq!(vec, copy);
    assert_eq!(&[0b11010000], copy.as_bytes());
}
