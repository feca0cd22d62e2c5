use pgvector::{CodecError, Vector};

fn bits(v: &[f32]) -> Vec<u32> {
    v.iter().map(|x| x.to_bits()).collect()
}

fn floats(v: &[u32]) -> Vec<f32> {
    v.iter().map(|x| f32::from_bits(*x)).collect()
}

#[test]
fn vector_test_into() {
    let vec = Vector::from(bits(&[1.0, 2.0, 3.0]));
    let f32_vec: Vec<u32> = vec.into();
    assert_eq!(floats(&f32_vec), vec![1.0, 2.0, 3.0]);
}

#[test]
fn vector_test_to_vec() {
    let vec = Vector::from(bits(&[1.0, 2.0, 3.0]));
    assert_eq!(floats(&vec.to_vec()), vec![1.0, 2.0, 3.0]);
}

#[test]
fn vector_test_as_slice() {
    let vec = Vector::from(bits(&[1.0, 2.0, 3.0]));
    assert_eq!(floats(vec.as_slice()), &[1.0, 2.0, 3.0]);
}

#[test]
fn vector_encode_three_elements() {
    let vec = Vector::from(bits(&[1.0, 2.0, 3.0]));
    assert_eq!(
        Ok(vec![
            0x00, 0x03, 0x00, 0x00, 0x3f, 0x80, 0x00, 0x00, 0x40, 0x00, 0x00, 0x00, 0x40, 0x40,
            0x00, 0x00
        ]),
        vec.to_sql()
    );
}

#[test]
fn vector_encode_empty() {
    assert_eq!(Err(CodecError::EmptyVector), Vector::from(vec![]).to_sql());
}

#[test]
fn vector_encode_too_long() {
    let vec = Vector::from(vec![0; 65536]);
    assert_eq!(Err(CodecError::DimensionOverflow), vec.to_sql());
}

#[test]
fn vector_encode_longest() {
    let vec = Vector::from(vec![7; 65535]);
    let encoded = vec.to_sql().unwrap();
    assert_eq!(4 + 4 * 65535, encoded.len());
    assert_eq!(&[0xff, 0xff, 0x00, 0x00], &encoded[..4]);
    assert_eq!(vec, Vector::from_sql(&encoded).unwrap());
}

#[test]
fn vector_round_trip_is_bit_exact() {
    let vec = Vector::from(vec![0x7fc0_1234, 0x8000_0000, 0x0000_0000, 0xff80_0000, 0x3f80_0000]);
    let decoded = Vector::from_sql(&vec.to_sql().unwrap()).unwrap();
    assert_eq!(vec.to_vec(), decoded.to_vec());
}

#[test]
fn vector_decode_reserved_nonzero() {
    let buf = [0x00, 0x01, 0x00, 0x01, 0x3f, 0x80, 0x00, 0x00];
    assert_eq!(Err(CodecError::ReservedFieldNonZero), Vector::from_sql(&buf));
}

#[test]
fn vector_decode_truncated() {
    assert_eq!(Err(CodecError::TruncatedInput), Vector::from_sql(&[0x00, 0x01, 0x00]));
    let buf = [0x00, 0x02, 0x00, 0x00, 0x3f, 0x80, 0x00, 0x00, 0x40];
    assert_eq!(Err(CodecError::TruncatedInput), Vector::from_sql(&buf));
}

#[test]
fn vector_decode_zero_dimensions() {
    assert_eq!(Err(CodecError::EmptyVector), Vector::from_sql(&[0, 0, 0, 0]));
}

#[test]
fn vector_decode_ignores_trailing_bytes() {
    let buf = [0x00, 0x01, 0x00, 0x00, 0x40, 0x40, 0x00, 0x00, 0xaa];
    let decoded = Vector::from_sql(&buf).unwrap();
    assert_eq!(floats(decoded.as_slice()), vec![3.0]);
}
