use pgvector::{CodecError, SparseVector};
use std::collections::{BTreeMap, HashMap};

fn bits(v: &[f32]) -> Vec<u32> {
    v.iter().map(|x| x.to_bits()).collect()
}

fn floats(v: &[u32]) -> Vec<f32> {
    v.iter().map(|x| f32::from_bits(*x)).collect()
}

#[test]
fn test_from_dense() {
    let vec = SparseVector::from_dense(&bits(&[1.0, 0.0, 2.0, 0.0, 3.0, 0.0]));
    assert_eq!(vec![1.0, 0.0, 2.0, 0.0, 3.0, 0.0], floats(&vec.to_vec()));
    assert_eq!(6, vec.dimensions());
    assert_eq!(&[0, 2, 4], vec.indices());
    assert_eq!(&[1.0, 2.0, 3.0], floats(vec.values()).as_slice());
}

#[test]
fn test_from_hash_map() {
    let map = HashMap::from([(0, 1.0), (2, 2.0), (4, 3.0)]);
    let entries: Vec<(usize, u32)> = map.iter().map(|(i, v): (&usize, &f32)| (*i, v.to_bits())).collect();
    let vec = SparseVector::from_map(&entries, 6).unwrap();
    assert_eq!(vec![1.0, 0.0, 2.0, 0.0, 3.0, 0.0], floats(&vec.to_vec()));
    assert_eq!(6, vec.dimensions());
    assert_eq!(&[0, 2, 4], vec.indices());
    assert_eq!(&[1.0, 2.0, 3.0], floats(vec.values()).as_slice());
}

#[test]
fn test_from_btree_map() {
    let map = BTreeMap::from([(0, 1.0), (2, 2.0), (4, 3.0)]);
    let entries: Vec<(usize, u32)> = map.iter().map(|(i, v): (&usize, &f32)| (*i, v.to_bits())).collect();
    let vec = SparseVector::from_map(&entries, 6).unwrap();
    assert_eq!(vec![1.0, 0.0, 2.0, 0.0, 3.0, 0.0], floats(&vec.to_vec()));
    assert_eq!(6, vec.dimensions());
    assert_eq!(&[0, 2, 4], vec.indices());
    assert_eq!(&[1.0, 2.0, 3.0], floats(vec.values()).as_slice());
}

#[test]
fn test_from_vec_map() {
    let vec = vec![(0, 1.0), (2, 2.0), (4, 3.0)];
    let map: Vec<(usize, u32)> = vec.iter().map(|v: &(usize, f32)| (v.0, v.1.to_bits())).collect();
    let vec = SparseVector::from_map(&map, 6).unwrap();
    assert_eq!(vec![1.0, 0.0, 2.0, 0.0, 3.0, 0.0], floats(&vec.to_vec()));
    assert_eq!(6, vec.dimensions());
    assert_eq!(&[0, 2, 4], vec.indices());
    assert_eq!(&[1.0, 2.0, 3.0], floats(vec.values()).as_slice());
}

#[test]
fn sparse_from_dense_five() {
    let vec = SparseVector::from_dense(&bits(&[1.0, 0.0, 2.0, 0.0, 3.0]));
    assert_eq!(5, vec.dimensions());
    assert_eq!(&[0, 2, 4], vec.indices());
    assert_eq!(vec![1.0, 2.0, 3.0], floats(vec.values()));
    assert_eq!(vec![1.0, 0.0, 2.0, 0.0, 3.0], floats(&vec.to_vec()));
}

#[test]
fn sparse_from_dense_drops_negative_zero_keeps_nan() {
    let vec = SparseVector::from_dense(&[0x8000_0000, 0x7fc0_0000, 0x0000_0000, 0xbf80_0000]);
    assert_eq!(4, vec.dimensions());
    assert_eq!(&[1, 3], vec.indices());
    assert_eq!(&[0x7fc0_0000, 0xbf80_0000], vec.values());
    assert_eq!(vec![0, 0x7fc0_0000, 0, 0xbf80_0000], vec.to_vec());
}

#[test]
fn sparse_dense_round_trip() {
    let dense = bits(&[0.5, 0.0, -1.5, 0.0, 0.0, 8.0]);
    assert_eq!(dense, SparseVector::from_dense(&dense).to_vec());
}

#[test]
fn sparse_from_dense_empty() {
    let vec = SparseVector::from_dense(&[]);
    assert_eq!(0, vec.dimensions());
    assert!(vec.indices().is_empty());
    assert!(vec.to_vec().is_empty());
}

#[test]
fn sparse_from_map_sorts_and_drops_zeros() {
    let entries = [(4, 3.0f32.to_bits()), (1, 0.0f32.to_bits()), (0, 1.0f32.to_bits()), (2, 2.0f32.to_bits())];
    let vec = SparseVector::from_map(&entries, 5).unwrap();
    assert_eq!(5, vec.dimensions());
    assert_eq!(&[0, 2, 4], vec.indices());
    assert_eq!(vec![1.0, 2.0, 3.0], floats(vec.values()));
}

#[test]
fn sparse_from_map_duplicate_index() {
    let entries = [(2, 1.0f32.to_bits()), (0, 1.0f32.to_bits()), (2, 5.0f32.to_bits())];
    assert_eq!(Err(CodecError::InvalidSparseLayout), SparseVector::from_map(&entries, 5));
}

#[test]
fn sparse_from_map_index_out_of_range() {
    let entries = [(0, 1.0f32.to_bits()), (5, 1.0f32.to_bits())];
    assert_eq!(Err(CodecError::InvalidSparseLayout), SparseVector::from_map(&entries, 5));
}

#[test]
fn sparse_from_map_ignores_zero_entries_when_validating() {
    let entries = [(7, 0.0f32.to_bits()), (1, 2.0f32.to_bits()), (1, (-0.0f32).to_bits())];
    let vec = SparseVector::from_map(&entries, 3).unwrap();
    assert_eq!(&[1], vec.indices());
    assert_eq!(vec![0.0, 2.0, 0.0], floats(&vec.to_vec()));
}

#[test]
fn sparse_encode_layout() {
    let vec = SparseVector::from_dense(&bits(&[1.0, 0.0, 2.0, 0.0, 3.0]));
    assert_eq!(
        Ok(vec![
            0, 0, 0, 5, 0, 0, 0, 3, 0, 0, 0, 0, 0, 0, 0, 0, 0, 0, 0, 2, 0, 0, 0, 4, 0x3f, 0x80, 0,
            0, 0x40, 0, 0, 0, 0x40, 0x40, 0, 0
        ]),
        vec.to_sql()
    );
}

#[test]
fn sparse_encode_full_is_rejected() {
    let vec = SparseVector::from_dense(&bits(&[1.0, 2.0, 3.0]));
    assert_eq!(3, vec.indices().len());
    assert_eq!(Err(CodecError::InvalidSparseLayout), vec.to_sql());
}

#[test]
fn sparse_round_trip() {
    let vec = SparseVector::from_dense(&bits(&[0.0, -2.5, 0.0, 0.0, 7.0, 0.0, 0.0]));
    let decoded = SparseVector::from_sql(&vec.to_sql().unwrap()).unwrap();
    assert_eq!(vec, decoded.clone());
    assert_eq!(vec.to_vec(), decoded.to_vec());
}

#[test]
fn sparse_decode_errors() {
    assert_eq!(Err(CodecError::TruncatedInput), SparseVector::from_sql(&[0; 11]));
    let reserved = [0, 0, 0, 5, 0, 0, 0, 0, 0, 0, 0, 1];
    assert_eq!(Err(CodecError::ReservedFieldNonZero), SparseVector::from_sql(&reserved));
    let full = [0, 0, 0, 1, 0, 0, 0, 1, 0, 0, 0, 0, 0, 0, 0, 0, 0x3f, 0x80, 0, 0];
    assert_eq!(Err(CodecError::InvalidSparseLayout), SparseVector::from_sql(&full));
    let negative_dim = [0xff, 0xff, 0xff, 0xff, 0, 0, 0, 0, 0, 0, 0, 0];
    assert_eq!(Err(CodecError::InvalidSparseLayout), SparseVector::from_sql(&negative_dim));
    let short = [0, 0, 0, 5, 0, 0, 0, 1, 0, 0, 0, 0, 0, 0, 0, 2];
    assert_eq!(Err(CodecError::TruncatedInput), SparseVector::from_sql(&short));
}

#[test]
fn sparse_decode_bad_indices() {
    let unsorted = [
        0, 0, 0, 5, 0, 0, 0, 2, 0, 0, 0, 0, 0, 0, 0, 3, 0, 0, 0, 1, 0x3f, 0x80, 0, 0, 0x40, 0, 0, 0,
    ];
    assert_eq!(Err(CodecError::InvalidSparseLayout), SparseVector::from_sql(&unsorted));
    let repeated = [
        0, 0, 0, 5, 0, 0, 0, 2, 0, 0, 0, 0, 0, 0, 0, 1, 0, 0, 0, 1, 0x3f, 0x80, 0, 0, 0x40, 0, 0, 0,
    ];
    assert_eq!(Err(CodecError::InvalidSparseLayout), SparseVector::from_sql(&repeated));
    let outside = [
        0, 0, 0, 5, 0, 0, 0, 1, 0, 0, 0, 0, 0, 0, 0, 5, 0x3f, 0x80, 0, 0,
    ];
    assert_eq!(Err(CodecError::InvalidSparseLayout), SparseVector::from_sql(&outside));
}

#[test]
fn sparse_decode_valid() {
    let buf = [
        0, 0, 0, 5, 0, 0, 0, 2, 0, 0, 0, 0, 0, 0, 0, 1, 0, 0, 0, 3, 0x3f, 0x80, 0, 0, 0x40, 0, 0, 0,
    ];
    let vec = SparseVector::from_sql(&buf).unwrap();
    assert_eq!(5, vec.dimensions());
    assert_eq!(&[1, 3], vec.indices());
    assert_eq!(vec![0.0, 1.0, 0.0, 2.0, 0.0], floats(&vec.to_vec()));
}
