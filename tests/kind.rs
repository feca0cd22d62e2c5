use pgvector::{DistanceOperator, VectorKind};

#[test]
fn kind_sql_names() {
    assert_eq!("vector", VectorKind::Vector.sql_name());
    assert_eq!("halfvec", VectorKind::HalfVector.sql_name());
    assert_eq!("sparsevec", VectorKind::SparseVector.sql_name());
    assert_eq!("bit", VectorKind::Bit.sql_name());
    assert_eq!("_vector", VectorKind::Vector.array_sql_name());
    assert_eq!("_halfvec", VectorKind::HalfVector.array_sql_name());
    assert_eq!("_sparsevec", VectorKind::SparseVector.array_sql_name());
    assert_eq!("_bit", VectorKind::Bit.array_sql_name());
}

#[test]
fn kind_from_sql_name() {
    assert_eq!(Some(VectorKind::Vector), VectorKind::from_sql_name("vector"));
    assert_eq!(Some(VectorKind::HalfVector), VectorKind::from_sql_name("halfvec"));
    assert_eq!(Some(VectorKind::SparseVector), VectorKind::from_sql_name("sparsevec"));
    assert_eq!(Some(VectorKind::Bit), VectorKind::from_sql_name("bit"));
    assert_eq!(None, VectorKind::from_sql_name("vectors"));
    assert_eq!(None, VectorKind::from_sql_name("Vector"));
    assert_eq!(None, VectorKind::from_sql_name(""));
}

#[test]
fn operator_symbols() {
    assert_eq!("<->", DistanceOperator::L2.symbol());
    assert_eq!("<#>", DistanceOperator::MaxInnerProduct.symbol());
    assert_eq!("<=>", DistanceOperator::Cosine.symbol());
    assert_eq!("<+>", DistanceOperator::L1.symbol());
    assert_eq!("<~>", DistanceOperator::Hamming.symbol());
    assert_eq!("<%>", DistanceOperator::Jaccard.symbol());
}

#[test]
fn operator_operand_kinds() {
    assert!(DistanceOperator::Hamming.applies_to(VectorKind::Bit));
    assert!(!DistanceOperator::Hamming.applies_to(VectorKind::Vector));
    assert!(DistanceOperator::Jaccard.applies_to(VectorKind::Bit));
    assert!(DistanceOperator::L2.applies_to(VectorKind::SparseVector));
    assert!(!DistanceOperator::Cosine.applies_to(VectorKind::Bit));
    assert_eq!(
        Some(VectorKind::HalfVector),
        DistanceOperator::L1.operand_kind(VectorKind::HalfVector, VectorKind::HalfVector)
    );
    assert_eq!(
        None,
        DistanceOperator::L2.operand_kind(VectorKind::Vector, VectorKind::HalfVector)
    );
    assert_eq!(None, DistanceOperator::Jaccard.operand_kind(VectorKind::Vector, VectorKind::Vector));
}
