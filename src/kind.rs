//! The column kinds by their database type names, and the distance operators
//! that a query may apply to two operands of one kind.
use vstd::prelude::*;
use vstd::string::StrSliceExecFns;

verus! {

/// A column kind; each has its own binary form.
#[derive(Clone, Copy, Debug, PartialEq, Eq, Structural)]
pub enum VectorKind {
    Vector,
    HalfVector,
    SparseVector,
    Bit,
}

/// The database type name of a kind.
pub open spec fn sql_name_of(k: VectorKind) -> Seq<char> {
    match k {
        VectorKind::Vector => seq!['v', 'e', 'c', 't', 'o', 'r'],
        VectorKind::HalfVector => seq!['h', 'a', 'l', 'f', 'v', 'e', 'c'],
        VectorKind::SparseVector => seq!['s', 'p', 'a', 'r', 's', 'e', 'v', 'e', 'c'],
        VectorKind::Bit => seq!['b', 'i', 't'],
    }
}

/// The database type name of an array of a kind: the type name after `_`.
pub open spec fn array_sql_name_of(k: VectorKind) -> Seq<char> {
    seq!['_'] + sql_name_of(k)
}

/// Whether `a` and `b` hold the same characters.
fn same_chars(a: &str, b: &str) -> (r: bool)
    ensures
        r == (a@ == b@),
{
    let n = a.unicode_len();
    if n != b.unicode_len() {
        return false;
    }
    let mut i: usize = 0;
    while i < n
        invariant
            n == a@.len(),
            n == b@.len(),
            i <= n,
            forall|j: int| 0 <= j < i ==> a@[j] == b@[j],
        decreases n - i,
    {
        if a.get_char(i) != b.get_char(i) {
            return false;
        }
        i += 1;
    }
    proof {
        assert(a@ =~= b@);
    }
    true
}

/// Different kinds have different database type names.
proof fn lemma_sql_names_distinct()
    ensures
        forall|a: VectorKind, b: VectorKind|
            #[trigger] sql_name_of(a) == #[trigger] sql_name_of(b) ==> a == b,
{
    assert forall|a: VectorKind, b: VectorKind|
        #[trigger] sql_name_of(a) == #[trigger] sql_name_of(b) implies a == b by {
        assert(sql_name_of(a).len() == sql_name_of(b).len());
    }
}

impl VectorKind {
    /// The database type name.
    pub fn sql_name(self) -> (r: &'static str)
        ensures
            r@ == sql_name_of(self),
    {
        match self {
            VectorKind::Vector => {
                let r = "vector";
                proof {
                    reveal_strlit("vector");
                    assert(r@ =~= sql_name_of(self));
                }
                r
            },
            VectorKind::HalfVector => {
                let r = "halfvec";
                proof {
                    reveal_strlit("halfvec");
                    assert(r@ =~= sql_name_of(self));
                }
                r
            },
            VectorKind::SparseVector => {
                let r = "sparsevec";
                proof {
                    reveal_strlit("sparsevec");
                    assert(r@ =~= sql_name_of(self));
                }
                r
            },
            VectorKind::Bit => {
                let r = "bit";
                proof {
                    reveal_strlit("bit");
                    assert(r@ =~= sql_name_of(self));
                }
                r
            },
        }
    }

    /// The database type name of an array of this kind.
    pub fn array_sql_name(self) -> (r: &'static str)
        ensures
            r@ == array_sql_name_of(self),
    {
        match self {
            VectorKind::Vector => {
                let r = "_vector";
                proof {
                    reveal_strlit("_vector");
                    assert(r@ =~= array_sql_name_of(self));
                }
                r
            },
            VectorKind::HalfVector => {
                let r = "_halfvec";
                proof {
                    reveal_strlit("_halfvec");
                    assert(r@ =~= array_sql_name_of(self));
                }
                r
            },
            VectorKind::SparseVector => {
                let r = "_sparsevec";
                proof {
                    reveal_strlit("_sparsevec");
                    assert(r@ =~= array_sql_name_of(self));
                }
                r
            },
            VectorKind::Bit => {
                let r = "_bit";
                proof {
                    reveal_strlit("_bit");
                    assert(r@ =~= array_sql_name_of(self));
                }
                r
            },
        }
    }

    /// The kind whose database type name is `name`, if any.
    pub fn from_sql_name(name: &str) -> (r: Option<VectorKind>)
        ensures
            forall|k: VectorKind| (r == Some(k)) <==> name@ == #[trigger] sql_name_of(k),
    {
        proof {
            lemma_sql_names_distinct();
        }
        if same_chars(name, VectorKind::Vector.sql_name()) {
            Some(VectorKind::Vector)
        } else if same_chars(name, VectorKind::HalfVector.sql_name()) {
            Some(VectorKind::HalfVector)
        } else if same_chars(name, VectorKind::SparseVector.sql_name()) {
            Some(VectorKind::SparseVector)
        } else if same_chars(name, VectorKind::Bit.sql_name()) {
            Some(VectorKind::Bit)
        } else {
            proof {
                assert forall|k: VectorKind| name@ != #[trigger] sql_name_of(k) by {
                    match k {
                        VectorKind::Vector => {},
                        VectorKind::HalfVector => {},
                        VectorKind::SparseVector => {},
                        VectorKind::Bit => {},
                    }
                }
            }
            None
        }
    }
}

/// A distance operator of the query language.
#[derive(Clone, Copy, Debug, PartialEq, Eq, Structural)]
pub enum DistanceOperator {
    /// Euclidean distance.
    L2,
    /// Negative inner product.
    MaxInnerProduct,
    /// Cosine distance.
    Cosine,
    /// Taxicab distance.
    L1,
    /// Hamming distance, between bit strings.
    Hamming,
    /// Jaccard distance, between bit strings.
    Jaccard,
}

/// The symbol of an operator in a query.
pub open spec fn symbol_of(op: DistanceOperator) -> Seq<char> {
    match op {
        DistanceOperator::L2 => seq!['<', '-', '>'],
        DistanceOperator::MaxInnerProduct => seq!['<', '#', '>'],
        DistanceOperator::Cosine => seq!['<', '=', '>'],
        DistanceOperator::L1 => seq!['<', '+', '>'],
        DistanceOperator::Hamming => seq!['<', '~', '>'],
        DistanceOperator::Jaccard => seq!['<', '%', '>'],
    }
}

/// Whether `op` measures the distance between two operands of kind `k`: the
/// Hamming and Jaccard distances between bit strings, the others between
/// vectors of the three other kinds.
pub open spec fn operator_applies(op: DistanceOperator, k: VectorKind) -> bool {
    match op {
        DistanceOperator::Hamming | DistanceOperator::Jaccard => k == VectorKind::Bit,
        _ => k != VectorKind::Bit,
    }
}

impl DistanceOperator {
    /// The operator's symbol.
    pub fn symbol(self) -> (r: &'static str)
        ensures
            r@ == symbol_of(self),
    {
        match self {
            DistanceOperator::L2 => {
                let r = "<->";
                proof {
                    reveal_strlit("<->");
                    assert(r@ =~= symbol_of(self));
                }
                r
            },
            DistanceOperator::MaxInnerProduct => {
                let r = "<#>";
                proof {
                    reveal_strlit("<#>");
                    assert(r@ =~= symbol_of(self));
                }
                r
            },
            DistanceOperator::Cosine => {
                let r = "<=>";
                proof {
                    reveal_strlit("<=>");
                    assert(r@ =~= symbol_of(self));
                }
                r
            },
            DistanceOperator::L1 => {
                let r = "<+>";
                proof {
                    reveal_strlit("<+>");
                    assert(r@ =~= symbol_of(self));
                }
                r
            },
            DistanceOperator::Hamming => {
                let r = "<~>";
                proof {
                    reveal_strlit("<~>");
                    assert(r@ =~= symbol_of(self));
                }
                r
            },
            DistanceOperator::Jaccard => {
                let r = "<%>";
                proof {
                    reveal_strlit("<%>");
                    assert(r@ =~= symbol_of(self));
                }
                r
            },
        }
    }

    /// Whether the operator measures the distance between operands of kind `k`.
    pub fn applies_to(self, k: VectorKind) -> (r: bool)
        ensures
            r == operator_applies(self, k),
    {
        match self {
            DistanceOperator::Hamming | DistanceOperator::Jaccard => k == VectorKind::Bit,
            _ => k != VectorKind::Bit,
        }
    }

    /// The kind of the two operands that this operator is attached to, when
    /// both have the same kind and the operator applies to it.
    pub fn operand_kind(self, lhs: VectorKind, rhs: VectorKind) -> (r: Option<VectorKind>)
        ensures
            r == (if lhs == rhs && operator_applies(self, lhs) {
                Some(lhs)
            } else {
                None::<VectorKind>
            }),
    {
        if lhs == rhs && self.applies_to(lhs) {
            Some(lhs)
        } else {
            None
        }
    }
}

} // verus!
