//! Sparse vectors: a dimension and the non-zero entries, by ascending index.
use vstd::prelude::*;

use crate::endian::{
    be32_bytes, be32_seq, lemma_be32_seq_at, lemma_be32_seq_len, lemma_read_be32, push_be32,
    read_be32, u32_at,
};
use crate::error::CodecError;

verus! {

/// The largest dimension that the `i32` header field of a sparse vector holds.
pub const MAX_SPARSE_DIM: usize = 2147483647;

/// The content of a sparse vector: its dimension, and the positions and bit
/// patterns of its stored entries.
pub struct SparseView {
    pub dim: nat,
    pub indices: Seq<usize>,
    pub values: Seq<u32>,
}

/// Whether the `f32` with bit pattern `x` compares equal to `0.0`: positive and
/// negative zero do, every other pattern (NaN included) does not.
pub open spec fn is_zero(x: u32) -> bool {
    x & 0x7fff_ffffu32 == 0
}

/// One value per index, each index below the dimension, indices strictly
/// ascending.
pub open spec fn sparse_wf(m: SparseView) -> bool {
    &&& m.indices.len() == m.values.len()
    &&& forall|k: int| 0 <= k < m.indices.len() ==> (m.indices[k] as nat) < m.dim
    &&& forall|j: int, k: int| 0 <= j < k < m.indices.len() ==> m.indices[j] < m.indices[k]
}

/// Whether entry `k` of `m` is stored at position `p`.
pub open spec fn stored_at(m: SparseView, k: int, p: int) -> bool {
    0 <= k < m.indices.len() && m.indices[k] == p
}

/// The dense form of `m`: `dim` elements, each stored value at its index and
/// zero (the bit pattern of `0.0`) everywhere else.
pub open spec fn dense_of(m: SparseView) -> Seq<u32> {
    Seq::new(
        m.dim,
        |p: int|
            if exists|k: int| #[trigger] stored_at(m, k, p) {
                m.values[choose|k: int| #[trigger] stored_at(m, k, p)]
            } else {
                0
            },
    )
}

/// `m` holds exactly the non-zero elements of the dense vector `d`: its
/// dimension is the length of `d`, its indices are the positions of the
/// non-zero elements, and its values are the elements there.
pub open spec fn sparse_of_dense(m: SparseView, d: Seq<u32>) -> bool {
    &&& sparse_wf(m)
    &&& m.dim == d.len()
    &&& forall|k: int|
        0 <= k < m.indices.len() ==> m.values[k] == d[m.indices[k] as int] && !is_zero(m.values[k])
    &&& forall|p: int|
        0 <= p < d.len() && !is_zero(d[p]) ==> exists|k: int| #[trigger] stored_at(m, k, p)
}

/// The indices of a sparse vector as the 32-bit words of its binary form.
pub open spec fn index_words(indices: Seq<usize>) -> Seq<u32> {
    indices.map_values(|i: usize| i as u32)
}

/// The binary form of `m`: an `i32` dimension, an `i32` entry count, an `i32`
/// zero reserved field, then each index and after them each value, all as
/// four big-endian bytes. The count must stay below the dimension.
pub open spec fn sparse_encoding(m: SparseView) -> Result<Seq<u8>, CodecError> {
    if m.dim > MAX_SPARSE_DIM {
        Err(CodecError::DimensionOverflow)
    } else if m.indices.len() >= m.dim {
        Err(CodecError::InvalidSparseLayout)
    } else {
        Ok(be32_bytes(m.dim as u32) + be32_bytes(m.indices.len() as u32) + be32_bytes(0)
            + be32_seq(index_words(m.indices)) + be32_seq(m.values))
    }
}

/// The sparse vector that the binary form `b` declares, valid or not. A
/// header word above `MAX_SPARSE_DIM` is a negative `i32`.
pub open spec fn sparse_declared(b: Seq<u8>) -> SparseView {
    let nnz = u32_at(b, 4) as int;
    SparseView {
        dim: u32_at(b, 0) as nat,
        indices: Seq::new(nnz as nat, |k: int| u32_at(b, 12 + 4 * k) as usize),
        values: Seq::new(nnz as nat, |k: int| u32_at(b, 12 + 4 * nnz + 4 * k)),
    }
}

/// What the binary form `b` decodes to. Bytes after the declared entries are
/// ignored.
pub open spec fn sparse_decoding(b: Seq<u8>) -> Result<SparseView, CodecError> {
    if b.len() < 12 {
        Err(CodecError::TruncatedInput)
    } else if u32_at(b, 8) != 0 {
        Err(CodecError::ReservedFieldNonZero)
    } else if u32_at(b, 0) > MAX_SPARSE_DIM || u32_at(b, 4) >= u32_at(b, 0) {
        Err(CodecError::InvalidSparseLayout)
    } else if b.len() < 12 + 8 * u32_at(b, 4) {
        Err(CodecError::TruncatedInput)
    } else if !sparse_wf(sparse_declared(b)) {
        Err(CodecError::InvalidSparseLayout)
    } else {
        Ok(sparse_declared(b))
    }
}

/// The entries of `e` whose value is not zero, in their order.
pub open spec fn nonzero_entries(e: Seq<(usize, u32)>) -> Seq<(usize, u32)>
    decreases e.len(),
{
    if e.len() == 0 {
        Seq::empty()
    } else if is_zero(e.last().1) {
        nonzero_entries(e.drop_last())
    } else {
        nonzero_entries(e.drop_last()).push(e.last())
    }
}

/// The entries of `f` have distinct indices, each below `dim`.
pub open spec fn distinct_indices_below(f: Seq<(usize, u32)>, dim: nat) -> bool {
    &&& forall|k: int| 0 <= k < f.len() ==> (f[k].0 as nat) < dim
    &&& forall|j: int, k: int| 0 <= j < k < f.len() ==> f[j].0 != f[k].0
}

/// The non-zero entries of `e` have distinct indices, each below `dim`.
pub open spec fn entries_valid(e: Seq<(usize, u32)>, dim: nat) -> bool {
    distinct_indices_below(nonzero_entries(e), dim)
}

/// Each index of `s` is below `dim` and below the next one.
spec fn ascending_below(s: Seq<(usize, u32)>, dim: nat) -> bool {
    &&& forall|k: int| 0 <= k < s.len() ==> (s[k].0 as nat) < dim
    &&& forall|k: int| 0 <= k < s.len() - 1 ==> #[trigger] s[k].0 < s[k + 1].0
}

/// The stored entries of `m` as (index, value) pairs, by ascending index.
pub open spec fn entries_of(m: SparseView) -> Seq<(usize, u32)> {
    Seq::new(m.indices.len(), |k: int| (m.indices[k], m.values[k]))
}

/// `m` has dimension `dim` and stores exactly the non-zero entries of `e`.
pub open spec fn sparse_of_entries(m: SparseView, e: Seq<(usize, u32)>, dim: nat) -> bool {
    &&& sparse_wf(m)
    &&& m.dim == dim
    &&& entries_of(m).to_multiset() == nonzero_entries(e).to_multiset()
}

/// Relies on std's `slice::sort_by_key`: the elements stay the same and end up
/// ordered by ascending index.
#[verifier::external_body]
fn sort_by_index(v: &mut Vec<(usize, u32)>)
    ensures
        final(v)@.to_multiset() == old(v)@.to_multiset(),
        forall|j: int, k: int| 0 <= j < k < final(v)@.len() ==> final(v)@[j].0 <= final(v)@[k].0,
{
    v.sort_by_key(|e| e.0);
}

/// The entries of `entries` whose value is not zero, in their order.
fn collect_nonzero(entries: &[(usize, u32)]) -> (r: Vec<(usize, u32)>)
    ensures
        r@ == nonzero_entries(entries@),
{
    let mut kept: Vec<(usize, u32)> = Vec::new();
    let mut i: usize = 0;
    while i < entries.len()
        invariant
            i <= entries@.len(),
            kept@ == nonzero_entries(entries@.take(i as int)),
        decreases entries@.len() - i,
    {
        let e = entries[i];
        if e.1 & 0x7fff_ffffu32 != 0 {
            kept.push(e);
        }
        proof {
            assert(entries@.take(i + 1).drop_last() =~= entries@.take(i as int));
        }
        i += 1;
    }
    proof {
        assert(entries@.take(entries@.len() as int) =~= entries@);
    }
    kept
}

/// Splits `s`, sorted by index, into its indices and its values, provided the
/// indices are strictly ascending and below `dim`.
fn unzip_ascending(s: &Vec<(usize, u32)>, dim: usize) -> (r: Option<(Vec<usize>, Vec<u32>)>)
    requires
        forall|j: int, k: int| 0 <= j < k < s@.len() ==> s@[j].0 <= s@[k].0,
    ensures
        r is Some <==> ascending_below(s@, dim as nat),
        r is Some ==> {
            let (indices, values) = r->Some_0;
            &&& indices@.len() == s@.len()
            &&& values@.len() == s@.len()
            &&& forall|j: int|
                0 <= j < s@.len() ==> indices@[j] == s@[j].0 && values@[j] == s@[j].1
            &&& forall|j: int| 0 <= j < s@.len() ==> (indices@[j] as nat) < dim
            &&& forall|a: int, b: int| 0 <= a < b < s@.len() ==> indices@[a] < indices@[b]
        },
{
    let n = s.len();
    let mut indices: Vec<usize> = Vec::with_capacity(n);
    let mut values: Vec<u32> = Vec::with_capacity(n);
    let mut k: usize = 0;
    while k < n
        invariant
            n == s@.len(),
            k <= n,
            indices@.len() == k,
            values@.len() == k,
            forall|j: int| 0 <= j < k ==> indices@[j] == s@[j].0 && values@[j] == s@[j].1,
            forall|j: int| 0 <= j < k ==> (s@[j].0 as nat) < dim,
            forall|j: int| 0 <= j < k - 1 ==> #[trigger] s@[j].0 < s@[j + 1].0,
        decreases n - k,
    {
        let (index, value) = s[k];
        if index >= dim || (k > 0 && s[k - 1].0 >= index) {
            proof {
                if index >= dim {
                    assert(!((s@[k as int].0 as nat) < dim));
                } else {
                    assert(!(s@[k - 1].0 < s@[(k - 1) + 1].0));
                }
            }
            return None;
        }
        indices.push(index);
        values.push(value);
        k += 1;
    }
    proof {
        assert forall|a: int, b: int| 0 <= a < b < n implies indices@[a] < indices@[b] by {
            assert(s@[a].0 <= s@[b - 1].0);
        }
    }
    Some((indices, values))
}

/// Two sequences with the same elements that hold no element twice.
proof fn lemma_same_multiset_no_duplicates<A>(s: Seq<A>, f: Seq<A>)
    requires
        s.to_multiset() == f.to_multiset(),
        s.no_duplicates(),
    ensures
        f.no_duplicates(),
{
    broadcast use vstd::seq_lib::group_to_multiset_ensures;

    s.lemma_multiset_has_no_duplicates();
    f.lemma_multiset_has_no_duplicates_conv();
}

/// An element of one of two sequences with the same elements is in the other.
proof fn lemma_same_multiset_index<A>(s: Seq<A>, f: Seq<A>, j: int) -> (k: int)
    requires
        s.to_multiset() == f.to_multiset(),
        0 <= j < f.len(),
    ensures
        0 <= k < s.len(),
        s[k] == f[j],
{
    broadcast use vstd::seq_lib::group_to_multiset_ensures;

    assert(f.contains(f[j]));
    assert(s.to_multiset().count(f[j]) > 0);
    assert(s.contains(f[j]));
    choose|k: int| 0 <= k < s.len() && s[k] == f[j]
}

/// Sorted by index, with the same elements as `f`: the indices of `s` are
/// strictly ascending and below `dim` exactly when those of `f` are distinct
/// and below `dim`.
proof fn lemma_sorted_entries_valid(s: Seq<(usize, u32)>, f: Seq<(usize, u32)>, dim: nat)
    requires
        s.to_multiset() == f.to_multiset(),
        forall|j: int, k: int| 0 <= j < k < s.len() ==> s[j].0 <= s[k].0,
    ensures
        ascending_below(s, dim) <==> distinct_indices_below(f, dim),
{
    if ascending_below(s, dim) {
        assert forall|j: int, k: int| 0 <= j < k < s.len() implies s[j].0 < s[k].0 by {
            assert(s[j].0 <= s[k - 1].0);
        }
        assert(s.no_duplicates());
        lemma_same_multiset_no_duplicates(s, f);
        assert forall|k: int| 0 <= k < f.len() implies (f[k].0 as nat) < dim by {
            lemma_same_multiset_index(s, f, k);
        }
        assert forall|j: int, k: int| 0 <= j < k < f.len() implies f[j].0 != f[k].0 by {
            let a = lemma_same_multiset_index(s, f, j);
            let b = lemma_same_multiset_index(s, f, k);
            assert(f[j] != f[k]);
        }
    } else {
        if exists|k: int| 0 <= k < s.len() && (s[k].0 as nat) >= dim {
            let k = choose|k: int| 0 <= k < s.len() && (s[k].0 as nat) >= dim;
            let j = lemma_same_multiset_index(f, s, k);
        } else {
            let k = choose|k: int| 0 <= k < s.len() - 1 && !(#[trigger] s[k].0 < s[k + 1].0);
            if s[k] == s[k + 1] {
                if f.no_duplicates() {
                    lemma_same_multiset_no_duplicates(f, s);
                }
                let (a, b) = choose|a: int, b: int|
                    0 <= a < f.len() && 0 <= b < f.len() && a != b && f[a] == f[b];
                if a < b {
                    assert(f[a].0 == f[b].0);
                } else {
                    assert(f[b].0 == f[a].0);
                }
            } else {
                let a = lemma_same_multiset_index(f, s, k);
                let b = lemma_same_multiset_index(f, s, k + 1);
                if a < b {
                    assert(f[a].0 == f[b].0);
                } else {
                    assert(f[b].0 == f[a].0);
                }
            }
        }
    }
}

/// A sparse vector. Each value is the IEEE 754 bit pattern of an `f32`.
#[derive(Debug, PartialEq)]
pub struct SparseVector {
    dim: usize,
    indices: Vec<usize>,
    values: Vec<u32>,
}

impl View for SparseVector {
    type V = SparseView;

    closed spec fn view(&self) -> SparseView {
        SparseView { dim: self.dim as nat, indices: self.indices@, values: self.values@ }
    }
}

impl Clone for SparseVector {
    fn clone(&self) -> (r: SparseVector)
        ensures
            r@ == self@,
    {
        proof {
            use_type_invariant(self);
        }
        SparseVector {
            dim: self.dim,
            indices: vstd::slice::slice_to_vec(self.indices.as_slice()),
            values: vstd::slice::slice_to_vec(self.values.as_slice()),
        }
    }
}

impl SparseVector {
    #[verifier::type_invariant]
    spec fn inv(&self) -> bool {
        sparse_wf(self@)
    }

    /// Creates a sparse vector from a dense one, keeping the elements that are
    /// not zero (negative zero counts as zero).
    pub fn from_dense(vec: &[u32]) -> (r: SparseVector)
        ensures
            sparse_of_dense(r@, vec@),
    {
        let dim = vec.len();
        let mut indices: Vec<usize> = Vec::new();
        let mut values: Vec<u32> = Vec::new();
        let mut i: usize = 0;
        while i < dim
            invariant
                dim == vec@.len(),
                i <= dim,
                indices@.len() == values@.len(),
                forall|k: int| 0 <= k < indices@.len() ==> indices@[k] < i,
                forall|j: int, k: int| 0 <= j < k < indices@.len() ==> indices@[j] < indices@[k],
                forall|k: int|
                    0 <= k < indices@.len() ==> values@[k] == vec@[indices@[k] as int] && !is_zero(
                        values@[k],
                    ),
                forall|p: int|
                    0 <= p < i && !is_zero(vec@[p]) ==> exists|k: int|
                        0 <= k < indices@.len() && indices@[k] == p,
            decreases dim - i,
        {
            let v = vec[i];
            let ghost old_indices = indices@;
            if v & 0x7fff_ffffu32 != 0 {
                indices.push(i);
                values.push(v);
            }
            proof {
                assert forall|p: int| 0 <= p < i + 1 && !is_zero(vec@[p]) implies exists|k: int|
                    0 <= k < indices@.len() && indices@[k] == p by {
                    if p < i {
                        let k = choose|k: int| 0 <= k < old_indices.len() && old_indices[k] == p;
                        assert(indices@[k] == p);
                    } else {
                        assert(indices@[indices@.len() - 1] == p);
                    }
                }
            }
            i += 1;
        }
        let r = SparseVector { dim, indices, values };
        proof {
            assert forall|p: int| 0 <= p < vec@.len() && !is_zero(vec@[p]) implies exists|k: int|
                #[trigger] stored_at(r@, k, p) by {
                let k = choose|k: int| 0 <= k < r.indices@.len() && r.indices@[k] == p;
                assert(stored_at(r@, k, p));
            }
        }
        r
    }

    /// Creates a sparse vector of dimension `dim` from (index, value) entries in
    /// any order. Entries whose value is zero are dropped; the rest are stored
    /// by ascending index. Two non-zero entries with the same index, or one
    /// whose index is not below `dim`, make the input invalid.
    #[verifier::rlimit(60)]
    pub fn from_map(entries: &[(usize, u32)], dim: usize) -> (r: Result<SparseVector, CodecError>)
        ensures
            match r {
                Ok(v) => entries_valid(entries@, dim as nat) && sparse_of_entries(
                    v@,
                    entries@,
                    dim as nat,
                ),
                Err(e) => e == CodecError::InvalidSparseLayout && !entries_valid(
                    entries@,
                    dim as nat,
                ),
            },
    {
        let mut kept = collect_nonzero(entries);
        let ghost f = kept@;
        sort_by_index(&mut kept);
        let ghost s = kept@;
        proof {
            lemma_sorted_entries_valid(s, f, dim as nat);
        }
        match unzip_ascending(&kept, dim) {
            Some((indices, values)) => {
                let r = SparseVector { dim, indices, values };
                proof {
                    assert(entries_of(r@) =~= s);
                }
                Ok(r)
            },
            None => Err(CodecError::InvalidSparseLayout),
        }
    }

    /// Encodes the sparse vector in its binary form.
    pub fn to_sql(&self) -> (r: Result<Vec<u8>, CodecError>)
        ensures
            match r {
                Ok(out) => sparse_encoding(self@) == Ok::<Seq<u8>, CodecError>(out@),
                Err(e) => sparse_encoding(self@) == Err::<Seq<u8>, CodecError>(e),
            },
    {
        proof {
            use_type_invariant(self);
        }
        let dim = self.dim;
        let nnz = self.indices.len();
        if dim > MAX_SPARSE_DIM {
            return Err(CodecError::DimensionOverflow);
        }
        if nnz >= dim {
            return Err(CodecError::InvalidSparseLayout);
        }
        let ghost m = self@;
        let ghost words = index_words(m.indices);
        let mut out: Vec<u8> = Vec::new();
        push_be32(&mut out, dim as u32);
        push_be32(&mut out, nnz as u32);
        push_be32(&mut out, 0);
        let ghost header = out@;
        let mut i: usize = 0;
        while i < nnz
            invariant
                m == self@,
                sparse_wf(m),
                m.dim <= MAX_SPARSE_DIM,
                nnz == m.indices.len(),
                i <= nnz,
                words == index_words(m.indices),
                out@ == header + be32_seq(words.take(i as int)),
            decreases nnz - i,
        {
            push_be32(&mut out, self.indices[i] as u32);
            proof {
                let next = words.take(i + 1);
                assert(next.drop_last() =~= words.take(i as int));
                assert(header + be32_seq(next) =~= header + be32_seq(words.take(i as int))
                    + be32_bytes(words[i as int]));
            }
            i += 1;
        }
        proof {
            assert(words.take(nnz as int) =~= words);
        }
        let ghost middle = out@;
        let mut i: usize = 0;
        while i < nnz
            invariant
                m == self@,
                sparse_wf(m),
                nnz == m.values.len(),
                i <= nnz,
                out@ == middle + be32_seq(m.values.take(i as int)),
            decreases nnz - i,
        {
            push_be32(&mut out, self.values[i]);
            proof {
                let next = m.values.take(i + 1);
                assert(next.drop_last() =~= m.values.take(i as int));
                assert(middle + be32_seq(next) =~= middle + be32_seq(m.values.take(i as int))
                    + be32_bytes(m.values[i as int]));
            }
            i += 1;
        }
        proof {
            assert(m.values.take(nnz as int) =~= m.values);
        }
        Ok(out)
    }

    /// Decodes a sparse vector from its binary form.
    pub fn from_sql(buf: &[u8]) -> (r: Result<SparseVector, CodecError>)
        ensures
            match r {
                Ok(v) => sparse_decoding(buf@) == Ok::<SparseView, CodecError>(v@),
                Err(e) => sparse_decoding(buf@) == Err::<SparseView, CodecError>(e),
            },
    {
        if buf.len() < 12 {
            return Err(CodecError::TruncatedInput);
        }
        let dim = read_be32(buf, 0);
        let nnz = read_be32(buf, 4);
        if read_be32(buf, 8) != 0 {
            return Err(CodecError::ReservedFieldNonZero);
        }
        if dim as usize > MAX_SPARSE_DIM || nnz >= dim {
            return Err(CodecError::InvalidSparseLayout);
        }
        if (buf.len() as u64) < 12 + 8 * (nnz as u64) {
            return Err(CodecError::TruncatedInput);
        }
        let ghost m = sparse_declared(buf@);
        let len = buf.len();
        let n = nnz as usize;
        let base = 12 + 4 * n;
        let mut indices: Vec<usize> = Vec::with_capacity(n);
        let mut values: Vec<u32> = Vec::with_capacity(n);
        let mut k: usize = 0;
        while k < n
            invariant
                m == sparse_declared(buf@),
                buf@.len() >= 12,
                u32_at(buf@, 8) == 0,
                u32_at(buf@, 0) <= MAX_SPARSE_DIM,
                u32_at(buf@, 4) < u32_at(buf@, 0),
                n == m.indices.len(),
                n == m.values.len(),
                dim == m.dim,
                n == u32_at(buf@, 4),
                base == 12 + 4 * n,
                len == buf@.len(),
                12 + 8 * n <= len,
                k <= n,
                indices@ == m.indices.take(k as int),
                values@ == m.values.take(k as int),
                forall|j: int| 0 <= j < k ==> (m.indices[j] as nat) < m.dim,
                forall|i: int, j: int| 0 <= i < j < k ==> m.indices[i] < m.indices[j],
            decreases n - k,
        {
            let index = read_be32(buf, 12 + 4 * k) as usize;
            let value = read_be32(buf, base + 4 * k);
            if index >= dim as usize || (k > 0 && indices[k - 1] >= index) {
                proof {
                    if index >= dim as usize {
                        assert(!((m.indices[k as int] as nat) < m.dim));
                    } else {
                        assert(!(m.indices[k - 1] < m.indices[k as int]));
                    }
                    assert(!sparse_wf(m));
                }
                return Err(CodecError::InvalidSparseLayout);
            }
            indices.push(index);
            values.push(value);
            proof {
                assert(indices@ =~= m.indices.take(k + 1));
                assert(values@ =~= m.values.take(k + 1));
            }
            k += 1;
        }
        proof {
            assert(indices@ =~= m.indices);
            assert(values@ =~= m.values);
        }
        Ok(SparseVector { dim: dim as usize, indices, values })
    }

    /// The dimension.
    pub fn dimensions(&self) -> (r: usize)
        ensures
            r == self@.dim,
    {
        self.dim
    }

    /// The indices of the stored entries, ascending.
    pub fn indices(&self) -> (r: &[usize])
        ensures
            r@ == self@.indices,
            sparse_wf(self@),
    {
        proof {
            use_type_invariant(self);
        }
        self.indices.as_slice()
    }

    /// The values of the stored entries, in the order of their indices.
    pub fn values(&self) -> (r: &[u32])
        ensures
            r@ == self@.values,
            sparse_wf(self@),
    {
        proof {
            use_type_invariant(self);
        }
        self.values.as_slice()
    }

    /// The dense form: `dim` elements, zero where no entry is stored.
    pub fn to_vec(&self) -> (r: Vec<u32>)
        ensures
            r@ == dense_of(self@),
    {
        proof {
            use_type_invariant(self);
        }
        let dim = self.dim;
        let mut out: Vec<u32> = Vec::with_capacity(dim);
        let mut p: usize = 0;
        while p < dim
            invariant
                p <= dim,
                out@ == Seq::new(p as nat, |q: int| 0u32),
            decreases dim - p,
        {
            out.push(0);
            p += 1;
            proof {
                assert(out@ =~= Seq::new(p as nat, |q: int| 0u32));
            }
        }
        let n = self.indices.len();
        let ghost m = self@;
        let mut k: usize = 0;
        while k < n
            invariant
                m == self@,
                sparse_wf(m),
                n == m.indices.len(),
                dim == m.dim,
                k <= n,
                out@.len() == dim,
                forall|j: int| 0 <= j < k ==> out@[m.indices[j] as int] == m.values[j],
                forall|q: int|
                    0 <= q < dim && (forall|j: int| 0 <= j < k ==> m.indices[j] != q) ==> out@[q]
                        == 0,
            decreases n - k,
        {
            out.set(self.indices[k], self.values[k]);
            k += 1;
        }
        proof {
            assert forall|q: int| 0 <= q < dim implies out@[q] == dense_of(m)[q] by {
                if exists|j: int| #[trigger] stored_at(m, j, q) {
                    let j = choose|j: int| #[trigger] stored_at(m, j, q);
                    if exists|i: int| 0 <= i < n && m.indices[i] == q {
                        let i = choose|i: int| 0 <= i < n && m.indices[i] == q;
                        assert(i == j);
                    }
                } else {
                    assert forall|j: int| 0 <= j < n implies m.indices[j] != q by {
                        if m.indices[j] == q {
                            assert(stored_at(m, j, q));
                        }
                    }
                }
            }
            assert(out@ =~= dense_of(m));
        }
        out
    }
}

/// Decoding the binary form of a well-formed sparse vector, whose dimension
/// fits the header and exceeds its entry count, gives back the same vector.
pub proof fn lemma_sparse_round_trip(m: SparseView)
    requires
        sparse_wf(m),
        m.dim <= MAX_SPARSE_DIM,
        m.indices.len() < m.dim,
    ensures
        sparse_encoding(m) is Ok,
        sparse_decoding(sparse_encoding(m)->Ok_0) == Ok::<SparseView, CodecError>(m),
{
    let n = m.indices.len() as int;
    let words = index_words(m.indices);
    let ws = be32_seq(words);
    let vs = be32_seq(m.values);
    let b = be32_bytes(m.dim as u32) + be32_bytes(n as u32) + be32_bytes(0) + ws + vs;
    lemma_be32_seq_len(words);
    lemma_be32_seq_len(m.values);
    assert(b.subrange(0, 4) =~= be32_bytes(m.dim as u32));
    lemma_read_be32(b, 0, m.dim as u32);
    assert(b.subrange(4, 8) =~= be32_bytes(n as u32));
    lemma_read_be32(b, 4, n as u32);
    assert(b.subrange(8, 12) =~= be32_bytes(0));
    lemma_read_be32(b, 8, 0);
    let d = sparse_declared(b);
    assert forall|k: int| 0 <= k < n implies d.indices[k] == m.indices[k] by {
        lemma_be32_seq_at(words, k);
        assert(b.subrange(12 + 4 * k, 12 + 4 * k + 4) =~= ws.subrange(4 * k, 4 * k + 4));
        lemma_read_be32(b, 12 + 4 * k, words[k]);
    }
    assert forall|k: int| 0 <= k < n implies d.values[k] == m.values[k] by {
        lemma_be32_seq_at(m.values, k);
        assert(b.subrange(12 + 4 * n + 4 * k, 12 + 4 * n + 4 * k + 4) =~= vs.subrange(
            4 * k,
            4 * k + 4,
        ));
        lemma_read_be32(b, 12 + 4 * n + 4 * k, m.values[k]);
    }
    assert(d.indices =~= m.indices);
    assert(d.values =~= m.values);
}

proof fn lemma_only_zeros_compare_equal(x: u32)
    by (bit_vector)
    requires
        x & 0x7fff_ffffu32 == 0,
        x != 0x8000_0000u32,
    ensures
        x == 0,
{
}

/// For a dense vector with no negative zero, converting to a sparse vector and
/// back gives the same elements.
pub proof fn lemma_dense_round_trip(d: Seq<u32>, m: SparseView)
    requires
        sparse_of_dense(m, d),
        forall|p: int| 0 <= p < d.len() ==> d[p] != 0x8000_0000u32,
    ensures
        dense_of(m) == d,
{
    assert forall|p: int| 0 <= p < d.len() implies dense_of(m)[p] == d[p] by {
        if exists|k: int| #[trigger] stored_at(m, k, p) {
            let k = choose|k: int| #[trigger] stored_at(m, k, p);
            assert(m.values[k] == d[p]);
        } else {
            if !is_zero(d[p]) {
                assert(exists|k: int| #[trigger] stored_at(m, k, p));
            }
            lemma_only_zeros_compare_equal(d[p]);
        }
    }
    assert(dense_of(m) =~= d);
}

} // verus!
