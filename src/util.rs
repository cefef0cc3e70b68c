//! Vector helpers and the layout of a proof vector.
use crate::field::{sum_val, FieldElement, FieldError};
use crate::encoding::{byte_base, le_bytes, lemma_byte_base_16, lemma_le_bytes_len, lemma_le_round_trip};
use vstd::arithmetic::div_mod::lemma_small_mod;
use vstd::prelude::*;

verus! {

/// Serialization errors.
#[derive(Debug)]
pub enum SerializeError {
    /// Emitted by `deserialize()` if the last chunk of input is not long
    /// enough to encode an element of the field.
    IncompleteChunk,
    /// Emitted by `unpack_proof[_mut]` if the share+proof has the wrong length.
    UnpackInputSizeMismatch,
    /// Finite field operation error.
    Field(FieldError),
    /// Miscellaneous serialization error.
    Bincode(Box<bincode::ErrorKind>),
}

#[verifier::external_type_specification]
#[verifier::external_body]
pub struct ExBincodeErrorKind(bincode::ErrorKind);

/// The bytes of the integers in `s`, each as 16 little-endian bytes, one after the other.
pub open spec fn concat_u128s(s: Seq<u128>) -> Seq<u8>
    decreases s.len(),
{
    if s.len() == 0 {
        Seq::empty()
    } else {
        concat_u128s(s.drop_last()) + le_bytes(s.last() as nat, 16)
    }
}

/// bincode's encoding of a sequence of `u128` in its default configuration:
/// the length as a little-endian `u64`, then each integer in 16 little-endian bytes.
pub open spec fn bincode_u128s(s: Seq<u128>) -> Seq<u8> {
    le_bytes(s.len(), 8) + concat_u128s(s)
}

/// The canonical integers of a sequence of field elements.
pub open spec fn integers_of<F: FieldElement>(s: Seq<F>) -> Seq<u128> {
    s.map_values(|x: F| x.val() as u128)
}

/// Relies on `bincode::serialize`, which writes a slice of `u128` in the
/// format above and, writing into memory, does not fail.
#[verifier::external_body]
fn bincode_encode(values: &[u128]) -> (r: Vec<u8>)
    ensures
        r@ == bincode_u128s(values@),
{
    bincode::serialize(values).unwrap()
}

/// `bytes` starts with bincode's encoding of `s`.
pub open spec fn encodes_prefix(bytes: Seq<u8>, s: Seq<u128>) -> bool {
    bincode_u128s(s).len() <= bytes.len() && bytes.subrange(0, bincode_u128s(s).len() as int)
        == bincode_u128s(s)
}

/// Relies on `bincode::deserialize` with its default configuration
/// (fixed-width integers, trailing bytes allowed): it reads a `u64` length and
/// then that many integers of 16 little-endian bytes each, and fails only when
/// the input ends before them.
#[verifier::external_body]
fn bincode_decode(bytes: &[u8]) -> (r: Result<Vec<u128>, Box<bincode::ErrorKind>>)
    ensures
        r matches Ok(v) ==> encodes_prefix(bytes@, v@),
        (exists|s: Seq<u128>| encodes_prefix(bytes@, s)) ==> r is Ok,
{
    bincode::deserialize(bytes)
}

proof fn lemma_concat_len(s: Seq<u128>)
    ensures
        concat_u128s(s).len() == 16 * s.len(),
    decreases s.len(),
{
    if s.len() > 0 {
        lemma_concat_len(s.drop_last());
        lemma_le_bytes_len(s.last() as nat, 16);
    }
}

proof fn lemma_concat_chunk(s: Seq<u128>, j: int)
    requires
        0 <= j < s.len(),
    ensures
        concat_u128s(s).subrange(16 * j, 16 * j + 16) == le_bytes(s[j] as nat, 16),
    decreases s.len(),
{
    let init = s.drop_last();
    lemma_concat_len(init);
    lemma_le_bytes_len(s.last() as nat, 16);
    let c = concat_u128s(s);
    if j == s.len() - 1 {
        assert(c.subrange(16 * j, 16 * j + 16) =~= le_bytes(s[j] as nat, 16));
    } else {
        lemma_concat_chunk(init, j);
        assert(c.subrange(16 * j, 16 * j + 16) =~= concat_u128s(init).subrange(16 * j, 16 * j + 16));
    }
}

/// Two sequences whose encodings both start an input of fewer than `2^64`
/// bytes are the same sequence.
proof fn lemma_encoding_unique(bytes: Seq<u8>, s1: Seq<u128>, s2: Seq<u128>)
    requires
        bytes.len() < 0x1_0000_0000_0000_0000,
        encodes_prefix(bytes, s1),
        encodes_prefix(bytes, s2),
    ensures
        s1 == s2,
{
    reveal_with_fuel(byte_base, 9);
    lemma_byte_base_16();
    lemma_concat_len(s1);
    lemma_concat_len(s2);
    lemma_le_bytes_len(s1.len(), 8);
    lemma_le_bytes_len(s2.len(), 8);
    let e1 = bincode_u128s(s1);
    let e2 = bincode_u128s(s2);
    assert(e1.subrange(0, 8) =~= le_bytes(s1.len(), 8));
    assert(e2.subrange(0, 8) =~= le_bytes(s2.len(), 8));
    assert(bytes.subrange(0, 8) =~= e1.subrange(0, 8));
    assert(bytes.subrange(0, 8) =~= e2.subrange(0, 8));
    lemma_le_round_trip(s1.len(), 8);
    lemma_le_round_trip(s2.len(), 8);
    assert(s1.len() == s2.len());
    assert forall|j: int| 0 <= j < s1.len() implies s1[j] == s2[j] by {
        lemma_concat_chunk(s1, j);
        lemma_concat_chunk(s2, j);
        assert(e1.subrange(8 + 16 * j, 8 + 16 * j + 16) =~= concat_u128s(s1).subrange(16 * j, 16 * j + 16));
        assert(e2.subrange(8 + 16 * j, 8 + 16 * j + 16) =~= concat_u128s(s2).subrange(16 * j, 16 * j + 16));
        assert(bytes.subrange(8 + 16 * j, 8 + 16 * j + 16) =~= e1.subrange(8 + 16 * j, 8 + 16 * j + 16));
        assert(bytes.subrange(8 + 16 * j, 8 + 16 * j + 16) =~= e2.subrange(8 + 16 * j, 8 + 16 * j + 16));
        lemma_le_round_trip(s1[j] as nat, 16);
        lemma_le_round_trip(s2[j] as nat, 16);
    }
    assert(s1 =~= s2);
}

/// Get a byte array from a slice of field elements.
pub fn serialize<F: FieldElement>(data: &[F]) -> (r: Vec<u8>)
    ensures
        r@ == bincode_u128s(integers_of(data@)),
{
    let mut ints: Vec<u128> = Vec::new();
    let mut i: usize = 0;
    while i < data.len()
        invariant
            i <= data@.len(),
            ints@ == integers_of(data@.take(i as int)),
        decreases data@.len() - i,
    {
        let x = data[i].to_integer();
        ints.push(x);
        i = i + 1;
        proof {
            let t = integers_of(data@.take(i as int));
            assert forall|k: int| 0 <= k < i implies #[trigger] t[k] == ints@[k] by {
                if k < i - 1 {
                    assert(integers_of(data@.take(i - 1))[k] == ints@[k]);
                }
            }
            assert(ints@ =~= t);
        }
    }
    assert(data@.take(i as int) =~= data@);
    bincode_encode(ints.as_slice())
}

/// Every integer in `s` lies below `p`.
pub open spec fn all_below(s: Seq<u128>, p: nat) -> bool {
    forall|i: int| 0 <= i < s.len() ==> #[trigger] s[i] < p
}

/// The field elements whose canonical integers are `ints`, or
/// `FromBytesModulusOverflow` if one of them is not below the modulus.
pub fn elements_from_integers<F: FieldElement>(ints: &[u128]) -> (r: Result<Vec<F>, FieldError>)
    ensures
        all_below(ints@, F::modulus_spec()) ==> (r matches Ok(v) && integers_of(v@) == ints@),
        !all_below(ints@, F::modulus_spec()) ==> r == Err::<Vec<F>, FieldError>(
            FieldError::FromBytesModulusOverflow,
        ),
{
    let p = F::modulus();
    let mut v: Vec<F> = Vec::new();
    let mut i: usize = 0;
    proof {
        F::lemma_parameters();
    }
    while i < ints.len()
        invariant
            i <= ints@.len(),
            p == F::modulus_spec(),
            forall|k: int| 0 <= k < i ==> #[trigger] ints@[k] < p,
            v@.len() == i,
            integers_of(v@) == ints@.take(i as int),
        decreases ints@.len() - i,
    {
        if ints[i] >= p {
            return Err(FieldError::FromBytesModulusOverflow);
        }
        let x = F::from_integer(ints[i]);
        proof {
            lemma_small_mod(ints@[i as int] as nat, p as nat);
        }
        let ghost before = v@;
        v.push(x);
        i = i + 1;
        proof {
            let t = integers_of(v@);
            assert(t[i - 1] == x.val() as u128);
            assert forall|k: int| 0 <= k < i implies #[trigger] t[k] == ints@.take(i as int)[k] by {
                if k < i - 1 {
                    assert(v@[k] == before[k]);
                    assert(integers_of(before)[k] == ints@.take(i - 1)[k]);
                }
            }
            assert(t =~= ints@.take(i as int));
        }
    }
    assert(ints@.take(i as int) =~= ints@);
    Ok(v)
}

/// Get a vector of field elements from a byte slice.
///
/// Succeeds exactly when the input starts with the encoding of a sequence of
/// integers that all lie below the modulus; those are the elements returned.
pub fn deserialize<F: FieldElement>(data: &[u8]) -> (r: Result<Vec<F>, SerializeError>)
    ensures
        r is Ok <==> (exists|s: Seq<u128>| encodes_prefix(data@, s) && all_below(s, F::modulus_spec())),
        r matches Ok(v) ==> encodes_prefix(data@, integers_of(v@)),
        r matches Err(SerializeError::Field(e)) ==> e == FieldError::FromBytesModulusOverflow,
        forall|s: Seq<u128>|
            #[trigger] encodes_prefix(data@, s) && all_below(s, F::modulus_spec()) ==> (r matches Ok(v)
                && integers_of(v@) == s),
{
    let len = data.len();
    assert(data@.len() == len < 0x1_0000_0000_0000_0000);
    match bincode_decode(data) {
        Ok(ints) => {
            proof {
                assert forall|s: Seq<u128>| encodes_prefix(data@, s) implies s == ints@ by {
                    lemma_encoding_unique(data@, s, ints@);
                }
            }
            match elements_from_integers::<F>(ints.as_slice()) {
                Ok(v) => Ok(v),
                Err(e) => Err(SerializeError::Field(e)),
            }
        },
        Err(e) => Err(SerializeError::Bincode(e)),
    }
}

/// Serialization round trip: the bytes that `serialize` writes for a vector
/// of field elements start with the encoding of its canonical integers, all
/// of which lie below the modulus, so `deserialize` returns elements with the
/// same values.
pub proof fn lemma_vector_serialization_round_trip<F: FieldElement>(data: Seq<F>)
    ensures
        encodes_prefix(bincode_u128s(integers_of(data)), integers_of(data)),
        all_below(integers_of(data), F::modulus_spec()),
{
    let e = bincode_u128s(integers_of(data));
    assert(e.subrange(0, e.len() as int) =~= e);
    F::lemma_parameters();
    assert forall|i: int| 0 <= i < integers_of(data).len() implies #[trigger] integers_of(data)[i]
        < F::modulus_spec() by {
        data[i].lemma_canonical();
    }
}

/// The smallest power of two not below `n`.
pub open spec fn next_pow2(n: nat) -> nat
    decreases n,
{
    if n <= 1 {
        1
    } else {
        2 * next_pow2(n / 2 + n % 2)
    }
}

/// Number of field elements in the proof for `dimension` data elements.
pub open spec fn proof_len(dimension: nat) -> nat {
    dimension + 3 + next_pow2(dimension + 1)
}

/// The smallest power of two not below `n`, where it fits in a `usize`.
fn next_power_of_two(n: usize) -> (r: usize)
    requires
        next_pow2(n as nat) <= usize::MAX,
    ensures
        r == next_pow2(n as nat),
    decreases n,
{
    if n <= 1 {
        1
    } else {
        2 * next_power_of_two(n / 2 + n % 2)
    }
}

/// Returns the number of field elements in the proof for given dimension of
/// data elements.
///
/// Proof is a vector, where the first `dimension` elements are the data
/// elements, the next 3 elements are the zero terms for polynomials f, g and h
/// and the remaining elements are non-zero points of h(x).
pub fn proof_length(dimension: usize) -> (r: usize)
    requires
        proof_len(dimension as nat) <= usize::MAX,
    ensures
        r == proof_len(dimension as nat),
{
    dimension + 3 + next_power_of_two(dimension + 1)
}

/// Convenience function for initializing fixed sized vectors of field elements.
pub fn vector_with_length<F: FieldElement>(len: usize) -> (r: Vec<F>)
    ensures
        r@.len() == len,
        forall|i: int| 0 <= i < len ==> #[trigger] r@[i].val() == 0,
{
    let mut r: Vec<F> = Vec::new();
    while r.len() < len
        invariant
            r@.len() <= len,
            forall|i: int| 0 <= i < r@.len() ==> #[trigger] r@[i].val() == 0,
        decreases len - r@.len(),
    {
        r.push(F::zero());
    }
    r
}

/// Unpacked proof with subcomponents.
pub struct UnpackedProof<'a, F: FieldElement> {
    /// Data
    pub data: &'a [F],
    /// Zeroth coefficient of polynomial f
    pub f0: &'a F,
    /// Zeroth coefficient of polynomial g
    pub g0: &'a F,
    /// Zeroth coefficient of polynomial h
    pub h0: &'a F,
    /// Non-zero points of polynomial h
    pub points_h_packed: &'a [F],
}

/// Unpacked proof with mutable subcomponents.
pub struct UnpackedProofMut<'a, F: FieldElement> {
    /// Data
    pub data: &'a mut [F],
    /// Zeroth coefficient of polynomial f
    pub f0: &'a mut F,
    /// Zeroth coefficient of polynomial g
    pub g0: &'a mut F,
    /// Zeroth coefficient of polynomial h
    pub h0: &'a mut F,
    /// Non-zero points of polynomial h
    pub points_h_packed: &'a mut [F],
}

/// Unpacks the proof vector into subcomponents.
pub fn unpack_proof<F: FieldElement>(proof: &[F], dimension: usize) -> (r: Result<
    UnpackedProof<F>,
    SerializeError,
>)
    requires
        proof_len(dimension as nat) <= usize::MAX,
    ensures
        proof@.len() != proof_len(dimension as nat) ==> (r matches Err(
            SerializeError::UnpackInputSizeMismatch,
        )),
        proof@.len() == proof_len(dimension as nat) ==> (r matches Ok(u)
            && u.data@ == proof@.subrange(0, dimension as int)
            && *u.f0 == proof@[dimension as int]
            && *u.g0 == proof@[dimension + 1]
            && *u.h0 == proof@[dimension + 2]
            && u.points_h_packed@ == proof@.subrange(dimension + 3, proof@.len() as int)),
{
    if proof.len() != proof_length(dimension) {
        return Err(SerializeError::UnpackInputSizeMismatch);
    }
    let (data, rest) = proof.split_at(dimension);
    let (heads, points_h_packed) = rest.split_at(3);
    Ok(UnpackedProof { data, f0: &heads[0], g0: &heads[1], h0: &heads[2], points_h_packed })
}

/// Unpacks a mutable proof vector into mutable subcomponents.
pub fn unpack_proof_mut<F: FieldElement>(proof: &mut [F], dimension: usize) -> (r: Result<
    UnpackedProofMut<F>,
    SerializeError,
>)
    requires
        proof_len(dimension as nat) <= usize::MAX,
    ensures
        old(proof)@.len() != proof_len(dimension as nat) ==> ((r matches Err(
            SerializeError::UnpackInputSizeMismatch,
        )) && final(proof)@ == old(proof)@),
        old(proof)@.len() == proof_len(dimension as nat) ==> (r matches Ok(u) && u.data@
            == old(proof)@.subrange(0, dimension as int) && *u.f0 == old(proof)@[dimension as int]
            && *u.g0 == old(proof)@[dimension + 1] && *u.h0 == old(proof)@[dimension + 2]
            && u.points_h_packed@ == old(proof)@.subrange(dimension + 3, old(proof)@.len() as int)
            && final(proof)@ == final(u.data)@ + seq![*final(u.f0), *final(u.g0), *final(u.h0)]
            + final(u.points_h_packed)@),
{
    if proof.len() != proof_length(dimension) {
        return Err(SerializeError::UnpackInputSizeMismatch);
    }
    let (data, rest) = proof.split_at_mut(dimension);
    let (heads, points_h_packed) = rest.split_at_mut(3);
    let (f0s, gh) = heads.split_at_mut(1);
    let (g0s, h0s) = gh.split_at_mut(1);
    let f0 = f0s.first_mut().unwrap();
    let g0 = g0s.first_mut().unwrap();
    let h0 = h0s.first_mut().unwrap();
    Ok(UnpackedProofMut { data, f0, g0, h0, points_h_packed })
}

/// Add two field element arrays together elementwise.
///
/// Returns `None` when the array lengths are not equal.
pub fn reconstruct_shares<F: FieldElement>(share1: &[F], share2: &[F]) -> (r: Option<Vec<F>>)
    ensures
        r.is_some() == (share1@.len() == share2@.len()),
        r matches Some(v) ==> v@.len() == share1@.len() && forall|i: int|
            0 <= i < v@.len() ==> #[trigger] v@[i].val() == sum_val(share1@[i], share2@[i]),
{
    if share1.len() != share2.len() {
        return None;
    }
    let n = share1.len();
    let mut reconstructed: Vec<F> = vector_with_length(n);
    let mut i: usize = 0;
    while i < n
        invariant
            n == share1@.len() == share2@.len() == reconstructed@.len(),
            i <= n,
            forall|k: int| 0 <= k < i ==> #[trigger] reconstructed@[k].val() == sum_val(
                share1@[k],
                share2@[k],
            ),
        decreases n - i,
    {
        let s = share1[i].add(&share2[i]);
        reconstructed.set(i, s);
        i = i + 1;
    }
    Some(reconstructed)
}

/// The layout of a proof vector reads back what was written into it: a
/// vector assembled from data, the three zeroth coefficients and the packed
/// points of `h` has the length `proof_len(dimension)`, and its ranges give
/// each part back unchanged.
pub proof fn lemma_proof_layout_round_trip<F: FieldElement>(
    dimension: nat,
    data: Seq<F>,
    f0: F,
    g0: F,
    h0: F,
    points_h_packed: Seq<F>,
)
    requires
        data.len() == dimension,
        points_h_packed.len() == next_pow2(dimension + 1),
    ensures
        ({
            let proof = data + seq![f0, g0, h0] + points_h_packed;
            &&& proof.len() == proof_len(dimension)
            &&& proof.subrange(0, dimension as int) == data
            &&& proof[dimension as int] == f0
            &&& proof[dimension as int + 1] == g0
            &&& proof[dimension as int + 2] == h0
            &&& proof.subrange(dimension as int + 3, proof.len() as int) == points_h_packed
        }),
{
    let proof = data + seq![f0, g0, h0] + points_h_packed;
    assert(proof.subrange(0, dimension as int) =~= data);
    assert(proof.subrange(dimension as int + 3, proof.len() as int) =~= points_h_packed);
}

} // verus!
