//! Finite field elements.
//!
//! Each field has an associated parameter called the "generator" that
//! generates a multiplicative subgroup of order `2^n` for some `n`.
use crate::encoding::{
    byte_base, decode_le, encode_le, le_bytes, le_value, lemma_byte_base_16, lemma_le_bytes_len,
    lemma_le_round_trip, lemma_le_value_bound, two_pow, two_pow_u128,
};
use crate::fp::{add_mod, inv_mod, modulus_ok, mul_mod, neg_mod, pow_mod, pow_mod_spec, sub_mod};
use crate::prng::random_element;
use vstd::arithmetic::div_mod::{
    lemma_add_mod_noop, lemma_div_by_multiple, lemma_mod_twice, lemma_mul_mod_noop_left,
    lemma_mul_mod_noop_right, lemma_small_mod, lemma_sub_mod_noop,
};
use vstd::arithmetic::power::{lemma_pow0, lemma_pow1, lemma_pow_adds, pow};
use vstd::prelude::*;

verus! {

/// Possible errors from finite field operations.
#[derive(Debug, Clone, Copy, PartialEq, Eq, Structural)]
pub enum FieldError {
    /// Input sizes do not match.
    InputSizeMismatch,
    /// Returned by `read_from` and `try_from_random` if the input buffer is too short.
    FromBytesShortRead,
    /// Returned by `read_from` and `try_from_random` if the input is not below the modulus.
    FromBytesModulusOverflow,
}

/// Largest `l` for which every field tabulates the `2^l`-th principal root of unity.
pub const MAX_ROOTS: usize = 20;

/// What reading `width` bytes of `bytes` yields: the little-endian integer
/// they spell, taken modulo `bound`, if it lies below `p`.
pub open spec fn decode_spec(bytes: Seq<u8>, width: nat, bound: nat, p: nat) -> Result<
    nat,
    FieldError,
> {
    if bytes.len() < width {
        Err(FieldError::FromBytesShortRead)
    } else if le_value(bytes.subrange(0, width as int)) % bound >= p {
        Err(FieldError::FromBytesModulusOverflow)
    } else {
        Ok(le_value(bytes.subrange(0, width as int)) % bound)
    }
}

/// Objects with this trait represent an element of `GF(p)` for some prime `p`.
pub trait FieldElement: Sized + Copy + PartialEq + Eq + core::fmt::Debug {
    /// Size of each field element in bytes.
    const BYTES: usize;

    /// The prime modulus `p`.
    spec fn modulus_spec() -> nat;

    /// The canonical value of the generator.
    spec fn generator_spec() -> nat;

    /// `n` such that the generator has order `2^n`.
    spec fn num_roots_spec() -> nat;

    /// `2^b`, where `b` is the bit length of the modulus: random bytes are
    /// reduced modulo this bound before they are compared with `p`.
    spec fn random_bound_spec() -> nat;

    /// The canonical integer in `[0, p)` that the element stands for.
    spec fn val(&self) -> nat;

    proof fn lemma_parameters()
        ensures
            modulus_ok(Self::modulus_spec() as int),
            Self::modulus_spec() <= Self::random_bound_spec(),
            Self::random_bound_spec() <= byte_base(Self::BYTES as nat),
            Self::BYTES <= 16,
            MAX_ROOTS <= Self::num_roots_spec() < 127,
            Self::generator_spec() < Self::modulus_spec(),
    ;

    proof fn lemma_canonical(&self)
        ensures
            self.val() < Self::modulus_spec(),
    ;

    /// The element `x mod p`.
    fn from_integer(x: u128) -> (r: Self)
        ensures
            r.val() == (x as nat) % Self::modulus_spec(),
    ;

    /// The canonical integer of the element.
    fn to_integer(&self) -> (r: u128)
        ensures
            r == self.val(),
    ;

    /// Modular addition.
    fn add(&self, rhs: &Self) -> (r: Self)
        ensures
            r.val() == (self.val() + rhs.val()) % Self::modulus_spec(),
    ;

    /// Modular subtraction.
    fn sub(&self, rhs: &Self) -> (r: Self)
        ensures
            r.val() == (self.val() - rhs.val()) % (Self::modulus_spec() as int),
    ;

    /// Modular multiplication.
    fn mul(&self, rhs: &Self) -> (r: Self)
        ensures
            r.val() == (self.val() * rhs.val()) % Self::modulus_spec(),
    ;

    /// Multiplication by `rhs.inv()`; dividing by zero yields zero, which
    /// callers must not rely on.
    fn div(&self, rhs: &Self) -> (r: Self)
        ensures
            r.val() == (self.val() as int * pow_mod_spec(
                rhs.val() as int,
                (Self::modulus_spec() - 2) as nat,
                Self::modulus_spec() as int,
            )) % (Self::modulus_spec() as int),
    ;

    /// Additive inverse.
    fn neg(&self) -> (r: Self)
        ensures
            r.val() == (-(self.val() as int)) % (Self::modulus_spec() as int),
    ;

    /// Modular exponentation, i.e., `self^exp (mod p)`.
    fn pow(&self, exp: u128) -> (r: Self)
        ensures
            r.val() == pow_mod_spec(self.val() as int, exp as nat, Self::modulus_spec() as int),
    ;

    /// Modular inversion `self^(p-2) (mod p)`: the inverse of a non-zero
    /// element. If `self` is 0, then the output is not to be relied on.
    fn inv(&self) -> (r: Self)
        ensures
            r.val() == pow_mod_spec(
                self.val() as int,
                (Self::modulus_spec() - 2) as nat,
                Self::modulus_spec() as int,
            ),
    ;

    /// Returns the prime modulus `p`.
    fn modulus() -> (r: u128)
        ensures
            r == Self::modulus_spec(),
    ;

    /// Writes the field element to the end of the buffer: exactly `BYTES`
    /// bytes, least significant first.
    fn append_to(&self, bytes: &mut Vec<u8>)
        ensures
            final(bytes)@ == old(bytes)@ + le_bytes(self.val(), Self::BYTES as nat),
    ;

    /// Interprets the first `BYTES` bytes of the buffer as an element of the
    /// field. An error is returned if the buffer is too short or if the bytes
    /// encode an integer not below the modulus.
    fn read_from(bytes: &[u8]) -> (r: Result<Self, FieldError>)
        ensures
            match r {
                Ok(x) => decode_spec(
                    bytes@,
                    Self::BYTES as nat,
                    byte_base(Self::BYTES as nat),
                    Self::modulus_spec(),
                )
                    == Ok::<nat, FieldError>(x.val()),
                Err(e) => decode_spec(
                    bytes@,
                    Self::BYTES as nat,
                    byte_base(Self::BYTES as nat),
                    Self::modulus_spec(),
                )
                    == Err::<nat, FieldError>(e),
            },
    ;

    /// Interprets the first `BYTES` bytes of the buffer as an element of the
    /// field after clearing the bits above the bit length of the modulus. An
    /// error is returned if the result is not below the modulus.
    ///
    /// This converts random bytes into a field element; it must not be used
    /// to deserialize field elements.
    fn try_from_random(bytes: &[u8]) -> (r: Result<Self, FieldError>)
        ensures
            match r {
                Ok(x) => decode_spec(
                    bytes@,
                    Self::BYTES as nat,
                    Self::random_bound_spec(),
                    Self::modulus_spec(),
                )
                    == Ok::<nat, FieldError>(x.val()),
                Err(e) => decode_spec(
                    bytes@,
                    Self::BYTES as nat,
                    Self::random_bound_spec(),
                    Self::modulus_spec(),
                )
                    == Err::<nat, FieldError>(e),
            },
    ;

    /// Returns the size of the multiplicative subgroup generated by `generator()`.
    fn generator_order() -> (r: u128)
        ensures
            r == two_pow(Self::num_roots_spec()),
    ;

    /// Returns the generator of the multiplicative subgroup of size `generator_order()`.
    fn generator() -> (r: Self)
        ensures
            r.val() == Self::generator_spec(),
    ;

    /// Returns the `2^l`-th principal root of unity, `generator()^(2^(n - l))`,
    /// for any `l <= MAX_ROOTS`, and `None` beyond.
    fn root(l: usize) -> (r: Option<Self>)
        ensures
            r.is_some() == (l <= MAX_ROOTS),
            r matches Some(x) ==> x.val() == pow_mod_spec(
                Self::generator_spec() as int,
                two_pow((Self::num_roots_spec() - l) as nat),
                Self::modulus_spec() as int,
            ),
    ;

    /// Returns the additive identity.
    fn zero() -> (r: Self)
        ensures
            r.val() == 0,
    ;

    /// Returns the multiplicative identity.
    fn one() -> (r: Self)
        ensures
            r.val() == 1,
    ;
}

/// `(a + b) mod p` for two elements, as a canonical integer.
pub open spec fn sum_val<F: FieldElement>(a: F, b: F) -> nat {
    (a.val() + b.val()) % F::modulus_spec()
}

/// The sum of the `j`-th entries of all the vectors in `shares`, over the integers.
pub open spec fn column_sum<F: FieldElement>(shares: Seq<Vec<F>>, j: int) -> int
    decreases shares.len(),
{
    if shares.len() == 0 {
        0
    } else {
        column_sum(shares.drop_last(), j) + shares.last()@[j].val()
    }
}

/// Merge two vectors of fields by summing other_vector into accumulator.
///
/// # Errors
///
/// Fails if the two vectors do not have the same length.
pub fn merge_vector<F: FieldElement>(accumulator: &mut [F], other_vector: &[F]) -> (r: Result<
    (),
    FieldError,
>)
    ensures
        old(accumulator)@.len() != other_vector@.len() ==> r == Err::<(), FieldError>(
            FieldError::InputSizeMismatch,
        ) && final(accumulator)@ == old(accumulator)@,
        old(accumulator)@.len() == other_vector@.len() ==> r == Ok::<(), FieldError>(())
            && final(accumulator)@.len() == old(accumulator)@.len() && forall|i: int|
            0 <= i < other_vector@.len() ==> #[trigger] final(accumulator)@[i].val() == sum_val(
                old(accumulator)@[i],
                other_vector@[i],
            ),
{
    if accumulator.len() != other_vector.len() {
        return Err(FieldError::InputSizeMismatch);
    }
    let n = accumulator.len();
    let mut i: usize = 0;
    while i < n
        invariant
            n == accumulator@.len() == other_vector@.len() == old(accumulator)@.len(),
            i <= n,
            forall|k: int| 0 <= k < i ==> #[trigger] accumulator@[k].val() == sum_val(
                old(accumulator)@[k],
                other_vector@[k],
            ),
            forall|k: int| i <= k < n ==> #[trigger] accumulator@[k] == old(accumulator)@[k],
        decreases n - i,
    {
        let sum = accumulator[i].add(&other_vector[i]);
        accumulator[i] = sum;
        i = i + 1;
    }
    Ok(())
}

/// The values that `try_from_random` accepts from `blocks`, in the order of
/// the blocks; rejected blocks are skipped.
pub open spec fn accepted_values<F: FieldElement>(blocks: Seq<Seq<u8>>) -> Seq<nat>
    decreases blocks.len(),
{
    if blocks.len() == 0 {
        Seq::empty()
    } else {
        let prev = accepted_values::<F>(blocks.drop_last());
        match decode_spec(
            blocks.last(),
            F::BYTES as nat,
            F::random_bound_spec(),
            F::modulus_spec(),
        ) {
            Ok(v) => prev.push(v),
            Err(_) => prev,
        }
    }
}

/// The canonical values of a sequence of field elements.
pub open spec fn values_of<F: FieldElement>(s: Seq<F>) -> Seq<nat> {
    s.map_values(|x: F| x.val())
}

pub proof fn lemma_accepted_values_concat<F: FieldElement>(a: Seq<Seq<u8>>, b: Seq<Seq<u8>>)
    ensures
        accepted_values::<F>(a + b) == accepted_values::<F>(a) + accepted_values::<F>(b),
    decreases b.len(),
{
    if b.len() == 0 {
        assert(a + b =~= a);
        assert(accepted_values::<F>(a) + accepted_values::<F>(b) =~= accepted_values::<F>(a));
    } else {
        assert((a + b).drop_last() =~= a + b.drop_last());
        assert((a + b).last() == b.last());
        lemma_accepted_values_concat::<F>(a, b.drop_last());
        let x = accepted_values::<F>(a);
        let y = accepted_values::<F>(b.drop_last());
        match decode_spec(b.last(), F::BYTES as nat, F::random_bound_spec(), F::modulus_spec()) {
            Ok(v) => {
                assert((x + y).push(v) =~= x + y.push(v));
            },
            Err(_) => {},
        }
    }
}

/// Generate a vector of uniform random field elements: the values accepted
/// by `try_from_random` from successive blocks of random bytes, in order.
pub fn rand<F: FieldElement>(len: usize) -> (r: Result<Vec<F>, getrandom::Error>)
    ensures
        len == 0 ==> (r matches Ok(v) && v@.len() == 0),
        r matches Ok(v) ==> v@.len() == len && exists|blocks: Seq<Seq<u8>>|
            accepted_values::<F>(blocks) == values_of(v@),
{
    let mut v: Vec<F> = Vec::new();
    let ghost mut drawn: Seq<Seq<u8>> = Seq::empty();
    assert(values_of(v@) =~= accepted_values::<F>(drawn));
    while v.len() < len
        invariant
            v@.len() <= len,
            accepted_values::<F>(drawn) == values_of(v@),
        decreases len - v@.len(),
    {
        match random_element::<F>() {
            Ok(x) => {
                let ghost bs = choose|bs: Seq<Seq<u8>>| accepted_values::<F>(bs) == seq![x.val()];
                proof {
                    lemma_accepted_values_concat::<F>(drawn, bs);
                    drawn = drawn + bs;
                }
                let ghost before = v@;
                v.push(x);
                assert(values_of(v@) =~= values_of(before) + seq![x.val()]);
            },
            Err(e) => return Err(e),
        }
    }
    assert(accepted_values::<F>(drawn) == values_of(v@));
    Ok(v)
}

proof fn lemma_column_sum_prepend<F: FieldElement>(first: Vec<F>, rest: Seq<Vec<F>>, j: int)
    ensures
        column_sum(seq![first] + rest, j) == first@[j].val() + column_sum(rest, j),
    decreases rest.len(),
{
    if rest.len() > 0 {
        let s = seq![first] + rest;
        assert(s.drop_last() =~= seq![first] + rest.drop_last());
        assert(s.last() == rest.last());
        lemma_column_sum_prepend(first, rest.drop_last(), j);
        assert(column_sum(s, j) == column_sum(s.drop_last(), j) + s.last()@[j].val());
        assert(column_sum(rest, j) == column_sum(rest.drop_last(), j) + rest.last()@[j].val());
    } else {
        let s = seq![first] + rest;
        assert(s.drop_last() =~= Seq::<Vec<F>>::empty());
        assert(s.last() == first);
        assert(column_sum(s.drop_last(), j) == 0);
        assert(column_sum(rest, j) == 0);
    }
}

/// Outputs the additive secret sharing of `inp` whose shares after the first
/// are `masks`: the first share is `inp` minus the sum of the masks, so the
/// shares sum to `inp`.
pub fn split_with_masks<F: FieldElement>(inp: &[F], masks: Vec<Vec<F>>) -> (r: Vec<Vec<F>>)
    requires
        forall|i: int| 0 <= i < masks@.len() ==> #[trigger] masks@[i]@.len() == inp@.len(),
    ensures
        r@.len() == masks@.len() + 1,
        r@[0]@.len() == inp@.len(),
        forall|j: int| 0 <= j < inp@.len() ==> #[trigger] r@[0]@[j].val() == (inp@[j].val()
            - column_sum(masks@, j)) % (F::modulus_spec() as int),
        forall|i: int| 0 <= i < masks@.len() ==> #[trigger] r@[i + 1] == masks@[i],
        forall|j: int|
            0 <= j < inp@.len() ==> #[trigger] column_sum(r@, j) % (F::modulus_spec() as int)
                == inp@[j].val(),
{
    let n = inp.len();
    let mut first: Vec<F> = Vec::new();
    let mut j: usize = 0;
    while j < n
        invariant
            n == inp@.len(),
            j <= n,
            first@ == inp@.subrange(0, j as int),
        decreases n - j,
    {
        first.push(inp[j]);
        j = j + 1;
    }
    assert(first@ =~= inp@);
    let ghost p = F::modulus_spec() as int;
    proof {
        F::lemma_parameters();
        assert forall|j: int| 0 <= j < n implies #[trigger] first@[j].val() == (inp@[j].val()
            - column_sum(masks@.take(0), j)) % p by {
            inp@[j].lemma_canonical();
            assert(masks@.take(0).len() == 0);
            lemma_small_mod(inp@[j].val(), p as nat);
        }
    }
    let mut i: usize = 0;
    while i < masks.len()
        invariant
            n == inp@.len() == first@.len(),
            i <= masks@.len(),
            p == F::modulus_spec(),
            p > 1,
            forall|k: int| 0 <= k < masks@.len() ==> #[trigger] masks@[k]@.len() == inp@.len(),
            forall|j: int| 0 <= j < n ==> #[trigger] first@[j].val() == (inp@[j].val()
                - column_sum(masks@.take(i as int), j)) % p,
        decreases masks@.len() - i,
    {
        let mut j: usize = 0;
        while j < n
            invariant
                n == inp@.len() == first@.len(),
                i < masks@.len(),
                j <= n,
                p == F::modulus_spec(),
                p > 1,
                masks@[i as int]@.len() == n,
                forall|k: int| 0 <= k < j ==> #[trigger] first@[k].val() == (inp@[k].val()
                    - column_sum(masks@.take(i + 1), k)) % p,
                forall|k: int| j <= k < n ==> #[trigger] first@[k].val() == (inp@[k].val()
                    - column_sum(masks@.take(i as int), k)) % p,
            decreases n - j,
        {
            let d = first[j].sub(&masks[i][j]);
            proof {
                let a = inp@[j as int].val() as int;
                let s = column_sum(masks@.take(i as int), j as int);
                let m = masks@[i as int]@[j as int].val() as int;
                assert(masks@.take(i + 1).drop_last() =~= masks@.take(i as int));
                assert(column_sum(masks@.take(i + 1), j as int) == s + m);
                masks@[i as int]@[j as int].lemma_canonical();
                lemma_small_mod(m as nat, p as nat);
                lemma_sub_mod_noop(a - s, m, p);
                lemma_mod_twice(a - s, p);
                assert((a - s) - m == a - (s + m));
            }
            first.set(j, d);
            j = j + 1;
        }
        i = i + 1;
    }
    assert(masks@.take(masks@.len() as int) =~= masks@);
    let ghost old_masks = masks@;
    let mut masks = masks;
    let mut r: Vec<Vec<F>> = Vec::new();
    r.push(first);
    r.append(&mut masks);
    proof {
        assert(r@ =~= seq![r@[0]] + old_masks);
        assert forall|j: int| 0 <= j < inp@.len() implies #[trigger] column_sum(r@, j) % p
            == inp@[j].val() by {
            lemma_column_sum_prepend(r@[0], old_masks, j);
            let a = inp@[j].val() as int;
            let s = column_sum(old_masks, j);
            inp@[j].lemma_canonical();
            lemma_add_mod_noop(a - s, s, p);
            lemma_mod_twice(a - s, p);
            lemma_mod_twice(s, p);
            lemma_add_mod_noop((a - s) % p, s, p);
            lemma_small_mod(a as nat, p as nat);
        }
    }
    r
}

/// Outputs an additive secret sharing of the input: `num_shares` vectors
/// that sum to `inp`, all but the first drawn uniformly at random.
pub fn split<F: FieldElement>(inp: &[F], num_shares: usize) -> (r: Result<
    Vec<Vec<F>>,
    getrandom::Error,
>)
    ensures
        num_shares == 0 ==> (r matches Ok(shares) && shares@.len() == 0),
        num_shares == 1 || inp@.len() == 0 ==> r is Ok,
        r matches Ok(shares) ==> {
            &&& num_shares == 0 ==> shares@.len() == 0
            &&& num_shares > 0 ==> shares@.len() == num_shares
            &&& forall|i: int| 0 <= i < shares@.len() ==> #[trigger] shares@[i]@.len() == inp@.len()
            &&& num_shares > 0 ==> forall|j: int| 0 <= j < inp@.len() ==>
                #[trigger] column_sum(shares@, j) % (F::modulus_spec() as int) == inp@[j].val()
        },
{
    if num_shares == 0 {
        return Ok(Vec::new());
    }
    let mut masks: Vec<Vec<F>> = Vec::new();
    let mut i: usize = 1;
    while i < num_shares
        invariant
            1 <= i <= num_shares,
            masks@.len() == i - 1,
            forall|k: int| 0 <= k < masks@.len() ==> #[trigger] masks@[k]@.len() == inp@.len(),
        decreases num_shares - i,
    {
        match rand::<F>(inp.len()) {
            Ok(m) => masks.push(m),
            Err(e) => return Err(e),
        }
        i = i + 1;
    }
    let shares = split_with_masks(inp, masks);
    proof {
        assert forall|k: int| 0 <= k < shares@.len() implies #[trigger] shares@[k]@.len()
            == inp@.len() by {
            if k > 0 {
                assert(shares@[(k - 1) + 1] == masks@[k - 1]);
            }
        }
    }
    Ok(shares)
}

/// Addition and subtraction undo each other: for elements `f` and `g`,
/// `f + g - f - g = 0`, `f + g - g = f` and `f + g - f = g`; and
/// `f^0 = 1`, `f^1 = f`.
pub proof fn lemma_field_laws<F: FieldElement>(f: F, g: F)
    ensures
        ({
            let p = F::modulus_spec() as int;
            let s = (f.val() + g.val()) as int % p;
            &&& ((s - f.val()) % p - g.val()) % p == 0
            &&& (s - g.val()) % p == f.val()
            &&& (s - f.val()) % p == g.val()
            &&& pow_mod_spec(f.val() as int, 0, p) == 1
            &&& pow_mod_spec(f.val() as int, 1, p) == f.val()
        }),
{
    let p = F::modulus_spec() as int;
    F::lemma_parameters();
    f.lemma_canonical();
    g.lemma_canonical();
    let a = f.val() as int;
    let b = g.val() as int;
    let s = (a + b) % p;
    lemma_mod_twice(a + b, p);
    lemma_sub_mod_noop(a + b, a, p);
    lemma_small_mod(a as nat, p as nat);
    lemma_small_mod(b as nat, p as nat);
    assert((s - a) % p == b) by {
        lemma_sub_mod_noop(a + b, a, p);
    }
    assert((s - b) % p == a) by {
        lemma_sub_mod_noop(a + b, b, p);
    }
    lemma_small_mod(0, p as nat);
    lemma_sub_mod_noop(b, b, p);
    lemma_pow0(a);
    lemma_pow1(a);
    lemma_small_mod(1, p as nat);
}

/// Multiplying an element by its inverse, on either side, gives the element
/// raised to `p - 1`: the product is one exactly where Fermat's little
/// theorem holds for it.
pub proof fn lemma_inverse_product<F: FieldElement>(f: F)
    ensures
        ({
            let p = F::modulus_spec() as int;
            let i = pow_mod_spec(f.val() as int, (F::modulus_spec() - 2) as nat, p);
            &&& (f.val() * i) % p == pow_mod_spec(f.val() as int, (F::modulus_spec() - 1) as nat, p)
            &&& (i * f.val()) % p == pow_mod_spec(f.val() as int, (F::modulus_spec() - 1) as nat, p)
        }),
{
    F::lemma_parameters();
    let p = F::modulus_spec() as int;
    let a = f.val() as int;
    let e = (F::modulus_spec() - 2) as nat;
    lemma_mul_mod_noop_right(a, pow(a, e), p);
    lemma_pow1(a);
    lemma_pow_adds(a, 1, e);
    assert(1 + e == (F::modulus_spec() - 1) as nat);
    assert(a * pow(a, e) == pow(a, e) * a) by (nonlinear_arith);
    lemma_mul_mod_noop_left(pow(a, e), a, p);
}

/// Serialization round trip: the `BYTES` bytes that `append_to` writes for
/// an element are read back by `read_from` as the same element.
pub proof fn lemma_serialization_round_trip<F: FieldElement>(f: F)
    ensures
        le_bytes(f.val(), F::BYTES as nat).len() == F::BYTES,
        decode_spec(
            le_bytes(f.val(), F::BYTES as nat),
            F::BYTES as nat,
            byte_base(F::BYTES as nat),
            F::modulus_spec(),
        ) == Ok::<nat, FieldError>(f.val()),
{
    F::lemma_parameters();
    f.lemma_canonical();
    let n = F::BYTES as nat;
    let s = le_bytes(f.val(), n);
    lemma_le_bytes_len(f.val(), n);
    lemma_le_round_trip(f.val(), n);
    assert(s.subrange(0, n as int) =~= s);
    lemma_small_mod(f.val(), byte_base(n));
}

proof fn lemma_two_pow_split(a: nat, b: nat)
    ensures
        two_pow(a + b) == two_pow(a) * two_pow(b),
    decreases a,
{
    if a > 0 {
        lemma_two_pow_split((a - 1) as nat, b);
        assert(two_pow(a + b) == 2 * two_pow((a - 1 + b) as nat));
        let x = two_pow((a - 1) as nat);
        let y = two_pow(b);
        assert(2 * (x * y) == (2 * x) * y) by (nonlinear_arith);
        assert(two_pow(a) == 2 * two_pow((a - 1) as nat));
    } else {
        assert(two_pow(0) == 1);
        assert(a + b == b);
    }
}

/// Root table consistency: `generator_order() >> l`, which is
/// `2^n / 2^l`, is the exponent `2^(n - l)` that `root(l)` raises the
/// generator to.
pub proof fn lemma_root_exponent<F: FieldElement>(l: nat)
    requires
        l <= MAX_ROOTS,
    ensures
        two_pow(F::num_roots_spec()) / two_pow(l) == two_pow((F::num_roots_spec() - l) as nat),
{
    F::lemma_parameters();
    let n = F::num_roots_spec();
    lemma_two_pow_split((n - l) as nat, l);
    lemma_two_pow_positive(l);
    lemma_div_by_multiple(two_pow((n - l) as nat) as int, two_pow(l) as int);
}

proof fn lemma_two_pow_positive(n: nat)
    ensures
        two_pow(n) > 0,
    decreases n,
{
    if n > 0 {
        lemma_two_pow_positive((n - 1) as nat);
    }
}

/// The bound that a read reduces by: `bound` where one is given, else
/// `256^width`, which leaves every value as it is.
pub open spec fn reduction_bound(bound: Option<u128>, width: nat) -> nat {
    match bound {
        Some(b) => b as nat,
        None => byte_base(width),
    }
}

/// Reads a residue below `p` from the first `width` bytes, reduced modulo
/// `bound` where one is given.
fn decode_residue(bytes: &[u8], width: usize, bound: Option<u128>, p: u128) -> (r: Result<
    u128,
    FieldError,
>)
    requires
        width <= 16,
        bound matches Some(b) ==> b > 0,
    ensures
        match r {
            Ok(v) => v < p && decode_spec(bytes@, width as nat, reduction_bound(bound, width as nat), p as nat)
                == Ok::<nat, FieldError>(v as nat),
            Err(e) => decode_spec(bytes@, width as nat, reduction_bound(bound, width as nat), p as nat)
                == Err::<nat, FieldError>(e),
        },
{
    if bytes.len() < width {
        return Err(FieldError::FromBytesShortRead);
    }
    let raw = decode_le(bytes, width);
    let v = match bound {
        Some(b) => raw % b,
        None => {
            proof {
                lemma_le_value_bound(bytes@.subrange(0, width as int));
                lemma_small_mod(raw as nat, byte_base(width as nat));
            }
            raw
        },
    };
    if v >= p {
        Err(FieldError::FromBytesModulusOverflow)
    } else {
        Ok(v)
    }
}

/// `GF(4293918721)`, a 32-bit field. The generator has order `2^20`.
#[derive(Clone, Copy, Debug, PartialEq, Eq, Structural)]
pub struct Field32(u128);

/// The modulus of `Field32`.
pub const MODULUS_32: u128 = 4293918721;

/// The generator of `Field32`, of order `2^20`.
pub const GENERATOR_32: u128 = 2948152962;

/// `2^32`, the bound that random bytes are reduced by in `Field32`.
pub const RANDOM_BOUND_32: u128 = 0x1_0000_0000;

impl Field32 {
    #[verifier::type_invariant]
    closed spec fn is_canonical(self) -> bool {
        self.0 < MODULUS_32
    }
}

impl FieldElement for Field32 {
    const BYTES: usize = 4;

    open spec fn modulus_spec() -> nat {
        MODULUS_32 as nat
    }

    open spec fn generator_spec() -> nat {
        GENERATOR_32 as nat
    }

    open spec fn num_roots_spec() -> nat {
        20
    }

    open spec fn random_bound_spec() -> nat {
        RANDOM_BOUND_32 as nat
    }

    closed spec fn val(&self) -> nat {
        (self.0 % MODULUS_32) as nat
    }

    proof fn lemma_parameters() {
        reveal_with_fuel(byte_base, 5);
    }

    proof fn lemma_canonical(&self) {
    }

    fn from_integer(x: u128) -> (r: Self) {
        Field32(x % MODULUS_32)
    }

    fn to_integer(&self) -> (r: u128) {
        proof {
            use_type_invariant(self);
        }
        self.0
    }

    fn add(&self, rhs: &Self) -> (r: Self) {
        proof {
            use_type_invariant(self);
            use_type_invariant(rhs);
        }
        Field32(add_mod(self.0, rhs.0, MODULUS_32))
    }

    fn sub(&self, rhs: &Self) -> (r: Self) {
        proof {
            use_type_invariant(self);
            use_type_invariant(rhs);
        }
        Field32(sub_mod(self.0, rhs.0, MODULUS_32))
    }

    fn mul(&self, rhs: &Self) -> (r: Self) {
        proof {
            use_type_invariant(self);
            use_type_invariant(rhs);
        }
        Field32(mul_mod(self.0, rhs.0, MODULUS_32))
    }

    fn div(&self, rhs: &Self) -> (r: Self) {
        self.mul(&rhs.inv())
    }

    fn neg(&self) -> (r: Self) {
        proof {
            use_type_invariant(self);
        }
        Field32(neg_mod(self.0, MODULUS_32))
    }

    fn pow(&self, exp: u128) -> (r: Self) {
        proof {
            use_type_invariant(self);
        }
        Field32(pow_mod(self.0, exp, MODULUS_32))
    }

    fn inv(&self) -> (r: Self) {
        proof {
            use_type_invariant(self);
        }
        Field32(inv_mod(self.0, MODULUS_32))
    }

    fn modulus() -> (r: u128) {
        MODULUS_32
    }

    fn append_to(&self, bytes: &mut Vec<u8>) {
        proof {
            use_type_invariant(self);
        }
        encode_le(self.0, Self::BYTES, bytes);
    }

    fn read_from(bytes: &[u8]) -> (r: Result<Self, FieldError>) {
        proof {
            Self::lemma_parameters();
        }
        match decode_residue(bytes, Self::BYTES, None, MODULUS_32) {
            Ok(v) => Ok(Field32(v)),
            Err(e) => Err(e),
        }
    }

    fn try_from_random(bytes: &[u8]) -> (r: Result<Self, FieldError>) {
        match decode_residue(bytes, Self::BYTES, Some(RANDOM_BOUND_32), MODULUS_32) {
            Ok(v) => Ok(Field32(v)),
            Err(e) => Err(e),
        }
    }

    fn generator_order() -> (r: u128) {
        two_pow_u128(20)
    }

    fn generator() -> (r: Self) {
        Field32(GENERATOR_32)
    }

    fn root(l: usize) -> (r: Option<Self>) {
        if l <= MAX_ROOTS {
            let e = two_pow_u128((20 - l) as u32);
            Some(Self::generator().pow(e))
        } else {
            None
        }
    }

    fn zero() -> (r: Self) {
        Field32(0)
    }

    fn one() -> (r: Self) {
        Field32(1)
    }
}

/// `GF(15564440312192434177)`, a 64-bit field. The generator has order `2^59`.
#[derive(Clone, Copy, Debug, PartialEq, Eq, Structural)]
pub struct Field64(u128);

/// The modulus of `Field64`.
pub const MODULUS_64: u128 = 15564440312192434177;

/// The generator of `Field64`, of order `2^59`.
pub const GENERATOR_64: u128 = 7450580596923828125;

/// `2^64`, the bound that random bytes are reduced by in `Field64`.
pub const RANDOM_BOUND_64: u128 = 0x1_0000_0000_0000_0000;

impl Field64 {
    #[verifier::type_invariant]
    closed spec fn is_canonical(self) -> bool {
        self.0 < MODULUS_64
    }
}

impl FieldElement for Field64 {
    const BYTES: usize = 8;

    open spec fn modulus_spec() -> nat {
        MODULUS_64 as nat
    }

    open spec fn generator_spec() -> nat {
        GENERATOR_64 as nat
    }

    open spec fn num_roots_spec() -> nat {
        59
    }

    open spec fn random_bound_spec() -> nat {
        RANDOM_BOUND_64 as nat
    }

    closed spec fn val(&self) -> nat {
        (self.0 % MODULUS_64) as nat
    }

    proof fn lemma_parameters() {
        reveal_with_fuel(byte_base, 9);
    }

    proof fn lemma_canonical(&self) {
    }

    fn from_integer(x: u128) -> (r: Self) {
        Field64(x % MODULUS_64)
    }

    fn to_integer(&self) -> (r: u128) {
        proof {
            use_type_invariant(self);
        }
        self.0
    }

    fn add(&self, rhs: &Self) -> (r: Self) {
        proof {
            use_type_invariant(self);
            use_type_invariant(rhs);
        }
        Field64(add_mod(self.0, rhs.0, MODULUS_64))
    }

    fn sub(&self, rhs: &Self) -> (r: Self) {
        proof {
            use_type_invariant(self);
            use_type_invariant(rhs);
        }
        Field64(sub_mod(self.0, rhs.0, MODULUS_64))
    }

    fn mul(&self, rhs: &Self) -> (r: Self) {
        proof {
            use_type_invariant(self);
            use_type_invariant(rhs);
        }
        Field64(mul_mod(self.0, rhs.0, MODULUS_64))
    }

    fn div(&self, rhs: &Self) -> (r: Self) {
        self.mul(&rhs.inv())
    }

    fn neg(&self) -> (r: Self) {
        proof {
            use_type_invariant(self);
        }
        Field64(neg_mod(self.0, MODULUS_64))
    }

    fn pow(&self, exp: u128) -> (r: Self) {
        proof {
            use_type_invariant(self);
        }
        Field64(pow_mod(self.0, exp, MODULUS_64))
    }

    fn inv(&self) -> (r: Self) {
        proof {
            use_type_invariant(self);
        }
        Field64(inv_mod(self.0, MODULUS_64))
    }

    fn modulus() -> (r: u128) {
        MODULUS_64
    }

    fn append_to(&self, bytes: &mut Vec<u8>) {
        proof {
            use_type_invariant(self);
        }
        encode_le(self.0, Self::BYTES, bytes);
    }

    fn read_from(bytes: &[u8]) -> (r: Result<Self, FieldError>) {
        proof {
            Self::lemma_parameters();
        }
        match decode_residue(bytes, Self::BYTES, None, MODULUS_64) {
            Ok(v) => Ok(Field64(v)),
            Err(e) => Err(e),
        }
    }

    fn try_from_random(bytes: &[u8]) -> (r: Result<Self, FieldError>) {
        match decode_residue(bytes, Self::BYTES, Some(RANDOM_BOUND_64), MODULUS_64) {
            Ok(v) => Ok(Field64(v)),
            Err(e) => Err(e),
        }
    }

    fn generator_order() -> (r: u128) {
        two_pow_u128(59)
    }

    fn generator() -> (r: Self) {
        Field64(GENERATOR_64)
    }

    fn root(l: usize) -> (r: Option<Self>) {
        if l <= MAX_ROOTS {
            let e = two_pow_u128((59 - l) as u32);
            Some(Self::generator().pow(e))
        } else {
            None
        }
    }

    fn zero() -> (r: Self) {
        Field64(0)
    }

    fn one() -> (r: Self) {
        Field64(1)
    }
}

/// `GF(779190469673491460259841)`, an 80-bit field. The generator has order `2^72`.
#[derive(Clone, Copy, Debug, PartialEq, Eq, Structural)]
pub struct Field80(u128);

/// The modulus of `Field80`.
pub const MODULUS_80: u128 = 779190469673491460259841;

/// The generator of `Field80`, of order `2^72`.
pub const GENERATOR_80: u128 = 734861153096344921958856;

/// `2^80`, the bound that random bytes are reduced by in `Field80`.
pub const RANDOM_BOUND_80: u128 = 0x1_0000_0000_0000_0000_0000;

impl Field80 {
    #[verifier::type_invariant]
    closed spec fn is_canonical(self) -> bool {
        self.0 < MODULUS_80
    }
}

impl FieldElement for Field80 {
    const BYTES: usize = 10;

    open spec fn modulus_spec() -> nat {
        MODULUS_80 as nat
    }

    open spec fn generator_spec() -> nat {
        GENERATOR_80 as nat
    }

    open spec fn num_roots_spec() -> nat {
        72
    }

    open spec fn random_bound_spec() -> nat {
        RANDOM_BOUND_80 as nat
    }

    closed spec fn val(&self) -> nat {
        (self.0 % MODULUS_80) as nat
    }

    proof fn lemma_parameters() {
        reveal_with_fuel(byte_base, 11);
    }

    proof fn lemma_canonical(&self) {
    }

    fn from_integer(x: u128) -> (r: Self) {
        Field80(x % MODULUS_80)
    }

    fn to_integer(&self) -> (r: u128) {
        proof {
            use_type_invariant(self);
        }
        self.0
    }

    fn add(&self, rhs: &Self) -> (r: Self) {
        proof {
            use_type_invariant(self);
            use_type_invariant(rhs);
        }
        Field80(add_mod(self.0, rhs.0, MODULUS_80))
    }

    fn sub(&self, rhs: &Self) -> (r: Self) {
        proof {
            use_type_invariant(self);
            use_type_invariant(rhs);
        }
        Field80(sub_mod(self.0, rhs.0, MODULUS_80))
    }

    fn mul(&self, rhs: &Self) -> (r: Self) {
        proof {
            use_type_invariant(self);
            use_type_invariant(rhs);
        }
        Field80(mul_mod(self.0, rhs.0, MODULUS_80))
    }

    fn div(&self, rhs: &Self) -> (r: Self) {
        self.mul(&rhs.inv())
    }

    fn neg(&self) -> (r: Self) {
        proof {
            use_type_invariant(self);
        }
        Field80(neg_mod(self.0, MODULUS_80))
    }

    fn pow(&self, exp: u128) -> (r: Self) {
        proof {
            use_type_invariant(self);
        }
        Field80(pow_mod(self.0, exp, MODULUS_80))
    }

    fn inv(&self) -> (r: Self) {
        proof {
            use_type_invariant(self);
        }
        Field80(inv_mod(self.0, MODULUS_80))
    }

    fn modulus() -> (r: u128) {
        MODULUS_80
    }

    fn append_to(&self, bytes: &mut Vec<u8>) {
        proof {
            use_type_invariant(self);
        }
        encode_le(self.0, Self::BYTES, bytes);
    }

    fn read_from(bytes: &[u8]) -> (r: Result<Self, FieldError>) {
        proof {
            Self::lemma_parameters();
        }
        match decode_residue(bytes, Self::BYTES, None, MODULUS_80) {
            Ok(v) => Ok(Field80(v)),
            Err(e) => Err(e),
        }
    }

    fn try_from_random(bytes: &[u8]) -> (r: Result<Self, FieldError>) {
        match decode_residue(bytes, Self::BYTES, Some(RANDOM_BOUND_80), MODULUS_80) {
            Ok(v) => Ok(Field80(v)),
            Err(e) => Err(e),
        }
    }

    fn generator_order() -> (r: u128) {
        two_pow_u128(72)
    }

    fn generator() -> (r: Self) {
        Field80(GENERATOR_80)
    }

    fn root(l: usize) -> (r: Option<Self>) {
        if l <= MAX_ROOTS {
            let e = two_pow_u128((72 - l) as u32);
            Some(Self::generator().pow(e))
        } else {
            None
        }
    }

    fn zero() -> (r: Self) {
        Field80(0)
    }

    fn one() -> (r: Self) {
        Field80(1)
    }
}

/// `GF(74769074762901517850839147140769382401)`, a 126-bit field. The generator
/// has order `2^118`.
#[derive(Clone, Copy, Debug, PartialEq, Eq, Structural)]
pub struct Field126(u128);

/// The modulus of `Field126`.
pub const MODULUS_126: u128 = 74769074762901517850839147140769382401;

/// The generator of `Field126`, of order `2^118`.
pub const GENERATOR_126: u128 = 43421413544015439978138831414974882540;

/// `2^126`, the bound that random bytes are reduced by in `Field126`.
pub const RANDOM_BOUND_126: u128 = 0x4000_0000_0000_0000_0000_0000_0000_0000;

impl Field126 {
    #[verifier::type_invariant]
    closed spec fn is_canonical(self) -> bool {
        self.0 < MODULUS_126
    }
}

impl FieldElement for Field126 {
    const BYTES: usize = 16;

    open spec fn modulus_spec() -> nat {
        MODULUS_126 as nat
    }

    open spec fn generator_spec() -> nat {
        GENERATOR_126 as nat
    }

    open spec fn num_roots_spec() -> nat {
        118
    }

    open spec fn random_bound_spec() -> nat {
        RANDOM_BOUND_126 as nat
    }

    closed spec fn val(&self) -> nat {
        (self.0 % MODULUS_126) as nat
    }

    proof fn lemma_parameters() {
        lemma_byte_base_16();
    }

    proof fn lemma_canonical(&self) {
    }

    fn from_integer(x: u128) -> (r: Self) {
        Field126(x % MODULUS_126)
    }

    fn to_integer(&self) -> (r: u128) {
        proof {
            use_type_invariant(self);
        }
        self.0
    }

    fn add(&self, rhs: &Self) -> (r: Self) {
        proof {
            use_type_invariant(self);
            use_type_invariant(rhs);
        }
        Field126(add_mod(self.0, rhs.0, MODULUS_126))
    }

    fn sub(&self, rhs: &Self) -> (r: Self) {
        proof {
            use_type_invariant(self);
            use_type_invariant(rhs);
        }
        Field126(sub_mod(self.0, rhs.0, MODULUS_126))
    }

    fn mul(&self, rhs: &Self) -> (r: Self) {
        proof {
            use_type_invariant(self);
            use_type_invariant(rhs);
        }
        Field126(mul_mod(self.0, rhs.0, MODULUS_126))
    }

    fn div(&self, rhs: &Self) -> (r: Self) {
        self.mul(&rhs.inv())
    }

    fn neg(&self) -> (r: Self) {
        proof {
            use_type_invariant(self);
        }
        Field126(neg_mod(self.0, MODULUS_126))
    }

    fn pow(&self, exp: u128) -> (r: Self) {
        proof {
            use_type_invariant(self);
        }
        Field126(pow_mod(self.0, exp, MODULUS_126))
    }

    fn inv(&self) -> (r: Self) {
        proof {
            use_type_invariant(self);
        }
        Field126(inv_mod(self.0, MODULUS_126))
    }

    fn modulus() -> (r: u128) {
        MODULUS_126
    }

    fn append_to(&self, bytes: &mut Vec<u8>) {
        proof {
            use_type_invariant(self);
        }
        encode_le(self.0, Self::BYTES, bytes);
    }

    fn read_from(bytes: &[u8]) -> (r: Result<Self, FieldError>) {
        proof {
            Self::lemma_parameters();
        }
        match decode_residue(bytes, Self::BYTES, None, MODULUS_126) {
            Ok(v) => Ok(Field126(v)),
            Err(e) => Err(e),
        }
    }

    fn try_from_random(bytes: &[u8]) -> (r: Result<Self, FieldError>) {
        match decode_residue(bytes, Self::BYTES, Some(RANDOM_BOUND_126), MODULUS_126) {
            Ok(v) => Ok(Field126(v)),
            Err(e) => Err(e),
        }
    }

    fn generator_order() -> (r: u128) {
        two_pow_u128(118)
    }

    fn generator() -> (r: Self) {
        Field126(GENERATOR_126)
    }

    fn root(l: usize) -> (r: Option<Self>) {
        if l <= MAX_ROOTS {
            let e = two_pow_u128((118 - l) as u32);
            Some(Self::generator().pow(e))
        } else {
            None
        }
    }

    fn zero() -> (r: Self) {
        Field126(0)
    }

    fn one() -> (r: Self) {
        Field126(1)
    }
}

} // verus!
