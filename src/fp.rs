//! Modular arithmetic on canonical residues held in a `u128`.
//!
//! Every function takes the modulus `p` as an argument and works on values in
//! `[0, p)`. Moduli below `2^126` are accepted, so that the sum of two residues
//! always fits in a `u128`.
use vstd::arithmetic::div_mod::*;
use vstd::arithmetic::power::*;
use vstd::prelude::*;

verus! {

/// `2^126`, the exclusive bound on accepted moduli.
pub const MODULUS_LIMIT: u128 = 0x4000_0000_0000_0000_0000_0000_0000_0000;

/// A modulus the engine can work with.
pub open spec fn modulus_ok(p: int) -> bool {
    1 < p < MODULUS_LIMIT as int
}

/// `b^e mod p`, the value every exponentiation is measured against.
pub open spec fn pow_mod_spec(b: int, e: nat, p: int) -> int {
    pow(b, e) % p
}

/// `(a + b) mod p`.
pub fn add_mod(a: u128, b: u128, p: u128) -> (r: u128)
    requires
        modulus_ok(p as int),
        a < p,
        b < p,
    ensures
        r == (a + b) % (p as int),
{
    let s = a + b;
    if s >= p {
        proof {
            lemma_mod_sub_multiples_vanish(s as int, p as int);
            lemma_small_mod((s - p) as nat, p as nat);
        }
        s - p
    } else {
        proof {
            lemma_small_mod(s as nat, p as nat);
        }
        s
    }
}

/// `(a - b) mod p`, as the residue in `[0, p)`.
pub fn sub_mod(a: u128, b: u128, p: u128) -> (r: u128)
    requires
        modulus_ok(p as int),
        a < p,
        b < p,
    ensures
        r == (a - b) % (p as int),
{
    if a >= b {
        proof {
            lemma_small_mod((a - b) as nat, p as nat);
        }
        a - b
    } else {
        proof {
            lemma_mod_add_multiples_vanish(a - b, p as int);
            lemma_small_mod((a + p - b) as nat, p as nat);
        }
        a + (p - b)
    }
}

/// `(-a) mod p`.
pub fn neg_mod(a: u128, p: u128) -> (r: u128)
    requires
        modulus_ok(p as int),
        a < p,
    ensures
        r == (-a) % (p as int),
{
    sub_mod(0, a, p)
}

proof fn lemma_double_step(acc: int, x: int, k: int, p: int)
    requires
        p > 0,
        k > 0,
    ensures
        ((acc + x * (k % 2)) % p + ((2 * x) % p) * (k / 2)) % p == (acc + x * k) % p,
{
    let u = acc + x * (k % 2);
    let h = k / 2;
    let w = ((2 * x) % p) * h;
    lemma_add_mod_noop(u, w, p);
    lemma_mod_twice(u, p);
    lemma_add_mod_noop(u % p, w, p);
    lemma_mul_mod_noop_left(2 * x, h, p);
    lemma_add_mod_noop(u, 2 * x * h, p);
    lemma_fundamental_div_mod(k, 2);
    assert(u + 2 * x * h == acc + x * k) by (nonlinear_arith)
        requires
            u == acc + x * (k % 2),
            h == k / 2,
            k == 2 * (k / 2) + k % 2,
    ;
}

/// `(a * b) mod p`, by doubling and adding so that no intermediate value
/// leaves `[0, 2p)`.
pub fn mul_mod(a: u128, b: u128, p: u128) -> (r: u128)
    requires
        modulus_ok(p as int),
        a < p,
        b < p,
    ensures
        r == (a * b) % (p as int),
{
    let mut acc: u128 = 0;
    let mut x: u128 = a;
    let mut k: u128 = b;
    proof {
        lemma_small_mod(a as nat, p as nat);
    }
    while k > 0
        invariant
            modulus_ok(p as int),
            acc < p,
            x < p,
            (acc + x * k) % (p as int) == (a * b) % (p as int),
        decreases k,
    {
        proof {
            lemma_double_step(acc as int, x as int, k as int, p as int);
        }
        let ghost a0 = acc as int;
        if k % 2 == 1 {
            acc = add_mod(acc, x, p);
            assert(x * (k % 2) == x) by (nonlinear_arith)
                requires
                    k % 2 == 1,
            ;
        } else {
            proof {
                lemma_small_mod(acc as nat, p as nat);
            }
            assert(x * (k % 2) == 0) by (nonlinear_arith)
                requires
                    k % 2 == 0,
            ;
        }
        assert(acc == (a0 + x * (k % 2)) % (p as int));
        x = add_mod(x, x, p);
        k = k / 2;
    }
    proof {
        lemma_small_mod(acc as nat, p as nat);
    }
    acc
}

proof fn lemma_square_step(acc: int, x: int, k: nat, p: int)
    requires
        p > 0,
    ensures
        (((acc * pow(x, k % 2)) % p) * pow((x * x) % p, k / 2)) % p == (acc * pow(x, k)) % p,
{
    let c = k % 2;
    let h = k / 2;
    let a1 = acc * pow(x, c);
    lemma_pow_mod_noop(x * x, h, p);
    lemma_mul_mod_noop(a1, pow((x * x) % p, h), p);
    lemma_mod_twice(a1, p);
    lemma_mul_mod_noop(a1, pow(x * x, h), p);
    lemma_mod_twice(pow(x * x, h), p);
    lemma_mul_mod_noop(a1 % p, pow((x * x) % p, h), p);
    lemma_pow_multiplies(x, 2, h);
    lemma_pow1(x);
    lemma_pow_adds(x, 1, 1);
    assert(pow(x, 2) == x * x);
    lemma_pow_adds(x, c, 2 * h);
    assert(c + 2 * h == k);
    assert(a1 * pow(x * x, h) == acc * pow(x, k)) by (nonlinear_arith)
        requires
            a1 == acc * pow(x, c),
            pow(x, k) == pow(x, c) * pow(x, 2 * h),
            pow(x, 2 * h) == pow(x * x, h),
    ;
}

/// `b^e mod p`, by square and multiply.
pub fn pow_mod(b: u128, e: u128, p: u128) -> (r: u128)
    requires
        modulus_ok(p as int),
        b < p,
    ensures
        r == pow_mod_spec(b as int, e as nat, p as int),
{
    let mut acc: u128 = 1;
    let mut x: u128 = b;
    let mut k: u128 = e;
    proof {
        lemma_pow0(b as int);
    }
    while k > 0
        invariant
            modulus_ok(p as int),
            acc < p,
            x < p,
            (acc * pow(x as int, k as nat)) % (p as int) == pow(b as int, e as nat) % (p as int),
        decreases k,
    {
        proof {
            lemma_square_step(acc as int, x as int, k as nat, p as int);
            lemma_pow0(x as int);
            lemma_pow1(x as int);
        }
        if k % 2 == 1 {
            acc = mul_mod(acc, x, p);
        } else {
            proof {
                lemma_small_mod(acc as nat, p as nat);
            }
        }
        x = mul_mod(x, x, p);
        k = k / 2;
    }
    proof {
        lemma_pow0(x as int);
        lemma_small_mod(acc as nat, p as nat);
    }
    acc
}

/// `a^(p-2) mod p`: the inverse of `a` when `p` is prime and `a != 0`, and
/// `0` when `a == 0`.
pub fn inv_mod(a: u128, p: u128) -> (r: u128)
    requires
        modulus_ok(p as int),
        a < p,
    ensures
        r == pow_mod_spec(a as int, (p - 2) as nat, p as int),
{
    pow_mod(a, p - 2, p)
}

} // verus!
