//! Fixed-width little-endian encoding of integers.
use vstd::prelude::*;

verus! {

/// `256^n`.
pub open spec fn byte_base(n: nat) -> nat
    decreases n,
{
    if n == 0 {
        1
    } else {
        256 * byte_base((n - 1) as nat)
    }
}

/// `2^n`.
pub open spec fn two_pow(n: nat) -> nat
    decreases n,
{
    if n == 0 {
        1
    } else {
        2 * two_pow((n - 1) as nat)
    }
}

/// The integer that the bytes `s` spell in little-endian order.
pub open spec fn le_value(s: Seq<u8>) -> nat
    decreases s.len(),
{
    if s.len() == 0 {
        0
    } else {
        s[0] as nat + 256 * le_value(s.subrange(1, s.len() as int))
    }
}

/// The `n` low-order bytes of `v`, least significant first.
pub open spec fn le_bytes(v: nat, n: nat) -> Seq<u8>
    decreases n,
{
    if n == 0 {
        Seq::empty()
    } else {
        seq![(v % 256) as u8].add(le_bytes(v / 256, (n - 1) as nat))
    }
}

pub proof fn lemma_le_bytes_len(v: nat, n: nat)
    ensures
        le_bytes(v, n).len() == n,
    decreases n,
{
    if n > 0 {
        lemma_le_bytes_len(v / 256, (n - 1) as nat);
    }
}

pub proof fn lemma_le_value_bound(s: Seq<u8>)
    ensures
        le_value(s) < byte_base(s.len()),
    decreases s.len(),
{
    if s.len() > 0 {
        lemma_le_value_bound(s.subrange(1, s.len() as int));
    }
}

/// Decoding the `n` low-order bytes of `v` gives `v` back when it fits.
pub proof fn lemma_le_round_trip(v: nat, n: nat)
    requires
        v < byte_base(n),
    ensures
        le_value(le_bytes(v, n)) == v,
    decreases n,
{
    if n > 0 {
        let rest = le_bytes(v / 256, (n - 1) as nat);
        lemma_le_bytes_len(v / 256, (n - 1) as nat);
        assert(v / 256 < byte_base((n - 1) as nat));
        lemma_le_round_trip(v / 256, (n - 1) as nat);
        let s = le_bytes(v, n);
        assert(s.subrange(1, s.len() as int) =~= rest);
    }
}

pub proof fn lemma_byte_base_16()
    ensures
        byte_base(16) == 0x1_0000_0000_0000_0000_0000_0000_0000_0000,
{
    reveal_with_fuel(byte_base, 17);
}

proof fn lemma_byte_base_mono(m: nat, n: nat)
    requires
        m <= n,
    ensures
        byte_base(m) <= byte_base(n),
    decreases n,
{
    if m < n {
        lemma_byte_base_mono(m, (n - 1) as nat);
    }
}

/// Reads `s[i..n]` as a little-endian integer.
fn decode_from(s: &[u8], i: usize, n: usize) -> (r: u128)
    requires
        i <= n,
        n <= s@.len(),
        n - i <= 16,
    ensures
        r == le_value(s@.subrange(i as int, n as int)),
    decreases n - i,
{
    let ghost t = s@.subrange(i as int, n as int);
    if i == n {
        0
    } else {
        let rest = decode_from(s, i + 1, n);
        proof {
            assert(t.subrange(1, t.len() as int) =~= s@.subrange(i + 1, n as int));
            lemma_le_value_bound(s@.subrange(i + 1, n as int));
            lemma_byte_base_mono((n - i - 1) as nat, 15);
            lemma_byte_base_16();
            assert(byte_base(16) == 256 * byte_base(15));
        }
        s[i] as u128 + 256 * rest
    }
}

/// Reads the first `n` bytes of `s` as a little-endian integer.
pub fn decode_le(s: &[u8], n: usize) -> (r: u128)
    requires
        n <= s@.len(),
        n <= 16,
    ensures
        r == le_value(s@.subrange(0, n as int)),
{
    decode_from(s, 0, n)
}

/// Appends the `n` low-order bytes of `v` to `out`, least significant first.
pub fn encode_le(v: u128, n: usize, out: &mut Vec<u8>)
    ensures
        final(out)@ == old(out)@ + le_bytes(v as nat, n as nat),
    decreases n,
{
    if n == 0 {
        assert(old(out)@ + le_bytes(v as nat, 0) =~= old(out)@);
    } else {
        out.push((v % 256) as u8);
        let ghost mid = out@;
        encode_le(v / 256, n - 1, out);
        assert(final(out)@ =~= old(out)@ + le_bytes(v as nat, n as nat));
    }
}

proof fn lemma_two_pow_mono(m: nat, n: nat)
    requires
        m <= n,
    ensures
        two_pow(m) <= two_pow(n),
    decreases n,
{
    if m < n {
        lemma_two_pow_mono(m, (n - 1) as nat);
    }
}

proof fn lemma_two_pow_bytes(k: nat)
    ensures
        two_pow(8 * k) == byte_base(k),
    decreases k,
{
    if k > 0 {
        lemma_two_pow_bytes((k - 1) as nat);
        let m = (8 * (k - 1)) as nat;
        reveal_with_fuel(two_pow, 9);
        assert(two_pow(m + 8) == 256 * two_pow(m));
        assert(8 * k == m + 8);
    }
}

pub proof fn lemma_two_pow_126()
    ensures
        two_pow(126) == 0x4000_0000_0000_0000_0000_0000_0000_0000,
{
    lemma_two_pow_bytes(16);
    lemma_byte_base_16();
    assert(two_pow(128) == 2 * two_pow(127));
    assert(two_pow(127) == 2 * two_pow(126));
}

/// `2^n` as a machine integer.
pub fn two_pow_u128(n: u32) -> (r: u128)
    requires
        n < 128,
    ensures
        r == two_pow(n as nat),
{
    let mut r: u128 = 1;
    let mut i: u32 = 0;
    while i < n
        invariant
            i <= n < 128,
            r == two_pow(i as nat),
        decreases n - i,
    {
        proof {
            lemma_two_pow_mono(i as nat, 126);
            lemma_two_pow_126();
        }
        r = r * 2;
        i = i + 1;
    }
    r
}

} // verus!
