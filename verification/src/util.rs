//! Bit- and byte-level helpers: little-endian bit decompositions and the
//! splitting of a 256-bit scalar encoding into two 128-bit halves.
use vstd::prelude::*;

use crate::radix::all_bits;
use crate::radix::bits_val;
use crate::radix::bytes_val;
use crate::radix::lemma_bits_val_snoc;
use crate::radix::lemma_bytes_val_split;
use crate::radix::lemma_pow256_16;
use crate::radix::pow256;
use crate::radix::pow2n;
use crate::scalar::Scalar;

verus! {

broadcast use vstd::array::group_array_axioms;

/// The little-endian bits of one byte.
pub fn byte_to_le_bits(b: u8) -> (r: Vec<bool>)
    ensures
        r@.len() == 8,
        forall|i: int|
            0 <= i < 8 ==> r@[i] == (((b as nat) / pow2n(i as nat)) % 2 == 1),
{
    let mut res: Vec<bool> = Vec::new();
    let mut cur: u8 = b;
    proof {
        lemma_div_one(b as nat);
    }
    for i in 0..8usize
        invariant
            res@.len() == i,
            cur == (b as nat) / pow2n(i as nat),
            forall|j: int|
                0 <= j < i ==> res@[j] == (((b as nat) / pow2n(j as nat)) % 2 == 1),
    {
        res.push(cur % 2 == 1);
        proof {
            lemma_pow2n_pos(i as nat);
            assert((b as nat) / pow2n(i as nat) / 2 == (b as nat) / (pow2n(i as nat) * 2)) by {
                vstd::arithmetic::div_mod::lemma_div_denominator(
                    b as int,
                    pow2n(i as nat) as int,
                    2,
                );
            }
            assert(pow2n((i + 1) as nat) == pow2n(i as nat) * 2) by (nonlinear_arith)
                requires
                    pow2n((i + 1) as nat) == 2 * pow2n(i as nat),
            ;
        }
        cur = cur / 2;
    }
    res
}

/// The 128 little-endian bits of a 128-bit integer, each 0 or 1.
/// Their little-endian recomposition is the input again.
pub fn decompose_u128(a: u128) -> (r: Vec<u64>)
    ensures
        r@.len() == 128,
        all_bits(r@),
        bits_val(r@) == a as nat,
        forall|i: int|
            0 <= i < 128 ==> r@[i] == ((a as nat) / pow2n(i as nat)) % 2,
{
    let mut res: Vec<u64> = Vec::new();
    let mut cur: u128 = a;
    proof {
        lemma_div_one(a as nat);
        assert(pow2n(0) * cur == cur) by (nonlinear_arith)
            requires
                pow2n(0) == 1,
        ;
    }
    for i in 0..128usize
        invariant
            res@.len() == i,
            cur == (a as nat) / pow2n(i as nat),
            bits_val(res@) + pow2n(i as nat) * cur == a as nat,
            all_bits(res@),
            forall|j: int|
                0 <= j < i ==> res@[j] == ((a as nat) / pow2n(j as nat)) % 2,
    {
        let bit: u64 = (cur % 2) as u64;
        let ghost res0 = res@;
        let ghost cur0 = cur as nat;
        res.push(bit);
        cur = cur / 2;
        proof {
            let q = pow2n(i as nat);
            lemma_pow2n_pos(i as nat);
            assert((a as nat) / q / 2 == (a as nat) / (q * 2)) by {
                vstd::arithmetic::div_mod::lemma_div_denominator(a as int, q as int, 2);
            }
            assert(pow2n((i + 1) as nat) == 2 * q);
            assert(res@ == res0.push(bit));
            lemma_bits_val_snoc(res0, bit);
            assert(bits_val(res@) == bits_val(res0) + bit * q);
            assert(cur0 == 2 * (cur0 / 2) + cur0 % 2) by {
                vstd::arithmetic::div_mod::lemma_fundamental_div_mod(cur0 as int, 2);
            }
            assert(bit == cur0 % 2);
            assert(cur == cur0 / 2);
            assert(q * cur0 == (cur0 % 2) * q + (2 * q) * (cur0 / 2)) by (nonlinear_arith)
                requires
                    cur0 == 2 * (cur0 / 2) + cur0 % 2,
            ;
            assert(bits_val(res@) + pow2n((i + 1) as nat) * cur == bits_val(res0) + q * cur0);
        }
    }
    proof {
        assert(cur == 0) by {
            lemma_pow256_16();
            assert(pow2n(128) * cur <= a);
            if cur >= 1 {
                assert(pow2n(128) * cur >= pow2n(128) * 1) by (nonlinear_arith)
                    requires
                        cur >= 1,
                ;
            }
        }
        assert(pow2n(128) * (0 as nat) == 0) by (nonlinear_arith);
        assert(bits_val(res@) == a as nat);
    }
    res
}

/// 2^m divides 2^n for m <= n, and the powers are monotone.
pub proof fn lemma_pow2n_le(m: nat, n: nat)
    requires
        m <= n,
    ensures
        pow2n(m) <= pow2n(n),
{
    crate::radix::lemma_pow2n_adds(m, (n - m) as nat);
    assert(pow2n((n - m) as nat) >= 1) by {
        lemma_pow2n_pos((n - m) as nat);
    }
    assert(pow2n(m) * 1 <= pow2n(m) * pow2n((n - m) as nat)) by (nonlinear_arith)
        requires
            pow2n((n - m) as nat) >= 1,
            pow2n(m) >= 0,
    ;
}

pub proof fn lemma_pow2n_pos(n: nat)
    ensures
        pow2n(n) >= 1,
    decreases n,
{
    if n > 0 {
        lemma_pow2n_pos((n - 1) as nat);
    }
}

/// Splits a 256-bit little-endian scalar encoding into its 128-bit high
/// and low halves: high * 2^128 + low recomposes the scalar.
pub fn field_decompose_u128(s: &Scalar) -> (r: (u128, u128))
    ensures
        r.0 as nat * pow2n(128) + r.1 as nat == s@,
        r.0 as nat == bytes_val(s.bytes@.skip(16)),
        r.1 as nat == bytes_val(s.bytes@.take(16)),
{
    let low = bytes_to_u128(&s.bytes, 0);
    let high = bytes_to_u128(&s.bytes, 16);
    proof {
        lemma_bytes_val_split(s.bytes@, 16);
        lemma_pow256_16();
        assert(bytes_val(s.bytes@.skip(16)) * pow256(16) == pow256(16) * bytes_val(
            s.bytes@.skip(16),
        )) by (nonlinear_arith);
        assert(s.bytes@.subrange(0, 16) =~= s.bytes@.take(16));
        assert(s.bytes@.subrange(16, 32) =~= s.bytes@.skip(16));
    }
    (high, low)
}

/// The value of 16 consecutive bytes, little endian.
fn bytes_to_u128(bytes: &[u8; 32], start: usize) -> (r: u128)
    requires
        start + 16 <= 32,
    ensures
        r as nat == bytes_val(bytes@.subrange(start as int, start + 16)),
{
    let mut acc: u128 = 0;
    let mut i: usize = 16;
    proof {
        assert(bytes@.subrange(start + 16, start + 16) =~= Seq::<u8>::empty());
    }
    while i > 0
        invariant
            start + 16 <= 32,
            i <= 16,
            acc as nat == bytes_val(bytes@.subrange(start + i as int, start + 16)),
            acc < pow256((16 - i) as nat),
        decreases i,
    {
        proof {
            lemma_pow256_16();
            crate::radix::lemma_pow256_adds((16 - i) as nat, 1);
            assert(pow256(1) == 256) by {
                reveal_with_fuel(pow256, 3);
            }
            lemma_pow256_le((16 - i + 1) as nat, 16);
            assert(pow256((16 - i) as nat) * 256 <= pow256(16)) by (nonlinear_arith)
                requires
                    pow256((16 - i + 1) as nat) == pow256((16 - i) as nat) * pow256(1),
                    pow256(1) == 256,
                    pow256((16 - i + 1) as nat) <= pow256(16),
            ;
            let sub = bytes@.subrange(start + i - 1, start + 16);
            assert(sub.drop_first() =~= bytes@.subrange(start + i as int, start + 16));
            assert(bytes_val(sub) == sub[0] + 256 * bytes_val(sub.drop_first()));
        }
        i = i - 1;
        acc = acc * 256 + (bytes[start + i] as u128);
    }
    proof {
        assert(bytes@.subrange(start as int, start + 16) =~= bytes@.subrange(
            start + 0,
            start + 16,
        ));
    }
    acc
}

pub proof fn lemma_pow256_le(m: nat, n: nat)
    requires
        m <= n,
    ensures
        pow256(m) <= pow256(n),
{
    crate::radix::lemma_pow256_adds(m, (n - m) as nat);
    lemma_pow256_pos((n - m) as nat);
    assert(pow256(m) * 1 <= pow256(m) * pow256((n - m) as nat)) by (nonlinear_arith)
        requires
            pow256((n - m) as nat) >= 1,
            pow256(m) >= 0,
    ;
}

pub proof fn lemma_pow256_pos(n: nat)
    ensures
        pow256(n) >= 1,
    decreases n,
{
    if n > 0 {
        lemma_pow256_pos((n - 1) as nat);
    }
}

/// The 256 little-endian bits of a field element's canonical encoding.
pub fn to_le_bits(e: &crate::field::Felt) -> (r: Vec<bool>)
    ensures
        r@.len() == 256,
        forall|k: int|
            0 <= k < 256 ==> r@[k] == (((e.bytes@[k / 8] as nat) / pow2n((k % 8) as nat)) % 2
                == 1),
{
    let mut res: Vec<bool> = Vec::new();
    for i in 0..32usize
        invariant
            res@.len() == 8 * i,
            forall|k: int|
                0 <= k < 8 * i ==> res@[k] == (((e.bytes@[k / 8] as nat) / pow2n(
                    (k % 8) as nat,
                )) % 2 == 1),
    {
        let mut bits = byte_to_le_bits(e.bytes[i]);
        let mut j: usize = 0;
        while j < 8
            invariant
                0 <= i < 32,
                j <= 8,
                bits@.len() == 8,
                res@.len() == 8 * i + j,
                forall|t: int|
                    0 <= t < 8 ==> bits@[t] == (((e.bytes@[i as int] as nat) / pow2n(
                        t as nat,
                    )) % 2 == 1),
                forall|k: int|
                    0 <= k < 8 * i + j ==> res@[k] == (((e.bytes@[k / 8] as nat) / pow2n(
                        (k % 8) as nat,
                    )) % 2 == 1),
            decreases 8 - j,
        {
            res.push(bits[j]);
            j += 1;
        }
    }
    res
}

/// Splits a scalar into the field embeddings of its high and low halves.
pub fn field_decompose(s: &Scalar) -> (r: (crate::field::Felt, crate::field::Felt))
    ensures
        r.0.wf(),
        r.1.wf(),
        r.0@ as nat * pow2n(128) + r.1@ == s@,
{
    let (high, low) = field_decompose_u128(s);
    (crate::field::felt_from_u128(high), crate::field::felt_from_u128(low))
}

/// Division by one changes nothing.
pub proof fn lemma_div_one(x: nat)
    ensures
        x / 1 == x,
{
    assert(x / 1 == x) by (nonlinear_arith);
}

} // verus!
