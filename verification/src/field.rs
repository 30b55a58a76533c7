//! The base field of the embedded curve, held as 32 canonical little-endian
//! bytes, with modular arithmetic supplied by the field implementation of
//! `halo2curves` behind trusted wrappers.
use vstd::prelude::*;

use halo2curves::ff::PrimeField;
use halo2curves::grumpkin::Fq;

use crate::radix::bytes_val;
use crate::radix::lemma_bytes_val_injective;
use crate::radix::lemma_bytes_val_snoc;
use crate::radix::lemma_bytes_val_split;
use crate::radix::lemma_bytes_val_zero;
use crate::radix::lemma_pow256_16;
use crate::radix::pow256;

verus! {

broadcast use vstd::array::group_array_axioms;

/// The modulus of the embedded curve's base field.
pub open spec fn p() -> nat {
    0x30644e72e131a029b85045b68181585d2833e84879b9709143e1f593f0000001nat
}

/// Field addition on canonical representatives.
pub open spec fn fadd(a: nat, b: nat) -> nat {
    (a + b) % p()
}

/// Field subtraction on canonical representatives below the modulus.
pub open spec fn fsub(a: nat, b: nat) -> nat {
    ((a + p() - b % p()) as nat) % p()
}

/// Field multiplication on canonical representatives.
pub open spec fn fmul(a: nat, b: nat) -> nat {
    (a * b) % p()
}

/// A base-field element in canonical little-endian byte form.
#[derive(Clone, Copy, Debug)]
pub struct Felt {
    pub bytes: [u8; 32],
}

impl View for Felt {
    type V = nat;

    open spec fn view(&self) -> nat {
        bytes_val(self.bytes@)
    }
}

impl Felt {
    /// The bytes are the canonical encoding: their value lies below the modulus.
    pub open spec fn wf(self) -> bool {
        self@ < p()
    }
}

/// Relies on `Fq::from_repr` and `Fq::to_repr` of halo2curves: canonical
/// little-endian 32-byte encodings of values below the modulus, and on `+`
/// for `Fq`: addition modulo the modulus.
#[verifier::external_body]
pub fn felt_add(a: &Felt, b: &Felt) -> (r: Felt)
    requires
        a.wf(),
        b.wf(),
    ensures
        r.wf(),
        r@ == fadd(a@, b@),
{
    let x = Fq::from_repr(a.bytes.into()).unwrap();
    let y = Fq::from_repr(b.bytes.into()).unwrap();
    Felt { bytes: (x + y).to_repr().into() }
}

/// Relies on `Fq::from_repr` / `Fq::to_repr` as `felt_add` does, and on `-`
/// for `Fq`: subtraction modulo the modulus.
#[verifier::external_body]
pub fn felt_sub(a: &Felt, b: &Felt) -> (r: Felt)
    requires
        a.wf(),
        b.wf(),
    ensures
        r.wf(),
        r@ == fsub(a@, b@),
{
    let x = Fq::from_repr(a.bytes.into()).unwrap();
    let y = Fq::from_repr(b.bytes.into()).unwrap();
    Felt { bytes: (x - y).to_repr().into() }
}

/// Relies on `Fq::from_repr` / `Fq::to_repr` as `felt_add` does, and on `*`
/// for `Fq`: multiplication modulo the modulus.
#[verifier::external_body]
pub fn felt_mul(a: &Felt, b: &Felt) -> (r: Felt)
    requires
        a.wf(),
        b.wf(),
    ensures
        r.wf(),
        r@ == fmul(a@, b@),
{
    let x = Fq::from_repr(a.bytes.into()).unwrap();
    let y = Fq::from_repr(b.bytes.into()).unwrap();
    Felt { bytes: (x * y).to_repr().into() }
}

/// The field embedding of a 128-bit integer.
pub fn felt_from_u128(v: u128) -> (r: Felt)
    ensures
        r.wf(),
        r@ == v as nat,
{
    let mut bytes: [u8; 32] = [0u8; 32];
    let mut cur: u128 = v;
    proof {
        assert(bytes@.take(0) =~= Seq::<u8>::empty());
        assert(pow256(0) == 1);
        assert(1 * cur == cur) by (nonlinear_arith);
    }
    for i in 0..16usize
        invariant
            bytes_val(bytes@.take(i as int)) + pow256(i as nat) * cur == v,
            forall|j: int| i <= j < 32 ==> bytes@[j] == 0,
    {
        let b: u8 = (cur % 256) as u8;
        let ghost bytes0 = bytes@;
        let ghost cur0 = cur as nat;
        bytes[i] = b;
        cur = cur / 256;
        proof {
            let q = pow256(i as nat);
            let prefix = bytes0.take(i as int);
            lemma_bytes_val_snoc(prefix, b);
            assert(bytes@ == bytes0.update(i as int, b));
            assert(bytes@.take(i + 1) =~= prefix.push(b));
            assert(bytes_val(bytes@.take(i + 1)) == bytes_val(prefix) + b * q);
            assert(cur0 == 256 * (cur0 / 256) + cur0 % 256) by {
                vstd::arithmetic::div_mod::lemma_fundamental_div_mod(cur0 as int, 256);
            }
            assert(b == cur0 % 256);
            assert(cur == cur0 / 256);
            assert(q * cur0 == (cur0 % 256) * q + (256 * q) * (cur0 / 256)) by (nonlinear_arith)
                requires
                    cur0 == 256 * (cur0 / 256) + cur0 % 256,
            ;
            assert(pow256((i + 1) as nat) == 256 * q);
            assert(bytes_val(bytes@.take(i + 1)) + pow256((i + 1) as nat) * cur == bytes_val(
                prefix,
            ) + q * cur0);
        }
    }
    proof {
        assert(cur == 0) by {
            lemma_pow256_16();
            assert(pow256(16) * cur <= v);
            assert(pow256(16) * cur >= pow256(16) * 1 ==> cur >= 1 ==> false) by (nonlinear_arith)
                requires
                    pow256(16) * cur <= v,
                    v < 0x100000000000000000000000000000000,
                    pow256(16) == 0x100000000000000000000000000000000,
            ;
        }
        lemma_bytes_val_split(bytes@, 16);
        lemma_bytes_val_zero(bytes@.skip(16));
        assert(v < p()) by {
            lemma_pow256_16();
        }
    }
    Felt { bytes }
}

/// The field embedding of a 64-bit integer.
pub fn felt_from_u64(v: u64) -> (r: Felt)
    ensures
        r.wf(),
        r@ == v as nat,
{
    felt_from_u128(v as u128)
}

/// Equality of field elements, decided on the canonical bytes.
pub fn felt_eq(a: &Felt, b: &Felt) -> (r: bool)
    ensures
        r == (a@ == b@),
{
    let mut i: usize = 0;
    while i < 32
        invariant
            i <= 32,
            forall|j: int| 0 <= j < i ==> a.bytes@[j] == b.bytes@[j],
        decreases 32 - i,
    {
        if a.bytes[i] != b.bytes[i] {
            proof {
                if a@ == b@ {
                    lemma_bytes_val_injective(a.bytes@, b.bytes@);
                }
            }
            return false;
        }
        i += 1;
    }
    proof {
        assert(a.bytes@ =~= b.bytes@);
    }
    true
}

/// Addition below the modulus needs no reduction.
pub proof fn lemma_fadd_small(a: nat, b: nat)
    requires
        a + b < p(),
    ensures
        fadd(a, b) == a + b,
{
    vstd::arithmetic::div_mod::lemma_small_mod((a + b) as nat, p());
}

/// Multiplication below the modulus needs no reduction.
pub proof fn lemma_fmul_small(a: nat, b: nat)
    requires
        a * b < p(),
    ensures
        fmul(a, b) == a * b,
{
    vstd::arithmetic::div_mod::lemma_small_mod((a * b) as nat, p());
}

/// Adding an already-reduced term reduces as if it were not reduced.
pub proof fn lemma_fadd_mod_right(a: nat, b: nat)
    requires
        a < p(),
    ensures
        fadd(a, b % p()) == (a + b) % p(),
{
    vstd::arithmetic::div_mod::lemma_add_mod_noop(a as int, b as int, p() as int);
    vstd::arithmetic::div_mod::lemma_small_mod(a, p());
}

/// Subtracting a canonical value from itself gives zero.
pub proof fn lemma_fsub_self(x: nat)
    requires
        x < p(),
    ensures
        fsub(x, x) == 0,
{
    vstd::arithmetic::div_mod::lemma_small_mod(x, p());
    assert((x + p() - x) as nat == p());
    assert(p() % p() == 0) by (nonlinear_arith);
}

} // verus!
