//! Little-endian radix interpretations of byte and bit sequences, and the
//! lemmas the rest of the crate needs to reason about them.
use vstd::prelude::*;

verus! {

/// 256 raised to `n`.
pub open spec fn pow256(n: nat) -> nat
    decreases n,
{
    if n == 0 {
        1
    } else {
        256 * pow256((n - 1) as nat)
    }
}

/// 2 raised to `n`.
pub open spec fn pow2n(n: nat) -> nat
    decreases n,
{
    if n == 0 {
        1
    } else {
        2 * pow2n((n - 1) as nat)
    }
}

/// The value of a little-endian byte string.
pub open spec fn bytes_val(s: Seq<u8>) -> nat
    decreases s.len(),
{
    if s.len() == 0 {
        0
    } else {
        (s[0] + 256 * bytes_val(s.drop_first())) as nat
    }
}

/// The value of a little-endian bit string whose entries are 0 or 1.
pub open spec fn bits_val(s: Seq<u64>) -> nat
    decreases s.len(),
{
    if s.len() == 0 {
        0
    } else {
        (s[0] + 2 * bits_val(s.drop_first())) as nat
    }
}

/// The value of a little-endian bit string of spec-level naturals.
pub open spec fn nat_bits_val(s: Seq<nat>) -> nat
    decreases s.len(),
{
    if s.len() == 0 {
        0
    } else {
        s[0] + 2 * nat_bits_val(s.drop_first())
    }
}

/// All entries of `s` are 0 or 1.
pub open spec fn all_bits(s: Seq<u64>) -> bool {
    forall|i: int| 0 <= i < s.len() ==> s[i] == 0 || s[i] == 1
}

pub proof fn lemma_pow256_adds(m: nat, n: nat)
    ensures
        pow256(m + n) == pow256(m) * pow256(n),
    decreases m,
{
    if m == 0 {
        assert(pow256(0 + n) == 1 * pow256(n));
    } else {
        lemma_pow256_adds((m - 1) as nat, n);
        assert(pow256(m + n) == 256 * pow256((m - 1 + n) as nat));
        assert(256 * (pow256((m - 1) as nat) * pow256(n)) == (256 * pow256((m - 1) as nat))
            * pow256(n)) by (nonlinear_arith);
    }
}

pub proof fn lemma_pow2n_adds(m: nat, n: nat)
    ensures
        pow2n(m + n) == pow2n(m) * pow2n(n),
    decreases m,
{
    if m == 0 {
        assert(pow2n(0 + n) == 1 * pow2n(n));
    } else {
        lemma_pow2n_adds((m - 1) as nat, n);
        assert(pow2n(m + n) == 2 * pow2n((m - 1 + n) as nat));
        assert(2 * (pow2n((m - 1) as nat) * pow2n(n)) == (2 * pow2n((m - 1) as nat)) * pow2n(n))
            by (nonlinear_arith);
    }
}

pub proof fn lemma_pow256_16()
    ensures
        pow256(16) == pow2n(128),
        pow2n(128) == 0x100000000000000000000000000000000,
{
    assert(pow256(4) == 0x100000000) by {
        reveal_with_fuel(pow256, 5);
    }
    assert(pow2n(8) == 0x100) by {
        reveal_with_fuel(pow2n, 9);
    }
    lemma_pow2n_adds(8, 8);
    assert(pow2n(16) == 0x10000);
    lemma_pow2n_adds(16, 16);
    assert(pow2n(32) == 0x100000000);
    lemma_pow2n_adds(32, 32);
    assert(pow2n(64) == 0x10000000000000000);
    lemma_pow2n_adds(64, 64);
    assert(pow2n(128) == 0x100000000000000000000000000000000);
    lemma_pow256_adds(4, 4);
    assert(pow256(8) == 0x10000000000000000);
    lemma_pow256_adds(8, 8);
    assert(pow256(16) == 0x100000000000000000000000000000000);
}

/// A byte string's value is below 256^len.
pub proof fn lemma_bytes_val_bound(s: Seq<u8>)
    ensures
        bytes_val(s) < pow256(s.len()),
    decreases s.len(),
{
    if s.len() == 0 {
    } else {
        lemma_bytes_val_bound(s.drop_first());
        assert(256 * bytes_val(s.drop_first()) <= 256 * (pow256((s.len() - 1) as nat) - 1))
            by (nonlinear_arith)
            requires
                bytes_val(s.drop_first()) <= pow256((s.len() - 1) as nat) - 1,
        ;
    }
}

/// A bit string's value is below 2^len.
pub proof fn lemma_bits_val_bound(s: Seq<u64>)
    requires
        all_bits(s),
    ensures
        bits_val(s) < pow2n(s.len()),
    decreases s.len(),
{
    if s.len() == 0 {
    } else {
        assert(all_bits(s.drop_first()));
        lemma_bits_val_bound(s.drop_first());
    }
}

/// Appending one byte raises the value by byte * 256^len.
pub proof fn lemma_bytes_val_snoc(s: Seq<u8>, b: u8)
    ensures
        bytes_val(s.push(b)) == bytes_val(s) + b * pow256(s.len()),
    decreases s.len(),
{
    if s.len() == 0 {
        assert(s.push(b)[0] == b);
        assert(s.push(b).drop_first() =~= Seq::<u8>::empty());
        assert(bytes_val(s.push(b)) == b + 256 * bytes_val(Seq::<u8>::empty()));
        assert(bytes_val(s) + b * pow256(s.len()) == b * 1);
    } else {
        assert(s.push(b).drop_first() =~= s.drop_first().push(b));
        lemma_bytes_val_snoc(s.drop_first(), b);
        let t = bytes_val(s.drop_first());
        let q = pow256((s.len() - 1) as nat);
        assert(s.push(b)[0] == s[0]);
        assert(bytes_val(s.push(b)) == s[0] + 256 * bytes_val(s.drop_first().push(b)));
        assert(bytes_val(s.push(b)) == s[0] + 256 * (t + b * q));
        assert(s[0] + 256 * (t + b * q) == (s[0] + 256 * t) + b * (256 * q)) by (nonlinear_arith);
        assert(bytes_val(s) == s[0] + 256 * t);
        assert(pow256(s.len()) == 256 * q);
    }
}

/// Appending one bit raises the value by bit * 2^len.
pub proof fn lemma_bits_val_snoc(s: Seq<u64>, b: u64)
    ensures
        bits_val(s.push(b)) == bits_val(s) + b * pow2n(s.len()),
    decreases s.len(),
{
    if s.len() == 0 {
        assert(s.push(b)[0] == b);
        assert(s.push(b).drop_first() =~= Seq::<u64>::empty());
        assert(bits_val(s.push(b)) == b + 2 * bits_val(Seq::<u64>::empty()));
        assert(bits_val(s) + b * pow2n(s.len()) == b * 1);
    } else {
        assert(s.push(b).drop_first() =~= s.drop_first().push(b));
        lemma_bits_val_snoc(s.drop_first(), b);
        let t = bits_val(s.drop_first());
        let q = pow2n((s.len() - 1) as nat);
        assert(s.push(b)[0] == s[0]);
        assert(bits_val(s.push(b)) == s[0] + 2 * bits_val(s.drop_first().push(b)));
        assert(bits_val(s.push(b)) == s[0] + 2 * (t + b * q));
        assert(s[0] + 2 * (t + b * q) == (s[0] + 2 * t) + b * (2 * q)) by (nonlinear_arith);
        assert(bits_val(s) == s[0] + 2 * t);
        assert(pow2n(s.len()) == 2 * q);
    }
}

/// Unfolding four little-endian bits at index `k`.
pub proof fn lemma_bits_val_skip4(s: Seq<u64>, k: int)
    requires
        0 <= k,
        k + 4 <= s.len(),
    ensures
        bits_val(s.skip(k)) == s[k] + 2 * s[k + 1] + 4 * s[k + 2] + 8 * s[k + 3] + 16 * bits_val(
            s.skip(k + 4),
        ),
{
    assert(s.skip(k).drop_first() =~= s.skip(k + 1));
    assert(s.skip(k + 1).drop_first() =~= s.skip(k + 2));
    assert(s.skip(k + 2).drop_first() =~= s.skip(k + 3));
    assert(s.skip(k + 3).drop_first() =~= s.skip(k + 4));
    assert(s.skip(k)[0] == s[k]);
    assert(s.skip(k + 1)[0] == s[k + 1]);
    assert(s.skip(k + 2)[0] == s[k + 2]);
    assert(s.skip(k + 3)[0] == s[k + 3]);
    let r4 = bits_val(s.skip(k + 4));
    assert(bits_val(s.skip(k + 3)) == s[k + 3] + 2 * r4);
    assert(bits_val(s.skip(k + 2)) == s[k + 2] + 2 * (s[k + 3] + 2 * r4));
    assert(bits_val(s.skip(k + 1)) == s[k + 1] + 2 * (s[k + 2] + 2 * (s[k + 3] + 2 * r4)));
    assert(bits_val(s.skip(k)) == s[k] + 2 * (s[k + 1] + 2 * (s[k + 2] + 2 * (s[k + 3] + 2
        * r4))));
}

/// A byte string's value splits at any index `k`.
pub proof fn lemma_bytes_val_split(s: Seq<u8>, k: nat)
    requires
        k <= s.len(),
    ensures
        bytes_val(s) == bytes_val(s.take(k as int)) + pow256(k) * bytes_val(s.skip(k as int)),
    decreases k,
{
    if k == 0 {
        assert(s.take(0) =~= Seq::<u8>::empty());
        assert(s.skip(0) =~= s);
        assert(bytes_val(s.take(0)) == 0);
        assert(pow256(0) == 1);
        assert(bytes_val(s.skip(0)) == bytes_val(s));
        assert(1 * bytes_val(s) == bytes_val(s)) by (nonlinear_arith);
    } else {
        lemma_bytes_val_split(s.drop_first(), (k - 1) as nat);
        assert(s.take(k as int).drop_first() =~= s.drop_first().take(k - 1));
        assert(s.skip(k as int) =~= s.drop_first().skip(k - 1));
        let rest = s.drop_first();
        let t = bytes_val(rest.take(k - 1));
        let q = pow256((k - 1) as nat);
        let w = bytes_val(rest.skip(k - 1));
        assert(bytes_val(s) == s[0] + 256 * (t + q * w));
        assert(s[0] + 256 * (t + q * w) == (s[0] + 256 * t) + (256 * q) * w) by (nonlinear_arith);
        assert(s.take(k as int)[0] == s[0]);
        assert(s.take(k as int).len() == k);
        assert(bytes_val(s.take(k as int)) == s[0] + 256 * t);
        assert(pow256(k) == 256 * q);
        assert(bytes_val(s.skip(k as int)) == w);
        assert(bytes_val(s.take(k as int)) + pow256(k) * bytes_val(s.skip(k as int)) == (s[0] + 256
            * t) + (256 * q) * w);
    }
}

/// Two byte strings of equal length with the same value are equal.
pub proof fn lemma_bytes_val_injective(s1: Seq<u8>, s2: Seq<u8>)
    requires
        s1.len() == s2.len(),
        bytes_val(s1) == bytes_val(s2),
    ensures
        s1 =~= s2,
    decreases s1.len(),
{
    if s1.len() == 0 {
    } else {
        let v = bytes_val(s1);
        assert(s1[0] == v % 256 && s2[0] == v % 256) by {
            lemma_head_is_mod(s1);
            lemma_head_is_mod(s2);
        }
        assert(bytes_val(s1.drop_first()) == bytes_val(s2.drop_first())) by {
            lemma_tail_is_div(s1);
            lemma_tail_is_div(s2);
        }
        lemma_bytes_val_injective(s1.drop_first(), s2.drop_first());
        assert forall|i: int| 0 <= i < s1.len() implies s1[i] == s2[i] by {
            if i > 0 {
                assert(s1[i] == s1.drop_first()[i - 1]);
                assert(s2[i] == s2.drop_first()[i - 1]);
            }
        }
        assert(s1 =~= s2);
    }
}

proof fn lemma_head_is_mod(s: Seq<u8>)
    requires
        s.len() > 0,
    ensures
        s[0] == bytes_val(s) % 256,
{
    let q = bytes_val(s.drop_first());
    assert((s[0] + 256 * q) % 256 == s[0]) by (nonlinear_arith)
        requires
            0 <= s[0] < 256,
    ;
}

proof fn lemma_tail_is_div(s: Seq<u8>)
    requires
        s.len() > 0,
    ensures
        bytes_val(s.drop_first()) == bytes_val(s) / 256,
{
    let q = bytes_val(s.drop_first());
    assert((s[0] + 256 * q) / 256 == q) by (nonlinear_arith)
        requires
            0 <= s[0] < 256,
    ;
}

/// A bit string whose entries are the binary digits of `v` has value `v`.
pub proof fn lemma_nat_bits_of_pointwise(s: Seq<nat>, v: nat)
    requires
        forall|k: int| 0 <= k < s.len() ==> s[k] == (v / pow2n(k as nat)) % 2,
        v < pow2n(s.len()),
    ensures
        nat_bits_val(s) == v,
    decreases s.len(),
{
    if s.len() == 0 {
    } else {
        assert(s[0] == (v / pow2n(0)) % 2);
        assert(v / 1 == v) by (nonlinear_arith);
        let h = v / 2;
        assert(v == 2 * h + v % 2) by {
            vstd::arithmetic::div_mod::lemma_fundamental_div_mod(v as int, 2);
        }
        assert forall|k: int| 0 <= k < s.drop_first().len() implies s.drop_first()[k] == (h
            / pow2n(k as nat)) % 2 by {
            assert(s.drop_first()[k] == s[k + 1]);
            assert(pow2n((k + 1) as nat) == 2 * pow2n(k as nat));
            assert(v / pow2n((k + 1) as nat) == h / pow2n(k as nat)) by {
                lemma_pow2n_pos_radix(k as nat);
                vstd::arithmetic::div_mod::lemma_div_denominator(
                    v as int,
                    2,
                    pow2n(k as nat) as int,
                );
                assert(2 * pow2n(k as nat) == pow2n(k as nat) * 2) by (nonlinear_arith);
            }
        }
        assert(h < pow2n((s.len() - 1) as nat)) by {
            let q = pow2n((s.len() - 1) as nat);
            if h >= q {
                assert(2 * h >= 2 * q) by (nonlinear_arith)
                    requires
                        h >= q,
                ;
            }
        }
        lemma_nat_bits_of_pointwise(s.drop_first(), h);
    }
}

/// Concatenation splits a bit string's value.
pub proof fn lemma_nat_bits_concat(a: Seq<nat>, b: Seq<nat>)
    ensures
        nat_bits_val(a + b) == nat_bits_val(a) + pow2n(a.len()) * nat_bits_val(b),
    decreases a.len(),
{
    if a.len() == 0 {
        assert(a + b =~= b);
        assert(pow2n(0) * nat_bits_val(b) == nat_bits_val(b)) by (nonlinear_arith);
    } else {
        assert((a + b).drop_first() =~= a.drop_first() + b);
        assert((a + b)[0] == a[0]);
        lemma_nat_bits_concat(a.drop_first(), b);
        let t = nat_bits_val(a.drop_first());
        let q = pow2n((a.len() - 1) as nat);
        let w = nat_bits_val(b);
        assert(nat_bits_val(a + b) == a[0] + 2 * (t + q * w));
        assert(a[0] + 2 * (t + q * w) == (a[0] + 2 * t) + (2 * q) * w) by (nonlinear_arith);
        assert(pow2n(a.len()) == 2 * q);
    }
}

pub proof fn lemma_pow2n_pos_radix(n: nat)
    ensures
        pow2n(n) >= 1,
    decreases n,
{
    if n > 0 {
        lemma_pow2n_pos_radix((n - 1) as nat);
    }
}

/// Two bit strings of equal length with the same value are equal.
pub proof fn lemma_nat_bits_val_unique(s1: Seq<nat>, s2: Seq<nat>)
    requires
        s1.len() == s2.len(),
        forall|k: int| 0 <= k < s1.len() ==> s1[k] < 2,
        forall|k: int| 0 <= k < s2.len() ==> s2[k] < 2,
        nat_bits_val(s1) == nat_bits_val(s2),
    ensures
        s1 =~= s2,
    decreases s1.len(),
{
    if s1.len() == 0 {
    } else {
        let v = nat_bits_val(s1);
        assert(s1[0] == v % 2 && s2[0] == v % 2) by {
            lemma_nat_head_is_mod(s1);
            lemma_nat_head_is_mod(s2);
        }
        assert(nat_bits_val(s1.drop_first()) == nat_bits_val(s2.drop_first())) by {
            lemma_nat_tail_is_div(s1);
            lemma_nat_tail_is_div(s2);
        }
        assert forall|k: int| 0 <= k < s1.drop_first().len() implies s1.drop_first()[k] < 2
            && s2.drop_first()[k] < 2 by {
            assert(s1.drop_first()[k] == s1[k + 1]);
            assert(s2.drop_first()[k] == s2[k + 1]);
        }
        lemma_nat_bits_val_unique(s1.drop_first(), s2.drop_first());
        assert forall|i: int| 0 <= i < s1.len() implies s1[i] == s2[i] by {
            if i > 0 {
                assert(s1[i] == s1.drop_first()[i - 1]);
                assert(s2[i] == s2.drop_first()[i - 1]);
            }
        }
        assert(s1 =~= s2);
    }
}

proof fn lemma_nat_head_is_mod(s: Seq<nat>)
    requires
        s.len() > 0,
        s[0] < 2,
    ensures
        s[0] == nat_bits_val(s) % 2,
{
    let q = nat_bits_val(s.drop_first());
    assert((s[0] + 2 * q) % 2 == s[0]) by (nonlinear_arith)
        requires
            0 <= s[0] < 2,
    ;
}

proof fn lemma_nat_tail_is_div(s: Seq<nat>)
    requires
        s.len() > 0,
        s[0] < 2,
    ensures
        nat_bits_val(s.drop_first()) == nat_bits_val(s) / 2,
{
    let q = nat_bits_val(s.drop_first());
    assert((s[0] + 2 * q) / 2 == q) by (nonlinear_arith)
        requires
            0 <= s[0] < 2,
    ;
}

/// 256 bytes' worth of value: 256^32 is 2^256.
pub proof fn lemma_pow256_32()
    ensures
        pow256(32) == pow2n(256),
{
    lemma_pow256_16();
    lemma_pow256_adds(16, 16);
    lemma_pow2n_adds(128, 128);
    assert(pow256(16) * pow256(16) == pow2n(128) * pow2n(128));
}

/// A string of zero bytes has value zero.
pub proof fn lemma_bytes_val_zero(s: Seq<u8>)
    requires
        forall|i: int| 0 <= i < s.len() ==> s[i] == 0,
    ensures
        bytes_val(s) == 0,
    decreases s.len(),
{
    if s.len() == 0 {
    } else {
        lemma_bytes_val_zero(s.drop_first());
    }
}

} // verus!
