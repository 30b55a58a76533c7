//! Congruence arithmetic connecting the trusted chord and tangent relations
//! of the group law to the opcode polynomial sub-expressions: the witness a
//! gadget writes makes its sub-expression vanish.
use vstd::prelude::*;

use vstd::arithmetic::div_mod::lemma_add_mod_noop;
use vstd::arithmetic::div_mod::lemma_fundamental_div_mod;
use vstd::arithmetic::div_mod::lemma_mod_multiples_basic;
use vstd::arithmetic::div_mod::lemma_small_mod;

use crate::curve::chord_rel;
use crate::curve::tangent_rel;
use crate::field::fadd;
use crate::field::fmul;
use crate::field::fsub;
use crate::field::p;
use crate::region::colinear_term;
use crate::region::tangent_term;

verus! {

/// `a` and `b` are congruent modulo the field's modulus.
pub open spec fn eqm(a: int, b: int) -> bool {
    (a - b) % (p() as int) == 0
}

proof fn lemma_divisible_add(x: int, y: int)
    requires
        x % (p() as int) == 0,
        y % (p() as int) == 0,
    ensures
        (x + y) % (p() as int) == 0,
{
    lemma_add_mod_noop(x, y, p() as int);
}

proof fn lemma_divisible_scale(k: int, x: int)
    requires
        x % (p() as int) == 0,
    ensures
        (k * x) % (p() as int) == 0,
{
    let q = p() as int;
    lemma_fundamental_div_mod(x, q);
    assert(x == q * (x / q));
    assert(k * x == (k * (x / q)) * q) by (nonlinear_arith)
        requires
            x == q * (x / q),
    ;
    lemma_mod_multiples_basic(k * (x / q), q);
}

proof fn lemma_eqm_sym(a: int, b: int)
    requires
        eqm(a, b),
    ensures
        eqm(b, a),
{
    lemma_divisible_scale(-1, a - b);
    assert(-1 * (a - b) == b - a) by (nonlinear_arith);
}

proof fn lemma_eqm_trans(a: int, b: int, c: int)
    requires
        eqm(a, b),
        eqm(b, c),
    ensures
        eqm(a, c),
{
    lemma_divisible_add(a - b, b - c);
}

proof fn lemma_eqm_add(a: int, b: int, x: int, y: int)
    requires
        eqm(a, x),
        eqm(b, y),
    ensures
        eqm(a + b, x + y),
{
    lemma_divisible_add(a - x, b - y);
}

proof fn lemma_eqm_mul(a: int, b: int, x: int, y: int)
    requires
        eqm(a, x),
        eqm(b, y),
    ensures
        eqm(a * b, x * y),
{
    lemma_divisible_scale(b, a - x);
    lemma_divisible_scale(x, b - y);
    lemma_divisible_add(b * (a - x), x * (b - y));
    assert(a * b - x * y == b * (a - x) + x * (b - y)) by (nonlinear_arith);
}

/// A value is congruent to its reduction.
proof fn lemma_eqm_of_mod(v: int)
    ensures
        eqm(v % (p() as int), v),
        0 <= v % (p() as int) < p(),
{
    let q = p() as int;
    lemma_fundamental_div_mod(v, q);
    assert(v % q - v == (-(v / q)) * q) by (nonlinear_arith)
        requires
            v == q * (v / q) + v % q,
    ;
    lemma_mod_multiples_basic(-(v / q), q);
}

/// Congruent canonical values are equal.
proof fn lemma_eqm_small(a: int, b: int)
    requires
        0 <= a < p(),
        0 <= b < p(),
        eqm(a, b),
    ensures
        a == b,
{
    if a >= b {
        lemma_small_mod((a - b) as nat, p());
    } else {
        lemma_eqm_sym(a, b);
        lemma_small_mod((b - a) as nat, p());
    }
}

/// The reduced sum is congruent to the integer sum.
proof fn lemma_fadd_eqm(a: nat, b: nat, x: int, y: int)
    requires
        eqm(a as int, x),
        eqm(b as int, y),
    ensures
        fadd(a, b) < p(),
        eqm(fadd(a, b) as int, x + y),
{
    lemma_eqm_of_mod((a + b) as int);
    assert(fadd(a, b) == ((a + b) as int) % (p() as int));
    lemma_eqm_add(a as int, b as int, x, y);
    lemma_eqm_trans(fadd(a, b) as int, (a + b) as int, x + y);
}

/// The reduced difference is congruent to the integer difference.
proof fn lemma_fsub_eqm(a: nat, b: nat, x: int, y: int)
    requires
        b < p(),
        eqm(a as int, x),
        eqm(b as int, y),
    ensures
        fsub(a, b) < p(),
        eqm(fsub(a, b) as int, x - y),
{
    lemma_small_mod(b, p());
    let v = (a + p() - b) as int;
    lemma_eqm_of_mod(v);
    assert(fsub(a, b) == v % (p() as int));
    assert(eqm(v, a - b)) by {
        lemma_mod_multiples_basic(1, p() as int);
        assert(v - (a - b) == 1 * (p() as int));
    }
    lemma_eqm_trans(fsub(a, b) as int, v, a - b);
    lemma_eqm_add(a as int, -(b as int), x, -y);
    assert(eqm(a - b, x - y));
    lemma_eqm_trans(fsub(a, b) as int, a - b, x - y);
}

/// The reduced product is congruent to the integer product.
proof fn lemma_fmul_eqm(a: nat, b: nat, x: int, y: int)
    requires
        eqm(a as int, x),
        eqm(b as int, y),
    ensures
        fmul(a, b) < p(),
        eqm(fmul(a, b) as int, x * y),
{
    lemma_eqm_of_mod((a * b) as int);
    assert(fmul(a, b) == ((a * b) as int) % (p() as int));
    lemma_eqm_mul(a as int, b as int, x, y);
    lemma_eqm_trans(fmul(a, b) as int, (a * b) as int, x * y);
}

/// The chord relation makes the colinearity term vanish: the sum written by
/// the gadget lies on the line through the two added points.
#[verifier::spinoff_prover]
#[verifier::rlimit(100)]
pub proof fn lemma_chord_colinear(x1: nat, y1: nat, x2: nat, y2: nat, x3: nat, y3: nat)
    requires
        x1 < p(),
        y1 < p(),
        x2 < p(),
        y2 < p(),
        x3 < p(),
        y3 < p(),
        chord_rel(x1, y1, x2, y2, x3, y3),
    ensures
        colinear_term(x1, y1, x2, y2, x3, y3) == 0,
{
    let lam = choose|lam: nat|
        {
            &&& lam < p()
            &&& #[trigger] fmul(lam, fsub(x2, x1)) == fsub(y2, y1)
            &&& x3 == fsub(fsub(fmul(lam, lam), x1), x2)
            &&& y3 == fsub(fmul(lam, fsub(x1, x3)), y1)
        };
    let l = lam as int;
    let q = p() as int;
    // y2 - y1 is congruent to lam * (x2 - x1)
    lemma_fsub_eqm(x2, x1, x2 as int, x1 as int);
    lemma_fmul_eqm(lam, fsub(x2, x1), l, x2 - x1);
    lemma_fsub_eqm(y2, y1, y2 as int, y1 as int);
    assert(eqm(fsub(y2, y1) as int, l * (x2 - x1)));
    lemma_eqm_sym(fsub(y2, y1) as int, l * (x2 - x1));
    assert(eqm(y2 - y1, l * (x2 - x1))) by {
        lemma_eqm_trans(y2 - y1, fsub(y2, y1) as int, l * (x2 - x1));
        lemma_eqm_sym(fsub(y2, y1) as int, y2 - y1);
    }
    // y3 + y1 is congruent to lam * (x1 - x3)
    lemma_fsub_eqm(x1, x3, x1 as int, x3 as int);
    lemma_fmul_eqm(lam, fsub(x1, x3), l, x1 - x3);
    lemma_fsub_eqm(fmul(lam, fsub(x1, x3)), y1, l * (x1 - x3), y1 as int);
    assert(eqm(y3 as int, l * (x1 - x3) - y1));
    assert(eqm(y3 + y1 as int, l * (x1 - x3))) by {
        lemma_eqm_add(y3 as int, y1 as int, l * (x1 - x3) - y1, y1 as int);
    }
    // assemble the colinearity term
    lemma_fsub_eqm(x3, x1, x3 as int, x1 as int);
    lemma_fmul_eqm(fsub(x3, x1), fsub(y2, y1), x3 - x1, l * (x2 - x1));
    lemma_fadd_eqm(y3, y1, y3 as int, y1 as int);
    lemma_eqm_trans(fadd(y3, y1) as int, y3 + y1 as int, l * (x1 - x3));
    lemma_fmul_eqm(fsub(x2, x1), fadd(y3, y1), x2 - x1, l * (x1 - x3));
    lemma_fadd_eqm(
        fmul(fsub(x3, x1), fsub(y2, y1)),
        fmul(fsub(x2, x1), fadd(y3, y1)),
        (x3 - x1) * (l * (x2 - x1)),
        (x2 - x1) * (l * (x1 - x3)),
    );
    let t = colinear_term(x1, y1, x2, y2, x3, y3);
    assert((x3 - x1) * (l * (x2 - x1)) + (x2 - x1) * (l * (x1 - x3)) == 0) by (nonlinear_arith);
    assert(eqm(t as int, 0));
    assert(t < p()) by {
        lemma_eqm_of_mod((fmul(fsub(x3, x1), fsub(y2, y1)) + fmul(fsub(x2, x1), fadd(y3, y1)))
            as int);
    }
    lemma_eqm_small(t as int, 0);
}

/// The tangent relation makes the tangent term vanish.
pub proof fn lemma_tangent_term_zero(x1: nat, y1: nat, x3: nat, y3: nat)
    requires
        x1 < p(),
        y1 < p(),
        x3 < p(),
        y3 < p(),
        tangent_rel(x1, y1, x3, y3),
    ensures
        tangent_term(x1, y1, x3, y3) == 0,
{
    let lam = choose|lam: nat|
        {
            &&& lam < p()
            &&& #[trigger] fmul(lam, fmul(2, y1)) == fmul(3, fmul(x1, x1))
            &&& x3 == fsub(fsub(fmul(lam, lam), x1), x1)
            &&& y3 == fsub(fmul(lam, fsub(x1, x3)), y1)
        };
    let l = lam as int;
    // lam * 2 y1 is congruent to 3 x1^2
    lemma_fmul_eqm(2, y1, 2, y1 as int);
    lemma_fmul_eqm(lam, fmul(2, y1), l, 2 * (y1 as int));
    lemma_fmul_eqm(x1, x1, x1 as int, x1 as int);
    lemma_fmul_eqm(3, fmul(x1, x1), 3, (x1 as int) * (x1 as int));
    let sq3 = 3 * ((x1 as int) * (x1 as int));
    assert(eqm(l * (2 * y1), sq3)) by {
        lemma_eqm_sym(fmul(lam, fmul(2, y1)) as int, l * (2 * y1));
        lemma_eqm_trans(l * (2 * y1), fmul(lam, fmul(2, y1)) as int, sq3);
    }
    // y3 + y1 is congruent to lam * (x1 - x3)
    lemma_fsub_eqm(x1, x3, x1 as int, x3 as int);
    lemma_fmul_eqm(lam, fsub(x1, x3), l, x1 - x3);
    lemma_fsub_eqm(fmul(lam, fsub(x1, x3)), y1, l * (x1 - x3), y1 as int);
    assert(eqm(y3 + y1 as int, l * (x1 - x3))) by {
        lemma_eqm_add(y3 as int, y1 as int, l * (x1 - x3) - y1, y1 as int);
    }
    // assemble 2 y1 (y3 + y1) + 3 x1^2 (x3 - x1)
    lemma_fadd_eqm(y3, y1, y3 as int, y1 as int);
    lemma_eqm_trans(fadd(y3, y1) as int, y3 + y1 as int, l * (x1 - x3));
    lemma_fmul_eqm(fmul(2, y1), fadd(y3, y1), 2 * (y1 as int), l * (x1 - x3));
    lemma_fsub_eqm(x3, x1, x3 as int, x1 as int);
    lemma_fmul_eqm(fmul(3, fmul(x1, x1)), fsub(x3, x1), sq3, x3 - x1);
    lemma_fadd_eqm(
        fmul(fmul(2, y1), fadd(y3, y1)),
        fmul(fmul(3, fmul(x1, x1)), fsub(x3, x1)),
        (2 * (y1 as int)) * (l * (x1 - x3)),
        sq3 * (x3 - x1),
    );
    let s = fadd(
        fmul(fmul(2, y1), fadd(y3, y1)),
        fmul(fmul(3, fmul(x1, x1)), fsub(x3, x1)),
    );
    assert(eqm((2 * (y1 as int)) * (l * (x1 - x3)) + sq3 * (x3 - x1), 0)) by {
        assert((2 * (y1 as int)) * (l * (x1 - x3)) == (l * (2 * (y1 as int))) * (x1 - x3))
            by (nonlinear_arith);
        lemma_eqm_mul(l * (2 * (y1 as int)), x1 - x3, sq3, x1 - x3);
        assert(sq3 * (x1 - x3) + sq3 * (x3 - x1) == 0) by (nonlinear_arith);
        lemma_eqm_add(
            (l * (2 * (y1 as int))) * (x1 - x3),
            sq3 * (x3 - x1),
            sq3 * (x1 - x3),
            sq3 * (x3 - x1),
        );
    }
    assert(eqm(s as int, 0)) by {
        lemma_eqm_trans(
            s as int,
            (2 * (y1 as int)) * (l * (x1 - x3)) + sq3 * (x3 - x1),
            0,
        );
    }
    lemma_eqm_small(s as int, 0);
    assert(tangent_term(x1, y1, x3, y3) == s);
}

/// The degenerate colinearity term: both added points coincide, so both of
/// its products carry a zero factor.
pub proof fn lemma_colinear_degenerate(x1: nat, y1: nat, x3: nat, y3: nat)
    requires
        x1 < p(),
        y1 < p(),
    ensures
        colinear_term(x1, y1, x1, y1, x3, y3) == 0,
{
    crate::field::lemma_fsub_self(x1);
    crate::field::lemma_fsub_self(y1);
    assert(fmul(fsub(x3, x1), 0) == 0) by {
        assert(fsub(x3, x1) * 0 == 0) by (nonlinear_arith);
        lemma_small_mod(0, p());
    }
    assert(fmul(0, fadd(y3, y1)) == 0) by {
        assert(0 * fadd(y3, y1) == 0) by (nonlinear_arith);
        lemma_small_mod(0, p());
    }
    lemma_small_mod(0, p());
    assert(fadd(0, 0) == 0);
}

/// The conditional-addition constraints with the condition set: the
/// weighted colinearity term vanishes for a colinear result, and the
/// cleared-branch terms carry the zero weight 1 - 1.
pub proof fn lemma_cond_add_components_true(x1: nat, y1: nat, x2: nat, y2: nat, x3: nat, y3: nat)
    requires
        x1 < p(),
        y1 < p(),
        x3 < p(),
        y3 < p(),
        colinear_term(x1, y1, x2, y2, x3, y3) == 0,
    ensures
        fmul(1, colinear_term(x1, y1, x2, y2, x3, y3)) == 0,
        fmul(fsub(1, 1), fsub(x3, x1)) == 0,
        fmul(fsub(1, 1), fsub(y3, y1)) == 0,
{
    lemma_small_mod(0, p());
    lemma_small_mod(1, p());
    assert(fmul(1, 0) == 0) by {
        assert(1 * 0 == 0) by (nonlinear_arith);
    }
    crate::field::lemma_fsub_self(1);
    assert(fmul(0, fsub(x3, x1)) == 0) by {
        assert(0 * fsub(x3, x1) == 0) by (nonlinear_arith);
    }
    assert(fmul(0, fsub(y3, y1)) == 0) by {
        assert(0 * fsub(y3, y1) == 0) by (nonlinear_arith);
    }
}

/// The conditional-addition constraints with the condition clear and the
/// first point written back: the colinearity term carries the zero weight,
/// and both branch differences vanish.
pub proof fn lemma_cond_add_components_false(x1: nat, y1: nat, x2: nat, y2: nat)
    requires
        x1 < p(),
        y1 < p(),
    ensures
        fmul(0, colinear_term(x1, y1, x2, y2, x1, y1)) == 0,
        fmul(fsub(1, 0), fsub(x1, x1)) == 0,
        fmul(fsub(1, 0), fsub(y1, y1)) == 0,
{
    lemma_small_mod(0, p());
    lemma_small_mod(1, p());
    let ct = colinear_term(x1, y1, x2, y2, x1, y1);
    assert(fmul(0, ct) == 0) by {
        assert(0 * ct == 0) by (nonlinear_arith);
    }
    assert(fsub(1, 0) == 1) by {
        assert(((1 + p()) as nat) % p() == 1) by {
            vstd::arithmetic::div_mod::lemma_mod_add_multiples_vanish(1, p() as int);
        }
    }
    crate::field::lemma_fsub_self(x1);
    crate::field::lemma_fsub_self(y1);
    assert(fmul(1, 0) == 0) by {
        assert(1 * 0 == 0) by (nonlinear_arith);
    }
}

} // verus!
