//! The elliptic-curve gadgets: point loads, the on-curve check, conditional
//! addition, doubling, scalar decomposition and the double-and-add scalar
//! multiplication protocol.
use vstd::prelude::*;

use crate::arith_gates::ArithOps;
use crate::chip::ECChip;
use crate::curve::chord_rel;
use crate::curve::chord_sum;
use crate::curve::curve_add_unequal;
use crate::curve::curve_double;
use crate::curve::tangent_double_of;
use crate::curve::tangent_rel;
use crate::ec_structs::AssignedECPoint;
use crate::ec_structs::ECPoint;
use crate::ec_structs::Error;
use crate::field::felt_eq;
use crate::field::felt_from_u64;
use crate::gate_math::lemma_chord_colinear;
use crate::gate_math::lemma_colinear_degenerate;
use crate::gate_math::lemma_cond_add_components_false;
use crate::gate_math::lemma_cond_add_components_true;
use crate::gate_math::lemma_tangent_term_zero;
use crate::region::cell_ok;
use crate::region::on_curve;
use crate::region::op_rel;
use crate::region::AssignedCell;
use crate::region::Cell;
use crate::region::Col;
use crate::region::OpCode;
use crate::region::Region;

verus! {




impl ECChip {
    /// One protocol iteration: double the accumulator, re-lay the base point
    /// and the scalar bit with copy constraints back to the cells they came
    /// from, and conditionally add.
    #[verifier::spinoff_prover]
    #[verifier::rlimit(100)]
    fn mul_step(
        &self,
        region: &mut Region,
        p_assigned: &AssignedECPoint,
        acc: &AssignedECPoint,
        bit_cell: &AssignedCell,
        prefix: Ghost<Seq<nat>>,
        start: Ghost<(nat, nat)>,
    ) -> (r: Result<AssignedECPoint, Error>)
        requires
            old(region)@.wf(),
            p_assigned.ok_in(old(region)@),
            p_assigned.on_curve_spec(),
            acc.ok_in(old(region)@),
            acc.on_curve_spec(),
            acc.offset + 1 == old(region)@.len(),
            old(region)@.ops[acc.offset as int] is None,
            cell_ok(old(region)@, *bit_cell),
            bit_cell.value@ == 0 || bit_cell.value@ == 1,
            chain_ok(prefix@, p_assigned.x.value@, p_assigned.y.value@, start@.0, start@.1),
            (acc.x.value@, acc.y.value@) == chain_point(
                prefix@,
                p_assigned.x.value@,
                p_assigned.y.value@,
                start@.0,
                start@.1,
            ),
        ensures
            final(region)@.wf(),
            old(region)@.rows.is_prefix_of(final(region)@.rows),
            old(region)@.copies.is_prefix_of(final(region)@.copies),
            final(region)@.satisfied() <==> old(region)@.satisfied(),
            r is Ok <==> chain_ok(
                prefix@.push(bit_cell.value@),
                p_assigned.x.value@,
                p_assigned.y.value@,
                start@.0,
                start@.1,
            ),
            r matches Ok(a2) ==> {
                &&& a2.ok_in(final(region)@)
                &&& a2.on_curve_spec()
                &&& a2.offset + 1 == final(region)@.len()
                &&& final(region)@.len() == old(region)@.len() + 4
                &&& final(region)@.copies.len() == old(region)@.copies.len() + 3
                &&& final(region)@.ops[a2.offset as int] is None
                &&& forall|j: int|
                    0 <= j < old(region)@.len() && j != acc.offset ==> final(region)@.ops[j]
                        == old(region)@.ops[j]
                &&& final(region)@.ops[acc.offset as int] == Some(OpCode::EcDouble)
                &&& final(region)@.ops[old(region)@.len() as int] == Some(OpCode::EcAdd)
                &&& final(region)@.ops[old(region)@.len() as int + 1] is None
                &&& final(region)@.ops[old(region)@.len() as int + 2] is None
                &&& ({
                    let cp = final(region)@.copies[old(region)@.copies.len() as int];
                    cp.0.col == Col::A && cp.0.row == old(region)@.len() + 1 && cp.1
                        == p_assigned.x.cell
                })
                &&& ({
                    let cp = final(region)@.copies[old(region)@.copies.len() as int + 1];
                    cp.0.col == Col::B && cp.0.row == old(region)@.len() + 1 && cp.1
                        == p_assigned.y.cell
                })
                &&& ({
                    let cp = final(region)@.copies[old(region)@.copies.len() as int + 2];
                    cp.0.col == Col::A && cp.0.row == old(region)@.len() + 2 && cp.1
                        == bit_cell.cell
                })
                &&& (a2.x.value@, a2.y.value@) == chain_point(
                    prefix@.push(bit_cell.value@),
                    p_assigned.x.value@,
                    p_assigned.y.value@,
                    start@.0,
                    start@.1,
                )
            },
            r is Err ==> r == Err::<AssignedECPoint, Error>(Error::PointAtInfinity),
    {
        let zero = felt_from_u64(0);
        let pt = ECPoint { x: p_assigned.x.value, y: p_assigned.y.value };
        let ghost v0 = region@;
        proof {
            lemma_chain_snoc(
                prefix@,
                bit_cell.value@,
                p_assigned.x.value@,
                p_assigned.y.value@,
                start@.0,
                start@.1,
            );
        }
        let d = match self.double_assigned_point(region, acc) {
            Ok(d) => d,
            Err(e) => {
                return Err(e);
            },
        };
        let ghost v1 = region@;
        let pc = self.load_private_point_unchecked(region, &pt);
        proof {
            reveal(crate::region::RegionView::wf);
            crate::region::lemma_cell_ok_extend(v1, region@, p_assigned.x);
            crate::region::lemma_cell_ok_extend(v1, region@, p_assigned.y);
        }
        region.constrain_equal(pc.x.cell, p_assigned.x.cell);
        region.constrain_equal(pc.y.cell, p_assigned.y.cell);
        let ghost v2 = region@;
        let (bc, _padc) = self.load_two_private_fields(region, &bit_cell.value, &zero);
        proof {
            reveal(crate::region::RegionView::wf);
            let v3 = region@;
            crate::region::lemma_cell_ok_extend(v2, v3, *bit_cell);
            crate::region::lemma_cell_ok_extend(v2, v3, d.x);
            crate::region::lemma_cell_ok_extend(v2, v3, d.y);
            crate::region::lemma_cell_ok_extend(v2, v3, pc.x);
            crate::region::lemma_cell_ok_extend(v2, v3, pc.y);
        }
        region.constrain_equal(bc.cell, bit_cell.cell);
        let a2 = match self.conditional_point_add(region, &d, &pc, &bc) {
            Ok(a2) => a2,
            Err(e) => {
                proof {
                    assert((d.x.value@, d.y.value@) == tangent_double_of(
                        acc.x.value@,
                        acc.y.value@,
                    ));
                    assert(v0.rows.is_prefix_of(region@.rows)) by {
                        assert(region@.rows.subrange(0, v0.rows.len() as int) =~= v0.rows);
                    }
                    assert(v0.copies.is_prefix_of(region@.copies)) by {
                        assert(region@.copies.subrange(0, v0.copies.len() as int) =~= v0.copies);
                    }
                }
                return Err(e);
            },
        };
        proof {
            reveal(crate::region::RegionView::wf);
            assert((d.x.value@, d.y.value@) == tangent_double_of(acc.x.value@, acc.y.value@));
            assert((a2.x.value@, a2.y.value@) == step_value(
                bit_cell.value@,
                d.x.value@,
                d.y.value@,
                p_assigned.x.value@,
                p_assigned.y.value@,
            ));
            assert(v0.rows.is_prefix_of(region@.rows)) by {
                assert(region@.rows.subrange(0, v0.rows.len() as int) =~= v0.rows);
            }
            assert(v0.copies.is_prefix_of(region@.copies)) by {
                assert(region@.copies.subrange(0, v0.copies.len() as int) =~= v0.copies);
            }
        }
        Ok(a2)
    }
}

impl ECChip {
    /// Lays out checked loads of both operands and fresh unchecked copies,
    /// copy-constrained to them, ready for an addition window: the copies sit
    /// on the two rows below the cursor with no tag of their own.
    #[verifier::spinoff_prover]
    #[verifier::rlimit(100)]
    fn load_add_operands(&self, region: &mut Region, p1: &ECPoint, p2: &ECPoint) -> (r: (
        AssignedECPoint,
        AssignedECPoint,
    ))
        requires
            old(region)@.wf(),
            p1.wf(),
            p2.wf(),
            p1.on_curve_spec(),
            p2.on_curve_spec(),
        ensures
            final(region)@.wf(),
            old(region)@.rows.is_prefix_of(final(region)@.rows),
            final(region)@.satisfied() <==> old(region)@.satisfied(),
            r.0.ok_in(final(region)@),
            r.1.ok_in(final(region)@),
            r.0.witness_spec() == *p1,
            r.1.witness_spec() == *p2,
            r.0.offset + 2 == final(region)@.len(),
            r.1.offset + 1 == final(region)@.len(),
            final(region)@.ops[r.0.offset as int] is None,
    {
        let ghost v0 = region@;
        let lp1 = self.load_private_point(region, p1);
        let ghost va = region@;
        let lp2 = self.load_private_point(region, p2);
        proof {
            crate::region::lemma_cell_ok_extend(va, region@, lp1.x);
            crate::region::lemma_cell_ok_extend(va, region@, lp1.y);
        }
        let ghost vb = region@;
        let c1 = self.load_private_point_unchecked(region, p1);
        proof {
            crate::region::lemma_cell_ok_extend(vb, region@, lp1.x);
            crate::region::lemma_cell_ok_extend(vb, region@, lp1.y);
            crate::region::lemma_cell_ok_extend(vb, region@, lp2.x);
            crate::region::lemma_cell_ok_extend(vb, region@, lp2.y);
        }
        let ghost vc = region@;
        let c2 = self.load_private_point_unchecked(region, p2);
        proof {
            crate::region::lemma_cell_ok_extend(vc, region@, lp1.x);
            crate::region::lemma_cell_ok_extend(vc, region@, lp1.y);
            crate::region::lemma_cell_ok_extend(vc, region@, lp2.x);
            crate::region::lemma_cell_ok_extend(vc, region@, lp2.y);
            crate::region::lemma_cell_ok_extend(vc, region@, c1.x);
            crate::region::lemma_cell_ok_extend(vc, region@, c1.y);
        }
        let ghost vd = region@;
        region.constrain_equal(c1.x.cell, lp1.x.cell);
        region.constrain_equal(c1.y.cell, lp1.y.cell);
        region.constrain_equal(c2.x.cell, lp2.x.cell);
        region.constrain_equal(c2.y.cell, lp2.y.cell);
        proof {
            reveal(crate::region::RegionView::wf);
            assert(region@.ops == vd.ops);
            assert(vd.ops[c1.offset as int] is None) by {
                reveal(crate::region::RegionView::wf);
                assert(vd.ops == vb.ops.push(None::<OpCode>).push(None::<OpCode>));
                assert(c1.offset == vb.ops.len());
            }
            assert(v0.rows.is_prefix_of(region@.rows)) by {
                assert(region@.rows.subrange(0, v0.rows.len() as int) =~= v0.rows);
            }
        }
        (c1, c2)
    }


}

/// The decomposition cells all hold genuine bits and agree with the region.
#[verifier::opaque]
pub open spec fn bit_cells_inv(v: crate::region::RegionView, cs: Seq<AssignedCell>) -> bool {
    forall|k: int|
        0 <= k < cs.len() ==> cell_ok(v, #[trigger] cs[k]) && (cs[k].value@ == 0 || cs[k].value@
            == 1)
}

/// The cells stay genuine bits when rows are only appended.
pub proof fn lemma_bit_cells_inv_extend(
    v1: crate::region::RegionView,
    v2: crate::region::RegionView,
    cs: Seq<AssignedCell>,
)
    requires
        v1.rows.is_prefix_of(v2.rows),
        bit_cells_inv(v1, cs),
    ensures
        bit_cells_inv(v2, cs),
{
    reveal(bit_cells_inv);
    assert forall|k: int|
        0 <= k < cs.len() implies cell_ok(v2, #[trigger] cs[k]) && (cs[k].value@ == 0
        || cs[k].value@ == 1) by {
        crate::region::lemma_cell_ok_extend(v1, v2, cs[k]);
    }
}

/// Reading one cell's facts out of the invariant.
pub proof fn lemma_bit_cells_inv_index(
    v: crate::region::RegionView,
    cs: Seq<AssignedCell>,
    k: int,
)
    requires
        bit_cells_inv(v, cs),
        0 <= k < cs.len(),
    ensures
        cell_ok(v, cs[k]),
        cs[k].value@ == 0 || cs[k].value@ == 1,
{
    reveal(bit_cells_inv);
}

/// The value one conditional protocol step writes, given the doubled
/// accumulator (dx, dy) and the base point (px, py): the group-law sum for
/// a set bit (the tangent double where the operands share x), the doubled
/// accumulator unchanged for a clear bit.
pub open spec fn step_value(bit: nat, dx: nat, dy: nat, px: nat, py: nat) -> (nat, nat) {
    if bit == 1 {
        if dx != px {
            chord_sum(dx, dy, px, py)
        } else {
            tangent_double_of(dx, dy)
        }
    } else {
        (dx, dy)
    }
}

/// The conditional step stays in the affine domain: a set bit on operands
/// sharing x demands the tangent case, never the point at infinity.
pub open spec fn step_ok(bit: nat, dx: nat, dy: nat, px: nat, py: nat) -> bool {
    bit == 1 && dx == px ==> dy == py && dy != 0
}

/// The accumulator after the double-and-add chain over `bits`, most
/// significant first, from the start point (ax, ay) with base (px, py).
pub open spec fn chain_point(bits: Seq<nat>, px: nat, py: nat, ax: nat, ay: nat) -> (nat, nat)
    decreases bits.len(),
{
    if bits.len() == 0 {
        (ax, ay)
    } else {
        let d = tangent_double_of(ax, ay);
        let c = step_value(bits[0], d.0, d.1, px, py);
        chain_point(bits.drop_first(), px, py, c.0, c.1)
    }
}

/// Every doubling and every conditional addition along the chain stays in
/// the affine domain.
pub open spec fn chain_ok(bits: Seq<nat>, px: nat, py: nat, ax: nat, ay: nat) -> bool
    decreases bits.len(),
{
    if bits.len() == 0 {
        true
    } else {
        let d = tangent_double_of(ax, ay);
        let c = step_value(bits[0], d.0, d.1, px, py);
        &&& ay != 0
        &&& step_ok(bits[0], d.0, d.1, px, py)
        &&& chain_ok(bits.drop_first(), px, py, c.0, c.1)
    }
}

/// Extending the chain by one processed bit.
pub proof fn lemma_chain_snoc(bits: Seq<nat>, b: nat, px: nat, py: nat, ax: nat, ay: nat)
    ensures
        ({
            let m = chain_point(bits, px, py, ax, ay);
            let d = tangent_double_of(m.0, m.1);
            &&& chain_point(bits.push(b), px, py, ax, ay) == step_value(b, d.0, d.1, px, py)
            &&& chain_ok(bits.push(b), px, py, ax, ay) == (chain_ok(bits, px, py, ax, ay) && m.1
                != 0 && step_ok(b, d.0, d.1, px, py))
        }),
    decreases bits.len(),
{
    if bits.len() == 0 {
        assert(bits.push(b)[0] == b);
        assert(bits.push(b).drop_first() =~= Seq::<nat>::empty());
        let m = chain_point(bits, px, py, ax, ay);
        let d = tangent_double_of(ax, ay);
        let c = step_value(b, d.0, d.1, px, py);
        assert(m == (ax, ay));
        assert(chain_point(bits.push(b), px, py, ax, ay) == chain_point(
            Seq::<nat>::empty(),
            px,
            py,
            c.0,
            c.1,
        ));
        assert(chain_point(Seq::<nat>::empty(), px, py, c.0, c.1) == c);
        assert(chain_ok(Seq::<nat>::empty(), px, py, c.0, c.1));
    } else {
        assert(bits.push(b)[0] == bits[0]);
        assert(bits.push(b).drop_first() =~= bits.drop_first().push(b));
        let d0 = tangent_double_of(ax, ay);
        let c0 = step_value(bits[0], d0.0, d0.1, px, py);
        lemma_chain_snoc(bits.drop_first(), b, px, py, c0.0, c0.1);
        assert(chain_point(bits, px, py, ax, ay) == chain_point(
            bits.drop_first(),
            px,
            py,
            c0.0,
            c0.1,
        ));
        assert(chain_point(bits.push(b), px, py, ax, ay) == chain_point(
            bits.drop_first().push(b),
            px,
            py,
            c0.0,
            c0.1,
        ));
        assert(chain_ok(bits.push(b), px, py, ax, ay) == (ay != 0 && step_ok(
            bits[0],
            d0.0,
            d0.1,
            px,
            py,
        ) && chain_ok(bits.drop_first().push(b), px, py, c0.0, c0.1)));
    }
}

/// A chain that has already left the affine domain stays failed however it
/// is extended.
pub proof fn lemma_chain_ok_prefix_fail(a: Seq<nat>, b: Seq<nat>, px: nat, py: nat, ax: nat, ay: nat)
    requires
        !chain_ok(a, px, py, ax, ay),
    ensures
        !chain_ok(a + b, px, py, ax, ay),
    decreases a.len(),
{
    if a.len() == 0 {
    } else {
        assert((a + b)[0] == a[0]);
        assert((a + b).drop_first() =~= a.drop_first() + b);
        let d = tangent_double_of(ax, ay);
        let c = step_value(a[0], d.0, d.1, px, py);
        if ay != 0 && step_ok(a[0], d.0, d.1, px, py) {
            lemma_chain_ok_prefix_fail(a.drop_first(), b, px, py, c.0, c.1);
        }
    }
}

/// Bit `k` of a 256-bit scalar value.
pub open spec fn scalar_bit(sv: nat, k: int) -> nat {
    (sv / crate::radix::pow2n(k as nat)) % 2
}

/// The scalar's 256 bits, most significant first: the order in which the
/// protocol processes them.
pub open spec fn protocol_bits(sv: nat) -> Seq<nat> {
    Seq::new(256, |j: int| scalar_bit(sv, 255 - j))
}

/// A 256-entry boolean string recomposing to a value below 2^256 is that
/// value's little-endian bit string.
pub proof fn lemma_vals_are_scalar_bits(vals: Seq<nat>, sv: nat)
    requires
        vals.len() == 256,
        forall|k: int| 0 <= k < 256 ==> vals[k] < 2,
        crate::radix::nat_bits_val(vals) == sv,
        sv < crate::radix::pow2n(256),
    ensures
        forall|k: int| 0 <= k < 256 ==> vals[k] == scalar_bit(sv, k),
{
    let canon = Seq::new(256, |k: int| scalar_bit(sv, k));
    assert forall|k: int| 0 <= k < 256 implies canon[k] < 2 by {}
    assert forall|k: int| 0 <= k < canon.len() implies canon[k] == (sv / crate::radix::pow2n(
        k as nat,
    )) % 2 by {}
    crate::radix::lemma_nat_bits_of_pointwise(canon, sv);
    crate::radix::lemma_nat_bits_val_unique(vals, canon);
    assert forall|k: int| 0 <= k < 256 implies vals[k] == scalar_bit(sv, k) by {
        assert(vals[k] == canon[k]);
    }
}

/// The protocol stays in the affine domain for this scalar and base point:
/// the chain from the generator never needs the point at infinity, nor does
/// the final addition of the offset point.
pub open spec fn protocol_ok(sv: nat, px: nat, py: nat, gx: nat, gy: nat, ox: nat, oy: nat) -> bool {
    let m = chain_point(protocol_bits(sv), px, py, gx, gy);
    &&& chain_ok(protocol_bits(sv), px, py, gx, gy)
    &&& step_ok(1, m.0, m.1, ox, oy)
}

/// The protocol's result: the chain's terminal accumulator plus the offset
/// point, through the group law.
pub open spec fn protocol_result(sv: nat, px: nat, py: nat, gx: nat, gy: nat, ox: nat, oy: nat) -> (
    nat,
    nat,
) {
    let m = chain_point(protocol_bits(sv), px, py, gx, gy);
    step_value(1, m.0, m.1, ox, oy)
}

impl ECChip {
    /// Lays out the protocol's fixed prologue: the scalar's 256 boolean
    /// cells, the base point and the generator, both constrained on-curve,
    /// and an unchecked accumulator row copy-constrained to the generator.
    #[verifier::spinoff_prover]
    #[verifier::rlimit(100)]
    fn mul_setup(&self, region: &mut Region, pt: &ECPoint, s: &crate::scalar::Scalar) -> (r: (
        Vec<AssignedCell>,
        AssignedECPoint,
        AssignedECPoint,
    ))
        requires
            old(region)@.wf(),
            pt.wf(),
            pt.on_curve_spec(),
            self.config.wf(),
        ensures
            final(region)@.wf(),
            old(region)@.rows.is_prefix_of(final(region)@.rows),
            old(region)@.copies.is_prefix_of(final(region)@.copies),
            final(region)@.len() == old(region)@.len() + 195,
            final(region)@.copies.len() == old(region)@.copies.len() + 64,
            final(region)@.satisfied() <==> old(region)@.satisfied(),
            forall|t: int|
                0 <= t < 64 ==> (#[trigger] final(region)@.ops[old(region)@.len() as int + 3 * t])
                    == Some(OpCode::BitDecomp) && final(region)@.ops[old(region)@.len() as int + 3 * t
                    + 1] is None && final(region)@.ops[old(region)@.len() as int + 3 * t + 2] is None,
            final(region)@.ops[old(region)@.len() as int + 192] == Some(OpCode::OnCurve),
            final(region)@.ops[old(region)@.len() as int + 193] == Some(OpCode::OnCurve),
            forall|t: int|
                0 <= t < 62 ==> {
                    let cp = #[trigger] final(region)@.copies[old(region)@.copies.len() as int + t];
                    let base = old(region)@.len() + (if t < 31 {
                        0int
                    } else {
                        96int
                    });
                    let u = if t < 31 {
                        t
                    } else {
                        t - 31
                    };
                    &&& cp.0.col == Col::B
                    &&& cp.0.row == base + 3 * u + 2
                    &&& cp.1.col == Col::A
                    &&& cp.1.row == base + 3 * u + 5
                },
            ({
                let cp = final(region)@.copies[old(region)@.copies.len() as int + 62];
                cp.0.col == Col::A && cp.0.row == old(region)@.len() + 194 && cp.1.col == Col::A
                    && cp.1.row == old(region)@.len() + 193
            }),
            ({
                let cp = final(region)@.copies[old(region)@.copies.len() as int + 63];
                cp.0.col == Col::B && cp.0.row == old(region)@.len() + 194 && cp.1.col == Col::B
                    && cp.1.row == old(region)@.len() + 193
            }),
            r.0@.len() == 256,
            bit_cells_inv(final(region)@, r.0@),
            forall|k: int|
                0 <= k < 256 ==> (#[trigger] r.0@[k]).cell.row < old(region)@.len() + 192,
            crate::radix::nat_bits_val(crate::region::cells_vals(r.0@)) == s@,
            r.1.ok_in(final(region)@),
            r.1.witness_spec() == *pt,
            r.1.x.cell.col == Col::A,
            r.1.x.cell.row == old(region)@.len() + 192,
            r.1.y.cell.col == Col::B,
            r.1.y.cell.row == old(region)@.len() + 192,
            r.2.ok_in(final(region)@),
            r.2.x.value@ == self.config.gen.x@,
            r.2.y.value@ == self.config.gen.y@,
            r.2.on_curve_spec(),
            r.2.offset + 1 == final(region)@.len(),
            final(region)@.ops[r.2.offset as int] is None,
    {
        proof {
            reveal(crate::region::RegionView::wf);
        }
        let cells = self.decompose_scalar(region, s);
        let ghost vdec = region@;
        let p_assigned = self.load_private_point(region, pt);
        proof {
            crate::region::lemma_cells_ok_extend(vdec, region@, cells@);
        }
        let gpt = ECPoint { x: self.config.gen.x, y: self.config.gen.y };
        let ghost vp = region@;
        let gen_assigned = self.load_private_point(region, &gpt);
        proof {
            crate::region::lemma_cells_ok_extend(vp, region@, cells@);
            crate::region::lemma_cell_ok_extend(vp, region@, p_assigned.x);
            crate::region::lemma_cell_ok_extend(vp, region@, p_assigned.y);
        }
        let ghost vg = region@;
        let acc = self.load_private_point_unchecked(region, &gpt);
        proof {
            crate::region::lemma_cells_ok_extend(vg, region@, cells@);
            crate::region::lemma_cell_ok_extend(vg, region@, p_assigned.x);
            crate::region::lemma_cell_ok_extend(vg, region@, p_assigned.y);
            crate::region::lemma_cell_ok_extend(vg, region@, gen_assigned.x);
            crate::region::lemma_cell_ok_extend(vg, region@, gen_assigned.y);
        }
        let ghost va = region@;
        region.constrain_equal(acc.x.cell, gen_assigned.x.cell);
        region.constrain_equal(acc.y.cell, gen_assigned.y.cell);
        proof {
            reveal(bit_cells_inv);
            assert(old(region)@.copies.is_prefix_of(region@.copies)) by {
                assert(region@.copies.subrange(0, old(region)@.copies.len() as int)
                    =~= old(region)@.copies);
            }
        }
        (cells, p_assigned, acc)
    }

    /// The protocol's epilogue: one conditional addition, with the bit fixed
    /// to one, of the precomputed point -2^256 * generator.
    #[verifier::spinoff_prover]
    #[verifier::rlimit(100)]
    fn mul_finish(&self, region: &mut Region, acc: &AssignedECPoint) -> (r: Result<
        AssignedECPoint,
        Error,
    >)
        requires
            old(region)@.wf(),
            self.config.wf(),
            acc.ok_in(old(region)@),
            acc.on_curve_spec(),
            acc.offset + 1 == old(region)@.len(),
            old(region)@.ops[acc.offset as int] is None,
        ensures
            final(region)@.wf(),
            old(region)@.rows.is_prefix_of(final(region)@.rows),
            old(region)@.copies.is_prefix_of(final(region)@.copies),
            final(region)@.satisfied() <==> old(region)@.satisfied(),
            r is Ok <==> step_ok(
                1,
                acc.x.value@,
                acc.y.value@,
                self.config.offset_gen.x@,
                self.config.offset_gen.y@,
            ),
            r matches Ok(rp) ==> {
                &&& final(region)@.len() == old(region)@.len() + 3
                &&& final(region)@.copies == old(region)@.copies
                &&& forall|j: int|
                    0 <= j < old(region)@.len() && j != acc.offset ==> final(region)@.ops[j]
                        == old(region)@.ops[j]
                &&& final(region)@.ops[acc.offset as int] == Some(OpCode::EcAdd)
                &&& final(region)@.ops[old(region)@.len() as int] is None
                &&& final(region)@.ops[old(region)@.len() as int + 1] is None
                &&& final(region)@.ops[old(region)@.len() as int + 2] is None
                &&& rp.ok_in(final(region)@)
                &&& rp.offset + 1 == final(region)@.len()
                &&& rp.on_curve_spec()
                &&& (rp.x.value@, rp.y.value@) == step_value(
                    1,
                    acc.x.value@,
                    acc.y.value@,
                    self.config.offset_gen.x@,
                    self.config.offset_gen.y@,
                )
            },
            r is Err ==> r == Err::<AssignedECPoint, Error>(Error::PointAtInfinity),
    {
        proof {
            reveal(crate::region::RegionView::wf);
        }
        let one = felt_from_u64(1);
        let zero = felt_from_u64(0);
        let ogpt = ECPoint { x: self.config.offset_gen.x, y: self.config.offset_gen.y };
        let ghost v0 = region@;
        let oga = self.load_private_point_unchecked(region, &ogpt);
        proof {
            crate::region::lemma_cell_ok_extend(v0, region@, acc.x);
            crate::region::lemma_cell_ok_extend(v0, region@, acc.y);
        }
        let ghost vog = region@;
        let (bc, _padc) = self.load_two_private_fields(region, &one, &zero);
        proof {
            crate::region::lemma_cell_ok_extend(vog, region@, acc.x);
            crate::region::lemma_cell_ok_extend(vog, region@, acc.y);
            crate::region::lemma_cell_ok_extend(vog, region@, oga.x);
            crate::region::lemma_cell_ok_extend(vog, region@, oga.y);
        }
        let rp = match self.conditional_point_add(region, acc, &oga, &bc) {
            Ok(rp) => rp,
            Err(e) => {
                proof {
                    assert(v0.rows.is_prefix_of(region@.rows)) by {
                        assert(region@.rows.subrange(0, v0.rows.len() as int) =~= v0.rows);
                    }
                    assert(v0.copies.is_prefix_of(region@.copies));
                }
                return Err(e);
            },
        };
        proof {
            assert(v0.rows.is_prefix_of(region@.rows)) by {
                assert(region@.rows.subrange(0, v0.rows.len() as int) =~= v0.rows);
            }
            assert(v0.copies.is_prefix_of(region@.copies));
        }
        Ok(rp)
    }
}

/// The tags laid down by the protocol's prologue and its first `i` stages.
#[verifier::opaque]
pub open spec fn mul_tags_inv(v: crate::region::RegionView, base: int, i: int) -> bool {
    &&& forall|t: int|
        0 <= t < 64 ==> (#[trigger] v.ops[base + 3 * t]) == Some(OpCode::BitDecomp) && v.ops[base
            + 3 * t + 1] is None && v.ops[base + 3 * t + 2] is None
    &&& v.ops[base + 192] == Some(OpCode::OnCurve)
    &&& v.ops[base + 193] == Some(OpCode::OnCurve)
    &&& forall|t: int|
        0 <= t < i ==> (#[trigger] v.ops[base + 194 + 4 * t]) == Some(OpCode::EcDouble) && v.ops[
        base + 195 + 4 * t] == Some(OpCode::EcAdd) && v.ops[base + 196 + 4 * t] is None && v.ops[
        base + 197 + 4 * t] is None
}

/// The copy links laid down by the protocol's first `i` stages.
#[verifier::opaque]
pub open spec fn mul_links_inv(
    v: crate::region::RegionView,
    base: int,
    c0: int,
    i: int,
    cs: Seq<AssignedCell>,
    pxc: Cell,
    pyc: Cell,
) -> bool {
    forall|t: int|
        0 <= t < i ==> {
            let cpx = #[trigger] v.copies[c0 + 3 * t];
            let cpy = v.copies[c0 + 3 * t + 1];
            let cpb = v.copies[c0 + 3 * t + 2];
            &&& cpx.0.col == Col::A
            &&& cpx.0.row == base + 196 + 4 * t
            &&& cpx.1 == pxc
            &&& cpy.0.col == Col::B
            &&& cpy.0.row == base + 196 + 4 * t
            &&& cpy.1 == pyc
            &&& cpb.0.col == Col::A
            &&& cpb.0.row == base + 197 + 4 * t
            &&& cpb.1 == cs[255 - t].cell
        }
}

/// One stage extends the tag and link patterns by one.
pub proof fn lemma_mul_shape_step(
    v1: crate::region::RegionView,
    v2: crate::region::RegionView,
    base: int,
    c0: int,
    i: int,
    cs: Seq<AssignedCell>,
    pxc: Cell,
    pyc: Cell,
    bit_cell: AssignedCell,
)
    requires
        0 <= base,
        0 <= c0,
        0 <= i < 256,
        mul_tags_inv(v1, base, i),
        mul_links_inv(v1, base, c0, i, cs, pxc, pyc),
        v1.len() == base + 195 + 4 * i,
        v1.copies.len() == c0 + 3 * i,
        forall|j: int| 0 <= j < v1.len() && j != base + 194 + 4 * i ==> v2.ops[j] == v1.ops[j],
        v2.ops[base + 194 + 4 * i] == Some(OpCode::EcDouble),
        v2.ops[base + 195 + 4 * i] == Some(OpCode::EcAdd),
        v2.ops[base + 196 + 4 * i] is None,
        v2.ops[base + 197 + 4 * i] is None,
        v1.copies.is_prefix_of(v2.copies),
        ({
            let cpx = v2.copies[c0 + 3 * i];
            cpx.0.col == Col::A && cpx.0.row == base + 196 + 4 * i && cpx.1 == pxc
        }),
        ({
            let cpy = v2.copies[c0 + 3 * i + 1];
            cpy.0.col == Col::B && cpy.0.row == base + 196 + 4 * i && cpy.1 == pyc
        }),
        ({
            let cpb = v2.copies[c0 + 3 * i + 2];
            cpb.0.col == Col::A && cpb.0.row == base + 197 + 4 * i && cpb.1 == cs[255 - i].cell
        }),
    ensures
        mul_tags_inv(v2, base, i + 1),
        mul_links_inv(v2, base, c0, i + 1, cs, pxc, pyc),
{
    reveal(mul_tags_inv);
    reveal(mul_links_inv);
    assert forall|j: int| 0 <= j < v1.copies.len() implies v2.copies[j] == v1.copies[j] by {
        assert(v2.copies.subrange(0, v1.copies.len() as int)[j] == v2.copies[j]);
    }
    assert forall|t: int|
        0 <= t < i + 1 implies (#[trigger] v2.ops[base + 194 + 4 * t]) == Some(OpCode::EcDouble)
        && v2.ops[base + 195 + 4 * t] == Some(OpCode::EcAdd) && v2.ops[base + 196 + 4 * t] is None
        && v2.ops[base + 197 + 4 * t] is None by {
        if t < i {
            assert(base + 194 + 4 * t < v1.len());
            assert(base + 197 + 4 * t < base + 194 + 4 * i);
            assert(v1.ops[base + 194 + 4 * t] == Some(OpCode::EcDouble));
            assert(v2.ops[base + 194 + 4 * t] == v1.ops[base + 194 + 4 * t]);
            assert(v2.ops[base + 195 + 4 * t] == v1.ops[base + 195 + 4 * t]);
            assert(v2.ops[base + 196 + 4 * t] == v1.ops[base + 196 + 4 * t]);
            assert(v2.ops[base + 197 + 4 * t] == v1.ops[base + 197 + 4 * t]);
        }
    }
    assert forall|t: int| 0 <= t < 64 implies (#[trigger] v2.ops[base + 3 * t]) == Some(
        OpCode::BitDecomp,
    ) && v2.ops[base + 3 * t + 1] is None && v2.ops[base + 3 * t + 2] is None by {
        assert(base + 3 * t + 2 < base + 194 + 4 * i);
        assert(v1.ops[base + 3 * t] == Some(OpCode::BitDecomp));
        assert(v2.ops[base + 3 * t] == v1.ops[base + 3 * t]);
        assert(v2.ops[base + 3 * t + 1] == v1.ops[base + 3 * t + 1]);
        assert(v2.ops[base + 3 * t + 2] == v1.ops[base + 3 * t + 2]);
    }
    assert(v2.ops[base + 192] == v1.ops[base + 192]);
    assert(v2.ops[base + 193] == v1.ops[base + 193]);
}

/// The tag pattern the scalar multiplication lays down, relative to the
/// table it started from: 64 decomposition windows, the two on-curve loads
/// of the base point and the generator, one untagged accumulator seed row,
/// 256 stages of one doubling and one conditional-addition window each, and
/// the final correction window.  The pattern does not depend on the scalar.
pub open spec fn point_mul_tags(v1: crate::region::RegionView, v2: crate::region::RegionView) -> bool {
    let base = v1.len() as int;
    &&& forall|t: int|
        0 <= t < 64 ==> (#[trigger] v2.ops[base + 3 * t]) == Some(OpCode::BitDecomp) && v2.ops[base
            + 3 * t + 1] is None && v2.ops[base + 3 * t + 2] is None
    &&& v2.ops[base + 192] == Some(OpCode::OnCurve)
    &&& v2.ops[base + 193] == Some(OpCode::OnCurve)
    &&& forall|t: int|
        0 <= t < 256 ==> (#[trigger] v2.ops[base + 194 + 4 * t]) == Some(OpCode::EcDouble)
            && v2.ops[base + 195 + 4 * t] == Some(OpCode::EcAdd) && v2.ops[base + 196 + 4 * t]
            is None && v2.ops[base + 197 + 4 * t] is None
    &&& v2.ops[base + 1218] == Some(OpCode::EcAdd)
    &&& v2.ops[base + 1219] is None
    &&& v2.ops[base + 1220] is None
    &&& v2.ops[base + 1221] is None
}

/// The copy links the scalar multiplication lays down: each stage's re-laid
/// base point is linked to the on-curve-checked load, and each stage's bit
/// row to a cell inside the scalar decomposition block that holds exactly
/// that bit of the scalar, so no unrelated bit can be substituted.
pub open spec fn point_mul_links(
    v1: crate::region::RegionView,
    v2: crate::region::RegionView,
    sv: nat,
) -> bool {
    let base = v1.len() as int;
    let c0 = v1.copies.len() as int + 64;
    forall|t: int|
        0 <= t < 256 ==> {
            let cpx = #[trigger] v2.copies[c0 + 3 * t];
            let cpy = v2.copies[c0 + 3 * t + 1];
            let cpb = v2.copies[c0 + 3 * t + 2];
            &&& cpx.0.col == Col::A
            &&& cpx.0.row == base + 196 + 4 * t
            &&& cpx.1.col == Col::A
            &&& cpx.1.row == base + 192
            &&& cpy.0.col == Col::B
            &&& cpy.0.row == base + 196 + 4 * t
            &&& cpy.1.col == Col::B
            &&& cpy.1.row == base + 192
            &&& cpb.0.col == Col::A
            &&& cpb.0.row == base + 197 + 4 * t
            &&& cpb.1.row < base + 192
            &&& v2.value_at(cpb.1) == scalar_bit(sv, 255 - t)
        }
}

/// The native elliptic-curve operations of the chip.
pub trait NativeECOps {
    /// The per-curve configuration the chip operates with.
    spec fn cfg(self) -> crate::chip::ECConfig;

    /// Writes the point's coordinates to one row, without any curve check.
    fn load_private_point_unchecked(&self, region: &mut Region, pt: &ECPoint) -> (r:
        AssignedECPoint)
        requires
            old(region)@.wf(),
            pt.wf(),
        ensures
            final(region)@.wf(),
            final(region)@.rows == old(region)@.rows.push((pt.x@, pt.y@)),
            final(region)@.ops == old(region)@.ops.push(None::<OpCode>),
            final(region)@.copies == old(region)@.copies,
            final(region)@.satisfied() <==> old(region)@.satisfied(),
            r.ok_in(final(region)@),
            r.offset == old(region)@.len(),
            r.witness_spec() == *pt,
            final(region)@.ops[r.offset as int] is None,
    ;

    /// Enables the on-curve opcode at the point's row, which must be the row
    /// just below the cursor.  Re-applying it to an already checked point
    /// re-enables the same opcode and changes nothing.
    fn enforce_on_curve(&self, region: &mut Region, pp: &AssignedECPoint)
        requires
            old(region)@.wf(),
            pp.ok_in(old(region)@),
            pp.offset + 1 == old(region)@.len(),
            old(region)@.ops[pp.offset as int] is None || old(region)@.ops[pp.offset as int]
                == Some(OpCode::OnCurve),
        ensures
            final(region)@.wf(),
            final(region)@.rows == old(region)@.rows,
            final(region)@.copies == old(region)@.copies,
            final(region)@.ops == old(region)@.ops.update(pp.offset as int, Some(OpCode::OnCurve)),
            final(region)@.len() == old(region)@.len(),
            final(region)@.satisfied() <==> (old(region)@.satisfied() && on_curve(
                pp.x.value@,
                pp.y.value@,
            )),
            pp.ok_in(final(region)@),
    ;

    /// Loads a point and constrains it to lie on the curve.
    fn load_private_point(&self, region: &mut Region, pt: &ECPoint) -> (r: AssignedECPoint)
        requires
            old(region)@.wf(),
            pt.wf(),
        ensures
            final(region)@.wf(),
            final(region)@.rows == old(region)@.rows.push((pt.x@, pt.y@)),
            final(region)@.ops == old(region)@.ops.push(Some(OpCode::OnCurve)),
            final(region)@.copies == old(region)@.copies,
            final(region)@.satisfied() <==> (old(region)@.satisfied() && on_curve(pt.x@, pt.y@)),
            r.ok_in(final(region)@),
            r.offset == old(region)@.len(),
            r.witness_spec() == *pt,
    ;

    /// Doubles a point laid out at the row just below the cursor: enables
    /// the doubling opcode there and writes the tangent double on the next
    /// row.  Fails exactly on points with zero y-coordinate, whose double is
    /// the point at infinity; the region is then unchanged.
    fn double_assigned_point(&self, region: &mut Region, p1: &AssignedECPoint) -> (r: Result<
        AssignedECPoint,
        Error,
    >)
        requires
            old(region)@.wf(),
            p1.ok_in(old(region)@),
            p1.on_curve_spec(),
            p1.offset + 1 == old(region)@.len(),
            old(region)@.ops[p1.offset as int] is None,
        ensures
            final(region)@.wf(),
            old(region)@.rows.is_prefix_of(final(region)@.rows),
            old(region)@.copies.is_prefix_of(final(region)@.copies),
            r is Ok <==> p1.y.value@ != 0,
            r matches Ok(rp) ==> {
                &&& final(region)@.len() == old(region)@.len() + 1
                &&& final(region)@.rows == old(region)@.rows.push((rp.x.value@, rp.y.value@))
                &&& final(region)@.ops == old(region)@.ops.push(None::<OpCode>).update(
                    p1.offset as int,
                    Some(OpCode::EcDouble),
                )
                &&& final(region)@.copies == old(region)@.copies
                &&& final(region)@.satisfied() <==> old(region)@.satisfied()
                &&& rp.ok_in(final(region)@)
                &&& rp.offset == old(region)@.len()
                &&& final(region)@.ops[rp.offset as int] is None
                &&& rp.on_curve_spec()
                &&& tangent_rel(p1.x.value@, p1.y.value@, rp.x.value@, rp.y.value@)
                &&& (rp.x.value@, rp.y.value@) == tangent_double_of(p1.x.value@, p1.y.value@)
            },
            r is Err ==> final(region)@ == old(region)@ && r == Err::<AssignedECPoint, Error>(
                Error::PointAtInfinity,
            ),
    ;

    /// Conditional point addition over the four-row window (p1, p2, bit,
    /// result): with the bit set the result is the group-law sum of p1 and
    /// p2, with it clear the result is p1 again; either way its
    /// sub-expression is enabled at p1's row and the written result
    /// satisfies it.  Fails exactly when the bit is set and the sum would
    /// be the point at infinity; the region is then unchanged.  The caller
    /// is responsible for having proven p1 and p2 on the curve.
    fn conditional_point_add(
        &self,
        region: &mut Region,
        p1: &AssignedECPoint,
        p2: &AssignedECPoint,
        b: &AssignedCell,
    ) -> (r: Result<AssignedECPoint, Error>)
        requires
            old(region)@.wf(),
            p1.ok_in(old(region)@),
            p2.ok_in(old(region)@),
            p1.on_curve_spec(),
            p2.on_curve_spec(),
            cell_ok(old(region)@, *b),
            b.value@ == 0 || b.value@ == 1,
            b.cell == (Cell { col: Col::A, row: (old(region)@.len() - 1) as usize }),
            p1.offset + 3 == old(region)@.len(),
            p2.offset + 2 == old(region)@.len(),
            old(region)@.ops[p1.offset as int] is None,
        ensures
            final(region)@.wf(),
            old(region)@.rows.is_prefix_of(final(region)@.rows),
            old(region)@.copies.is_prefix_of(final(region)@.copies),
            r is Ok <==> !(b.value@ == 1 && p1.x.value@ == p2.x.value@ && (p1.y.value@
                != p2.y.value@ || p1.y.value@ == 0)),
            r matches Ok(rp) ==> {
                &&& final(region)@.len() == old(region)@.len() + 1
                &&& final(region)@.rows == old(region)@.rows.push((rp.x.value@, rp.y.value@))
                &&& final(region)@.ops == old(region)@.ops.push(None::<OpCode>).update(
                    p1.offset as int,
                    Some(OpCode::EcAdd),
                )
                &&& final(region)@.copies == old(region)@.copies
                &&& final(region)@.satisfied() <==> old(region)@.satisfied()
                &&& rp.ok_in(final(region)@)
                &&& rp.offset == old(region)@.len()
                &&& final(region)@.ops[rp.offset as int] is None
                &&& rp.on_curve_spec()
                &&& (rp.x.value@, rp.y.value@) == step_value(
                    b.value@,
                    p1.x.value@,
                    p1.y.value@,
                    p2.x.value@,
                    p2.y.value@,
                )
                &&& b.value@ == 1 && p1.x.value@ != p2.x.value@ ==> chord_rel(
                    p1.x.value@,
                    p1.y.value@,
                    p2.x.value@,
                    p2.y.value@,
                    rp.x.value@,
                    rp.y.value@,
                )
                &&& b.value@ == 1 && p1.x.value@ == p2.x.value@ ==> tangent_rel(
                    p1.x.value@,
                    p1.y.value@,
                    rp.x.value@,
                    rp.y.value@,
                )
                &&& b.value@ == 0 ==> rp.witness_spec() == p1.witness_spec()
            },
            r is Err ==> final(region)@ == old(region)@ && r == Err::<AssignedECPoint, Error>(
                Error::PointAtInfinity,
            ),
    ;

    /// Point addition of the two points laid out just below the cursor,
    /// realised as a conditional addition whose condition row is fixed to
    /// one.  Fails exactly when the sum would be the point at infinity; the
    /// condition row then remains as padding.  The caller is responsible
    /// for having proven the points on the curve.
    fn add_assigned_points(&self, region: &mut Region, p1: &AssignedECPoint, p2: &AssignedECPoint)
        -> (r: Result<AssignedECPoint, Error>)
        requires
            old(region)@.wf(),
            p1.ok_in(old(region)@),
            p2.ok_in(old(region)@),
            p1.on_curve_spec(),
            p2.on_curve_spec(),
            p1.offset + 2 == old(region)@.len(),
            p2.offset + 1 == old(region)@.len(),
            old(region)@.ops[p1.offset as int] is None,
        ensures
            final(region)@.wf(),
            old(region)@.rows.is_prefix_of(final(region)@.rows),
            old(region)@.copies.is_prefix_of(final(region)@.copies),
            final(region)@.satisfied() <==> old(region)@.satisfied(),
            r is Ok <==> !(p1.x.value@ == p2.x.value@ && (p1.y.value@ != p2.y.value@
                || p1.y.value@ == 0)),
            r matches Ok(rp) ==> {
                &&& final(region)@.len() == old(region)@.len() + 2
                &&& rp.ok_in(final(region)@)
                &&& rp.offset == old(region)@.len() + 1
                &&& final(region)@.ops[rp.offset as int] is None
                &&& rp.on_curve_spec()
                &&& (rp.x.value@, rp.y.value@) == step_value(
                    1,
                    p1.x.value@,
                    p1.y.value@,
                    p2.x.value@,
                    p2.y.value@,
                )
                &&& p1.x.value@ != p2.x.value@ ==> chord_rel(
                    p1.x.value@,
                    p1.y.value@,
                    p2.x.value@,
                    p2.y.value@,
                    rp.x.value@,
                    rp.y.value@,
                )
                &&& p1.x.value@ == p2.x.value@ ==> tangent_rel(
                    p1.x.value@,
                    p1.y.value@,
                    rp.x.value@,
                    rp.y.value@,
                )
            },
            r is Err ==> r == Err::<AssignedECPoint, Error>(Error::PointAtInfinity),
    ;

    /// Writes three rows of zeroes, untagged: padding so that the last real
    /// window's relative queries stay within the table.
    fn pad(&self, region: &mut Region)
        requires
            old(region)@.wf(),
        ensures
            final(region)@.wf(),
            final(region)@.rows == old(region)@.rows.push((0nat, 0nat)).push((0nat, 0nat)).push(
                (0nat, 0nat),
            ),
            final(region)@.ops == old(region)@.ops.push(None::<OpCode>).push(None::<OpCode>).push(
                None::<OpCode>,
            ),
            final(region)@.copies == old(region)@.copies,
            final(region)@.len() == old(region)@.len() + 3,
            final(region)@.satisfied() <==> old(region)@.satisfied(),
    ;

    /// Decomposes a 256-bit scalar into 256 boolean cells, little endian:
    /// the low half first, then the high half, each through the chained
    /// 128-bit decomposition.  The cells' little-endian recomposition is the
    /// scalar, and satisfiability is unchanged.
    fn decompose_scalar(&self, region: &mut Region, s: &crate::scalar::Scalar) -> (r: Vec<
        AssignedCell,
    >)
        requires
            old(region)@.wf(),
        ensures
            final(region)@.wf(),
            old(region)@.rows.is_prefix_of(final(region)@.rows),
            old(region)@.copies.is_prefix_of(final(region)@.copies),
            final(region)@.len() == old(region)@.len() + 192,
            final(region)@.copies.len() == old(region)@.copies.len() + 62,
            final(region)@.satisfied() <==> old(region)@.satisfied(),
            forall|t: int|
                0 <= t < 64 ==> (#[trigger] final(region)@.ops[old(region)@.len() as int + 3 * t])
                    == Some(OpCode::BitDecomp) && final(region)@.ops[old(region)@.len() as int + 3 * t
                    + 1] is None && final(region)@.ops[old(region)@.len() as int + 3 * t + 2] is None,
            forall|t: int|
                0 <= t < 62 ==> {
                    let cp = #[trigger] final(region)@.copies[old(region)@.copies.len() as int + t];
                    let base = old(region)@.len() + (if t < 31 {
                        0int
                    } else {
                        96int
                    });
                    let u = if t < 31 {
                        t
                    } else {
                        t - 31
                    };
                    &&& cp.0.col == Col::B
                    &&& cp.0.row == base + 3 * u + 2
                    &&& cp.1.col == Col::A
                    &&& cp.1.row == base + 3 * u + 5
                },
            r@.len() == 256,
            forall|k: int|
                0 <= k < 256 ==> cell_ok(final(region)@, #[trigger] r@[k]) && (r@[k].value@ == 0
                    || r@[k].value@ == 1) && r@[k].cell.row < old(region)@.len() + 192,
            crate::radix::nat_bits_val(crate::region::cells_vals(r@)) == s@,
    ;

    /// Loads two points, constrains both on the curve, and adds them: fresh
    /// unchecked copies of the operands are laid out for the addition window
    /// and copy-constrained to the checked loads, so the single tag per row
    /// stays unambiguous.  Fails exactly when the sum would be the point at
    /// infinity.
    fn add_points(&self, region: &mut Region, p1: &ECPoint, p2: &ECPoint) -> (r: Result<
        AssignedECPoint,
        Error,
    >)
        requires
            old(region)@.wf(),
            p1.wf(),
            p2.wf(),
            p1.on_curve_spec(),
            p2.on_curve_spec(),
        ensures
            final(region)@.wf(),
            old(region)@.rows.is_prefix_of(final(region)@.rows),
            final(region)@.satisfied() <==> old(region)@.satisfied(),
            r is Ok <==> !(p1.x@ == p2.x@ && (p1.y@ != p2.y@ || p1.y@ == 0)),
            r matches Ok(rp) ==> {
                &&& rp.ok_in(final(region)@)
                &&& rp.on_curve_spec()
                &&& (rp.x.value@, rp.y.value@) == step_value(1, p1.x@, p1.y@, p2.x@, p2.y@)
                &&& p1.x@ != p2.x@ ==> chord_rel(p1.x@, p1.y@, p2.x@, p2.y@, rp.x.value@, rp.y.value@)
                &&& p1.x@ == p2.x@ ==> tangent_rel(p1.x@, p1.y@, rp.x.value@, rp.y.value@)
            },
            r is Err ==> r == Err::<AssignedECPoint, Error>(Error::PointAtInfinity),
    ;

    /// Scalar multiplication by double-and-add: the scalar is decomposed
    /// into 256 boolean cells, the accumulator starts at the generator so
    /// that no intermediate value is the unrepresentable point at infinity,
    /// and after the 256 unrolled iterations one conditional addition of the
    /// precomputed point -2^256 * generator removes the initial offset.
    /// Each bit row is copy-constrained to its decomposition cell, and each
    /// re-laid base point to its on-curve-checked load.  The structure is
    /// fixed: the same row count and copy count for every scalar.  Fails
    /// exactly when the chain or the final addition would reach the point
    /// at infinity; satisfiability is unchanged in every case.
    fn point_mul(&self, region: &mut Region, pt: &ECPoint, s: &crate::scalar::Scalar) -> (r:
        Result<AssignedECPoint, Error>)
        requires
            old(region)@.wf(),
            pt.wf(),
            pt.on_curve_spec(),
            self.cfg().wf(),
        ensures
            final(region)@.wf(),
            old(region)@.rows.is_prefix_of(final(region)@.rows),
            old(region)@.copies.is_prefix_of(final(region)@.copies),
            final(region)@.satisfied() <==> old(region)@.satisfied(),
            r is Ok <==> protocol_ok(
                s@,
                pt.x@,
                pt.y@,
                self.cfg().gen.x@,
                self.cfg().gen.y@,
                self.cfg().offset_gen.x@,
                self.cfg().offset_gen.y@,
            ),
            r matches Ok(rp) ==> {
                &&& final(region)@.len() == old(region)@.len() + 1222
                &&& final(region)@.copies.len() == old(region)@.copies.len() + 832
                &&& point_mul_tags(old(region)@, final(region)@)
                &&& point_mul_links(old(region)@, final(region)@, s@)
                &&& rp.ok_in(final(region)@)
                &&& rp.offset + 1 == final(region)@.len()
                &&& rp.on_curve_spec()
                &&& (rp.x.value@, rp.y.value@) == protocol_result(
                    s@,
                    pt.x@,
                    pt.y@,
                    self.cfg().gen.x@,
                    self.cfg().gen.y@,
                    self.cfg().offset_gen.x@,
                    self.cfg().offset_gen.y@,
                )
            },
            r is Err ==> r == Err::<AssignedECPoint, Error>(Error::PointAtInfinity),
    ;
}

impl NativeECOps for ECChip {
    open spec fn cfg(self) -> crate::chip::ECConfig {
        self.config
    }

    fn load_private_point_unchecked(&self, region: &mut Region, pt: &ECPoint) -> (r:
        AssignedECPoint)
    {
        proof {
            reveal(crate::region::RegionView::wf);
        }
        let ghost v1 = region@;
        let row = region.rows.len();
        region.rows.push((pt.x, pt.y));
        region.ops.push(None);
        proof {
            reveal(crate::region::RegionView::wf);
            let v2 = region@;
            assert(v2.rows =~= v1.rows.push((pt.x@, pt.y@)));
            assert(v2.ops =~= v1.ops.push(None::<OpCode>));
            assert(v1.rows.is_prefix_of(v2.rows));
            assert(v1.ops.is_prefix_of(v2.ops));
            assert(v1.copies.is_prefix_of(v2.copies));
            crate::region::lemma_no_op_appended(v1, v2);
        }
        AssignedECPoint {
            x: AssignedCell { value: pt.x, cell: Cell { col: Col::A, row } },
            y: AssignedCell { value: pt.y, cell: Cell { col: Col::B, row } },
            offset: row,
        }
    }

    fn enforce_on_curve(&self, region: &mut Region, pp: &AssignedECPoint)
    {
        proof {
            reveal(crate::region::RegionView::wf);
        }
        let ghost v1 = region@;
        region.ops.set(pp.offset, Some(OpCode::OnCurve));
        proof {
            reveal(crate::region::RegionView::wf);
            let v2 = region@;
            assert(v2.ops =~= v1.ops.update(pp.offset as int, Some(OpCode::OnCurve)));
            crate::region::lemma_op_set(v1, v2, pp.offset as int, OpCode::OnCurve);
            assert(op_rel(v2, pp.offset as int, OpCode::OnCurve) == (crate::region::curve_term(
                pp.x.value@,
                pp.y.value@,
            ) == 0)) by {
                reveal(crate::region::op_rel);
            }
        }
    }

    fn load_private_point(&self, region: &mut Region, pt: &ECPoint) -> (r: AssignedECPoint)
    {
        proof {
            reveal(crate::region::RegionView::wf);
        }
        let ghost v1 = region@;
        let r = self.load_private_point_unchecked(region, pt);
        self.enforce_on_curve(region, &r);
        proof {
            reveal(crate::region::RegionView::wf);
            assert(final(region)@.ops =~= v1.ops.push(Some(OpCode::OnCurve)));
        }
        r
    }

    #[verifier::spinoff_prover]
    #[verifier::rlimit(100)]
    fn double_assigned_point(&self, region: &mut Region, p1: &AssignedECPoint) -> (r: Result<
        AssignedECPoint,
        Error,
    >)
    {
        proof {
            reveal(crate::region::RegionView::wf);
        }
        let zero = felt_from_u64(0);
        if felt_eq(&p1.y.value, &zero) {
            return Err(Error::PointAtInfinity);
        }
        let w = p1.witness();
        let d = curve_double(&w);
        let ghost v1 = region@;
        let row = region.rows.len();
        region.rows.push((d.x, d.y));
        region.ops.push(None);
        proof {
            reveal(crate::region::RegionView::wf);
            let v2 = region@;
            assert(v2.rows =~= v1.rows.push((d.x@, d.y@)));
            assert(v2.ops =~= v1.ops.push(None::<OpCode>));
            assert(v1.rows.is_prefix_of(v2.rows));
            assert(v1.ops.is_prefix_of(v2.ops));
            assert(v1.copies.is_prefix_of(v2.copies));
            crate::region::lemma_no_op_appended(v1, v2);
        }
        let ghost s1 = region@;
        region.ops.set(p1.offset, Some(OpCode::EcDouble));
        proof {
            reveal(crate::region::RegionView::wf);
            let v2 = region@;
            assert(v2.ops =~= s1.ops.update(p1.offset as int, Some(OpCode::EcDouble)));
            crate::region::lemma_op_set(s1, v2, p1.offset as int, OpCode::EcDouble);
            lemma_tangent_term_zero(p1.x.value@, p1.y.value@, d.x@, d.y@);
            assert(op_rel(v2, p1.offset as int, OpCode::EcDouble)) by {
                reveal(crate::region::op_rel);
                assert(v2.a(p1.offset as int) == p1.x.value@);
                assert(v2.b(p1.offset as int) == p1.y.value@);
                assert(v2.a(p1.offset + 1) == d.x@);
                assert(v2.b(p1.offset + 1) == d.y@);
            }
            assert(v1.rows.is_prefix_of(v2.rows));
        }
        Ok(AssignedECPoint {
            x: AssignedCell { value: d.x, cell: Cell { col: Col::A, row } },
            y: AssignedCell { value: d.y, cell: Cell { col: Col::B, row } },
            offset: row,
        })
    }

    #[verifier::spinoff_prover]
    #[verifier::rlimit(100)]
    fn conditional_point_add(
        &self,
        region: &mut Region,
        p1: &AssignedECPoint,
        p2: &AssignedECPoint,
        b: &AssignedCell,
    ) -> (r: Result<AssignedECPoint, Error>)
    {
        proof {
            reveal(crate::region::RegionView::wf);
        }
        let zero = felt_from_u64(0);
        let bit_clear = felt_eq(&b.value, &zero);
        let p1w = p1.witness();
        let p2w = p2.witness();
        let p3: ECPoint;
        if bit_clear {
            p3 = p1w;
        } else {
            if !felt_eq(&p1.x.value, &p2.x.value) {
                p3 = curve_add_unequal(&p1w, &p2w);
            } else if felt_eq(&p1.y.value, &p2.y.value) && !felt_eq(&p1.y.value, &zero) {
                p3 = curve_double(&p1w);
            } else {
                return Err(Error::PointAtInfinity);
            }
        }
        let ghost v1 = region@;
        let row = region.rows.len();
        region.rows.push((p3.x, p3.y));
        region.ops.push(None);
        proof {
            reveal(crate::region::RegionView::wf);
            let v2 = region@;
            assert(v2.rows =~= v1.rows.push((p3.x@, p3.y@)));
            assert(v2.ops =~= v1.ops.push(None::<OpCode>));
            assert(v1.rows.is_prefix_of(v2.rows));
            assert(v1.ops.is_prefix_of(v2.ops));
            assert(v1.copies.is_prefix_of(v2.copies));
            crate::region::lemma_no_op_appended(v1, v2);
        }
        let ghost s1 = region@;
        region.ops.set(p1.offset, Some(OpCode::EcAdd));
        proof {
            reveal(crate::region::RegionView::wf);
            let v2 = region@;
            let at = p1.offset as int;
            assert(v2.ops =~= s1.ops.update(at, Some(OpCode::EcAdd)));
            crate::region::lemma_op_set(s1, v2, at, OpCode::EcAdd);
            let x1 = p1.x.value@;
            let y1 = p1.y.value@;
            let x2 = p2.x.value@;
            let y2 = p2.y.value@;
            if b.value@ == 0 {
                lemma_cond_add_components_false(x1, y1, x2, y2);
            } else if x1 != x2 {
                lemma_chord_colinear(x1, y1, x2, y2, p3.x@, p3.y@);
                lemma_cond_add_components_true(x1, y1, x2, y2, p3.x@, p3.y@);
            } else {
                lemma_colinear_degenerate(x1, y1, p3.x@, p3.y@);
                lemma_cond_add_components_true(x1, y1, x2, y2, p3.x@, p3.y@);
            }
            assert(op_rel(v2, at, OpCode::EcAdd)) by {
                reveal(crate::region::op_rel);
                assert(v2.a(at) == x1);
                assert(v2.b(at) == y1);
                assert(v2.a(at + 1) == x2);
                assert(v2.b(at + 1) == y2);
                assert(v2.a(at + 2) == b.value@);
                assert(v2.a(at + 3) == p3.x@);
                assert(v2.b(at + 3) == p3.y@);
            }
            assert(v1.rows.is_prefix_of(v2.rows));
            assert(v2.ops =~= v1.ops.push(None::<OpCode>).update(at, Some(OpCode::EcAdd)));
            assert((p3.x@, p3.y@) == step_value(
                b.value@,
                p1.x.value@,
                p1.y.value@,
                p2.x.value@,
                p2.y.value@,
            ));
        }
        Ok(AssignedECPoint {
            x: AssignedCell { value: p3.x, cell: Cell { col: Col::A, row } },
            y: AssignedCell { value: p3.y, cell: Cell { col: Col::B, row } },
            offset: row,
        })
    }

    fn add_assigned_points(&self, region: &mut Region, p1: &AssignedECPoint, p2: &AssignedECPoint)
        -> (r: Result<AssignedECPoint, Error>)
    {
        proof {
            reveal(crate::region::RegionView::wf);
        }
        let one = felt_from_u64(1);
        let zero = felt_from_u64(0);
        let ghost v1 = region@;
        let (bc, _pad_cell) = self.load_two_private_fields(region, &one, &zero);
        proof {
            reveal(crate::region::RegionView::wf);
            crate::region::lemma_cell_ok_extend(v1, region@, p1.x);
            crate::region::lemma_cell_ok_extend(v1, region@, p1.y);
            crate::region::lemma_cell_ok_extend(v1, region@, p2.x);
            crate::region::lemma_cell_ok_extend(v1, region@, p2.y);
        }
        self.conditional_point_add(region, p1, p2, &bc)
    }

    fn pad(&self, region: &mut Region)
    {
        let zero = felt_from_u64(0);
        let ghost v1 = region@;
        region.rows.push((zero, zero));
        region.ops.push(None);
        region.rows.push((zero, zero));
        region.ops.push(None);
        region.rows.push((zero, zero));
        region.ops.push(None);
        proof {
            reveal(crate::region::RegionView::wf);
            let v2 = region@;
            assert(v2.rows =~= v1.rows.push((0nat, 0nat)).push((0nat, 0nat)).push((0nat, 0nat)));
            assert(v2.ops =~= v1.ops.push(None::<OpCode>).push(None::<OpCode>).push(
                None::<OpCode>,
            ));
            assert(v1.rows.is_prefix_of(v2.rows)) by {
                assert(v2.rows.subrange(0, v1.rows.len() as int) =~= v1.rows);
            }
            assert(v1.ops.is_prefix_of(v2.ops)) by {
                assert(v2.ops.subrange(0, v1.ops.len() as int) =~= v1.ops);
            }
            assert(v1.copies.is_prefix_of(v2.copies));
            crate::region::lemma_no_op_appended(v1, v2);
        }
    }

    fn decompose_scalar(&self, region: &mut Region, s: &crate::scalar::Scalar) -> (r: Vec<
        AssignedCell,
    >)
    {
        proof {
            reveal(crate::region::RegionView::wf);
        }
        let (high, low) = crate::util::field_decompose_u128(s);
        let ghost v0 = region@;
        let (mut res, _low_acc) = self.decompose_u128(region, low);
        let ghost vmid = region@;
        let (mut high_cells, _high_acc) = self.decompose_u128(region, high);
        res.append(&mut high_cells);
        proof {
            reveal(crate::region::RegionView::wf);
            let v2 = region@;
            assert forall|j: int| 0 <= j < vmid.ops.len() implies v2.ops[j] == vmid.ops[j] by {
                assert(vmid.ops.is_prefix_of(v2.ops));
                assert(v2.ops.subrange(0, vmid.ops.len() as int)[j] == v2.ops[j]);
            }
            assert forall|j: int|
                0 <= j < vmid.copies.len() implies v2.copies[j] == vmid.copies[j] by {
                assert(vmid.copies.is_prefix_of(v2.copies));
                assert(v2.copies.subrange(0, vmid.copies.len() as int)[j] == v2.copies[j]);
            }
            assert forall|t: int|
                0 <= t < 64 implies (#[trigger] v2.ops[v0.len() + 3 * t]) == Some(
                OpCode::BitDecomp,
            ) && v2.ops[v0.len() + 3 * t + 1] is None && v2.ops[v0.len() + 3 * t + 2] is None by {
                if t < 32 {
                    assert(vmid.ops[v0.len() + 3 * t] == Some(OpCode::BitDecomp));
                } else {
                    assert(v0.len() + 3 * t == vmid.len() + 3 * (t - 32));
                    assert(v2.ops[vmid.len() + 3 * (t - 32)] == Some(OpCode::BitDecomp));
                }
            }
            assert forall|t: int|
                0 <= t < 62 implies {
                    let cp = #[trigger] v2.copies[v0.copies.len() + t];
                    let base = v0.len() + (if t < 31 {
                        0int
                    } else {
                        96int
                    });
                    let u = if t < 31 {
                        t
                    } else {
                        t - 31
                    };
                    &&& cp.0.col == Col::B
                    &&& cp.0.row == base + 3 * u + 2
                    &&& cp.1.col == Col::A
                    &&& cp.1.row == base + 3 * u + 5
                } by {
                if t < 31 {
                    assert(v2.copies[v0.copies.len() + t] == vmid.copies[v0.copies.len() + t]);
                } else {
                    assert(v0.copies.len() + t == vmid.copies.len() + (t - 31));
                }
            }
            assert forall|k: int| 0 <= k < 256 implies cell_ok(v2, #[trigger] res@[k]) && (
            res@[k].value@ == 0 || res@[k].value@ == 1) by {
                crate::radix::lemma_pow2n_pos_radix(k as nat);
                if k < 128 {
                    crate::region::lemma_cell_ok_extend(vmid, v2, res@[k]);
                }
            }
            let lowvals = crate::region::cells_vals(res@.take(128));
            let highvals = crate::region::cells_vals(res@.skip(128));
            assert forall|k: int| 0 <= k < 128 implies lowvals[k] == ((low as nat) / crate::radix::pow2n(
                k as nat,
            )) % 2 by {}
            assert forall|k: int| 0 <= k < 128 implies highvals[k] == ((high as nat)
                / crate::radix::pow2n(k as nat)) % 2 by {
                assert(res@.skip(128)[k] == res@[k + 128]);
            }
            assert(lowvals.len() == 128);
            assert(highvals.len() == 128);
            crate::radix::lemma_pow256_16();
            crate::radix::lemma_nat_bits_of_pointwise(lowvals, low as nat);
            crate::radix::lemma_nat_bits_of_pointwise(highvals, high as nat);
            crate::radix::lemma_nat_bits_concat(lowvals, highvals);
            assert(lowvals + highvals =~= crate::region::cells_vals(res@));
            assert(crate::radix::nat_bits_val(crate::region::cells_vals(res@)) == low + crate::radix::pow2n(
                128,
            ) * high);
            assert(crate::radix::pow2n(128) * high == high * crate::radix::pow2n(128))
                by (nonlinear_arith);
        }
        res
    }

    fn add_points(&self, region: &mut Region, p1: &ECPoint, p2: &ECPoint) -> (r: Result<
        AssignedECPoint,
        Error,
    >)
    {
        let ghost v0 = region@;
        let (c1, c2) = self.load_add_operands(region, p1, p2);
        let rp = match self.add_assigned_points(region, &c1, &c2) {
            Ok(rp) => rp,
            Err(e) => {
                proof {
                    assert(v0.rows.is_prefix_of(region@.rows)) by {
                        assert(region@.rows.subrange(0, v0.rows.len() as int) =~= v0.rows);
                    }
                }
                return Err(e);
            },
        };
        proof {
            assert(v0.rows.is_prefix_of(region@.rows)) by {
                assert(region@.rows.subrange(0, v0.rows.len() as int) =~= v0.rows);
            }
        }
        Ok(rp)
    }

    #[verifier::spinoff_prover]
    #[verifier::rlimit(100)]
    fn point_mul(&self, region: &mut Region, pt: &ECPoint, s: &crate::scalar::Scalar) -> (r:
        Result<AssignedECPoint, Error>)
    {
        let ghost v0 = region@;
        let (cells, p_assigned, acc0) = self.mul_setup(region, pt, s);
        let ghost vals = crate::region::cells_vals(cells@);
        let ghost full = protocol_bits(s@);
        let mut acc = acc0;
        let ghost vsetup = region@;
        proof {
            assert forall|k: int| 0 <= k < 256 implies vals[k] < 2 by {
                lemma_bit_cells_inv_index(region@, cells@, k);
            }
            crate::radix::lemma_bytes_val_bound(s.bytes@);
            crate::radix::lemma_pow256_32();
            lemma_vals_are_scalar_bits(vals, s@);
            assert(full =~= Seq::new(256, |j: int| vals[255 - j]));
            assert(mul_tags_inv(region@, v0.len() as int, 0)) by {
                reveal(mul_tags_inv);
            }
            assert(mul_links_inv(
                region@,
                v0.len() as int,
                v0.copies.len() as int + 64,
                0,
                cells@,
                p_assigned.x.cell,
                p_assigned.y.cell,
            )) by {
                reveal(mul_links_inv);
            }
        }
        for i in 0..256usize
            invariant
                v0 == old(region)@,
                self.config.wf(),
                pt.wf(),
                pt.on_curve_spec(),
                region@.wf(),
                v0.rows.is_prefix_of(region@.rows),
                v0.copies.is_prefix_of(region@.copies),
                region@.len() == v0.len() + 195 + 4 * i,
                region@.copies.len() == v0.copies.len() + 64 + 3 * i,
                region@.satisfied() <==> v0.satisfied(),
                cells@.len() == 256,
                vals == crate::region::cells_vals(cells@),
                full == protocol_bits(s@),
                full =~= Seq::new(256, |j: int| vals[255 - j]),
                forall|k: int| 0 <= k < 256 ==> vals[k] == scalar_bit(s@, k),
                bit_cells_inv(region@, cells@),
                forall|k: int|
                    0 <= k < 256 ==> (#[trigger] cells@[k]).cell.row < v0.len() + 192,
                mul_tags_inv(region@, v0.len() as int, i as int),
                mul_links_inv(
                    region@,
                    v0.len() as int,
                    v0.copies.len() as int + 64,
                    i as int,
                    cells@,
                    p_assigned.x.cell,
                    p_assigned.y.cell,
                ),
                p_assigned.ok_in(region@),
                p_assigned.witness_spec() == *pt,
                p_assigned.x.cell.col == Col::A,
                p_assigned.x.cell.row == v0.len() + 192,
                p_assigned.y.cell.col == Col::B,
                p_assigned.y.cell.row == v0.len() + 192,
                acc.ok_in(region@),
                acc.on_curve_spec(),
                acc.offset + 1 == region@.len(),
                region@.ops[acc.offset as int] is None,
                chain_ok(
                    full.take(i as int),
                    pt.x@,
                    pt.y@,
                    self.config.gen.x@,
                    self.config.gen.y@,
                ),
                (acc.x.value@, acc.y.value@) == chain_point(
                    full.take(i as int),
                    pt.x@,
                    pt.y@,
                    self.config.gen.x@,
                    self.config.gen.y@,
                ),
        {
            let ghost vpre = region@;
            let ghost prefix = full.take(i as int);
            let bit_cell = cells[255 - i];
            proof {
                lemma_bit_cells_inv_index(region@, cells@, 255 - i as int);
                assert(vals[255 - i as int] == cells@[255 - i as int].value@);
                assert(full[i as int] == vals[255 - i as int]);
            }
            let a2 = match self.mul_step(
                region,
                &p_assigned,
                &acc,
                &bit_cell,
                Ghost(prefix),
                Ghost((self.config.gen.x@, self.config.gen.y@)),
            ) {
                Ok(a2) => a2,
                Err(e) => {
                    proof {
                        assert(!chain_ok(
                            prefix.push(bit_cell.value@),
                            pt.x@,
                            pt.y@,
                            self.config.gen.x@,
                            self.config.gen.y@,
                        ));
                        assert(full =~= prefix.push(bit_cell.value@) + full.skip(i + 1));
                        lemma_chain_ok_prefix_fail(
                            prefix.push(bit_cell.value@),
                            full.skip(i + 1),
                            pt.x@,
                            pt.y@,
                            self.config.gen.x@,
                            self.config.gen.y@,
                        );
                        assert(v0.rows.is_prefix_of(region@.rows)) by {
                            assert(region@.rows.subrange(0, v0.rows.len() as int) =~= v0.rows);
                        }
                        assert(v0.copies.is_prefix_of(region@.copies)) by {
                            assert(region@.copies.subrange(0, v0.copies.len() as int)
                                =~= v0.copies);
                        }
                    }
                    return Err(e);
                },
            };
            proof {
                assert(full.take(i + 1) =~= prefix.push(vals[255 - i as int]));
                lemma_bit_cells_inv_extend(vpre, region@, cells@);
                crate::region::lemma_cell_ok_extend(vpre, region@, p_assigned.x);
                crate::region::lemma_cell_ok_extend(vpre, region@, p_assigned.y);
                lemma_mul_shape_step(
                    vpre,
                    region@,
                    v0.len() as int,
                    v0.copies.len() as int + 64,
                    i as int,
                    cells@,
                    p_assigned.x.cell,
                    p_assigned.y.cell,
                    bit_cell,
                );
                assert(v0.rows.is_prefix_of(region@.rows)) by {
                    assert(region@.rows.subrange(0, v0.rows.len() as int) =~= v0.rows);
                }
                assert(v0.copies.is_prefix_of(region@.copies)) by {
                    assert(region@.copies.subrange(0, v0.copies.len() as int) =~= v0.copies);
                }
            }
            acc = a2;
        }
        let ghost vloop = region@;
        proof {
            assert(full.take(256) =~= full);
        }
        let rp = match self.mul_finish(region, &acc) {
            Ok(rp) => rp,
            Err(e) => {
                proof {
                    assert(v0.rows.is_prefix_of(region@.rows)) by {
                        assert(region@.rows.subrange(0, v0.rows.len() as int) =~= v0.rows);
                    }
                    assert(v0.copies.is_prefix_of(region@.copies)) by {
                        assert(region@.copies.subrange(0, v0.copies.len() as int) =~= v0.copies);
                    }
                }
                return Err(e);
            },
        };
        proof {
            assert(v0.rows.is_prefix_of(region@.rows)) by {
                assert(region@.rows.subrange(0, v0.rows.len() as int) =~= v0.rows);
            }
            assert(v0.copies.is_prefix_of(region@.copies)) by {
                assert(region@.copies.subrange(0, v0.copies.len() as int) =~= v0.copies);
            }
            reveal(mul_tags_inv);
            reveal(mul_links_inv);
            assert(point_mul_tags(v0, region@));
            lemma_bit_cells_inv_extend(vloop, region@, cells@);
            assert forall|t: int|
                0 <= t < 256 implies {
                    let cpx = #[trigger] region@.copies[v0.copies.len() as int + 64 + 3 * t];
                    let cpy = region@.copies[v0.copies.len() as int + 64 + 3 * t + 1];
                    let cpb = region@.copies[v0.copies.len() as int + 64 + 3 * t + 2];
                    &&& cpx.0.col == Col::A
                    &&& cpx.0.row == v0.len() + 196 + 4 * t
                    &&& cpx.1.col == Col::A
                    &&& cpx.1.row == v0.len() + 192
                    &&& cpy.0.col == Col::B
                    &&& cpy.0.row == v0.len() + 196 + 4 * t
                    &&& cpy.1.col == Col::B
                    &&& cpy.1.row == v0.len() + 192
                    &&& cpb.0.col == Col::A
                    &&& cpb.0.row == v0.len() + 197 + 4 * t
                    &&& cpb.1.row < v0.len() + 192
                    &&& region@.value_at(cpb.1) == scalar_bit(s@, 255 - t)
                } by {
                lemma_bit_cells_inv_index(region@, cells@, 255 - t);
                assert(region@.copies[v0.copies.len() as int + 64 + 3 * t + 2].1 == cells@[255
                    - t].cell);
                assert(region@.value_at(cells@[255 - t].cell) == cells@[255 - t].value@);
                assert(cells@[255 - t].value@ == vals[255 - t]);
            }
            assert(point_mul_links(v0, region@, s@));
        }
        Ok(rp)
    }
}

} // verus!
