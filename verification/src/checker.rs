//! An executable check of the region's constraint system: it evaluates the
//! aggregated gate's sub-expression on every tagged row and every copy
//! constraint, and is proven to agree with `satisfied` exactly.
use vstd::prelude::*;

use crate::field::felt_add;
use crate::field::felt_eq;
use crate::field::felt_from_u64;
use crate::field::felt_mul;
use crate::field::felt_sub;
use crate::field::p;
use crate::field::Felt;
use crate::region::copy_ok;
use crate::region::op_rel;
use crate::region::op_ok_at;
use crate::region::window;
use crate::region::Cell;
use crate::region::Col;
use crate::region::OpCode;
use crate::region::Region;
use crate::region::RegionView;

verus! {

/// Reads one cell's value.
fn value_at(region: &Region, c: Cell) -> (r: Felt)
    requires
        region@.wf(),
        c.row < region@.len(),
    ensures
        r@ == region@.value_at(c),
        r.wf(),
{
    proof {
        reveal(RegionView::wf);
    }
    let rw = region.rows[c.row];
    let r = match c.col {
        Col::A => rw.0,
        Col::B => rw.1,
    };
    proof {
        assert(region@.rows[c.row as int] == (region.rows@[c.row as int].0@, region.rows@[
            c.row as int].1@));
        assert(region@.rows[c.row as int].0 < p() && region@.rows[c.row as int].1 < p());
    }
    r
}

/// Decides whether every constraint of `op` holds at row `i`.
#[verifier::spinoff_prover]
#[verifier::rlimit(100)]
fn op_holds(region: &Region, i: usize, op: OpCode) -> (r: bool)
    requires
        region@.wf(),
        i + window(op) <= region@.len(),
    ensures
        r == op_rel(region@, i as int, op),
{
    proof {
        reveal(RegionView::wf);
        reveal(crate::region::op_rel);
    }
    let _n = region.rows.len();
    let one = felt_from_u64(1);
    let two = felt_from_u64(2);
    let three = felt_from_u64(3);
    let four = felt_from_u64(4);
    let eight = felt_from_u64(8);
    let sixteen = felt_from_u64(16);
    let seventeen = felt_from_u64(17);
    let zero = felt_from_u64(0);
    let b = felt_sub(&zero, &seventeen);
    proof {
        vstd::arithmetic::div_mod::lemma_small_mod(17nat, p());
        vstd::arithmetic::div_mod::lemma_small_mod((p() - 17) as nat, p());
    }
    match op {
        OpCode::EcAdd => {
            let x1 = value_at(region, Cell { col: Col::A, row: i });
            let y1 = value_at(region, Cell { col: Col::B, row: i });
            let x2 = value_at(region, Cell { col: Col::A, row: i + 1 });
            let y2 = value_at(region, Cell { col: Col::B, row: i + 1 });
            let c = value_at(region, Cell { col: Col::A, row: i + 2 });
            let x3 = value_at(region, Cell { col: Col::A, row: i + 3 });
            let y3 = value_at(region, Cell { col: Col::B, row: i + 3 });
            let colin = felt_add(
                &felt_mul(&felt_sub(&x3, &x1), &felt_sub(&y2, &y1)),
                &felt_mul(&felt_sub(&x2, &x1), &felt_add(&y3, &y1)),
            );
            let curve = felt_add(
                &felt_sub(&felt_mul(&x3, &felt_mul(&x3, &x3)), &felt_mul(&y3, &y3)),
                &b,
            );
            let not_c = felt_sub(&one, &c);
            felt_eq(&felt_mul(&c, &colin), &zero) && felt_eq(
                &felt_mul(&not_c, &felt_sub(&x3, &x1)),
                &zero,
            ) && felt_eq(&felt_mul(&not_c, &felt_sub(&y3, &y1)), &zero) && felt_eq(&curve, &zero)
        },
        OpCode::EcDouble => {
            let x1 = value_at(region, Cell { col: Col::A, row: i });
            let y1 = value_at(region, Cell { col: Col::B, row: i });
            let x3 = value_at(region, Cell { col: Col::A, row: i + 1 });
            let y3 = value_at(region, Cell { col: Col::B, row: i + 1 });
            let tangent = felt_add(
                &felt_mul(&felt_mul(&two, &y1), &felt_add(&y3, &y1)),
                &felt_mul(&felt_mul(&three, &felt_mul(&x1, &x1)), &felt_sub(&x3, &x1)),
            );
            let curve = felt_add(
                &felt_sub(&felt_mul(&x3, &felt_mul(&x3, &x3)), &felt_mul(&y3, &y3)),
                &b,
            );
            felt_eq(&tangent, &zero) && felt_eq(&curve, &zero)
        },
        OpCode::OnCurve => {
            let x1 = value_at(region, Cell { col: Col::A, row: i });
            let y1 = value_at(region, Cell { col: Col::B, row: i });
            let curve = felt_add(
                &felt_sub(&felt_mul(&x1, &felt_mul(&x1, &x1)), &felt_mul(&y1, &y1)),
                &b,
            );
            felt_eq(&curve, &zero)
        },
        OpCode::BitDecomp => {
            let a0 = value_at(region, Cell { col: Col::A, row: i });
            let b0 = value_at(region, Cell { col: Col::B, row: i });
            let a1 = value_at(region, Cell { col: Col::A, row: i + 1 });
            let b1 = value_at(region, Cell { col: Col::B, row: i + 1 });
            let a2 = value_at(region, Cell { col: Col::A, row: i + 2 });
            let b2 = value_at(region, Cell { col: Col::B, row: i + 2 });
            let recomp = felt_sub(
                &felt_add(
                    &felt_add(
                        &felt_add(&felt_add(&a0, &felt_mul(&two, &b0)), &felt_mul(&four, &a1)),
                        &felt_mul(&eight, &b1),
                    ),
                    &felt_mul(&sixteen, &a2),
                ),
                &b2,
            );
            felt_eq(&recomp, &zero) && felt_eq(&felt_mul(&a0, &felt_sub(&one, &a0)), &zero)
                && felt_eq(&felt_mul(&b0, &felt_sub(&one, &b0)), &zero) && felt_eq(
                &felt_mul(&a1, &felt_sub(&one, &a1)),
                &zero,
            ) && felt_eq(&felt_mul(&b1, &felt_sub(&one, &b1)), &zero)
        },
        OpCode::FieldAdd => {
            let a0 = value_at(region, Cell { col: Col::A, row: i });
            let b0 = value_at(region, Cell { col: Col::B, row: i });
            let a1 = value_at(region, Cell { col: Col::A, row: i + 1 });
            felt_eq(&felt_sub(&felt_add(&a0, &b0), &a1), &zero)
        },
        OpCode::FieldMul => {
            let a0 = value_at(region, Cell { col: Col::A, row: i });
            let b0 = value_at(region, Cell { col: Col::B, row: i });
            let a1 = value_at(region, Cell { col: Col::A, row: i + 1 });
            felt_eq(&felt_sub(&felt_mul(&a0, &b0), &a1), &zero)
        },
    }
}

/// Checks every enabled opcode and every copy constraint of the region:
/// returns exactly whether the table satisfies its own constraint system.
pub fn is_satisfied(region: &Region) -> (r: bool)
    requires
        region@.wf(),
    ensures
        r == region@.satisfied(),
{
    proof {
        reveal(RegionView::wf);
        reveal(RegionView::satisfied);
    }
    let zero = felt_from_u64(0);
    let mut i: usize = 0;
    while i < region.ops.len()
        invariant
            region@.wf(),
            zero@ == 0,
            i <= region@.ops.len(),
            forall|j: int| 0 <= j < i ==> #[trigger] op_ok_at(region@, j),
        decreases region@.ops.len() - i,
    {
        proof {
            reveal(RegionView::wf);
        }
        match region.ops[i] {
            None => {},
            Some(op) => {
                if !op_holds(region, i, op) {
                    proof {
                        reveal(RegionView::satisfied);
                        assert(!op_ok_at(region@, i as int));
                    }
                    return false;
                }
            },
        }
        i += 1;
    }
    let mut j: usize = 0;
    while j < region.copies.len()
        invariant
            region@.wf(),
            j <= region@.copies.len(),
            forall|t: int| 0 <= t < region@.ops.len() ==> #[trigger] op_ok_at(region@, t),
            forall|t: int|
                0 <= t < j ==> #[trigger] copy_ok(region@, region@.copies[t]),
        decreases region@.copies.len() - j,
    {
        proof {
            reveal(RegionView::wf);
        }
        let (c1, c2) = region.copies[j];
        let v1 = value_at(region, c1);
        let v2 = value_at(region, c2);
        if !felt_eq(&v1, &v2) {
            proof {
                reveal(RegionView::satisfied);
                assert(!copy_ok(region@, region@.copies[j as int]));
            }
            return false;
        }
        j += 1;
    }
    proof {
        reveal(RegionView::satisfied);
    }
    true
}

} // verus!
