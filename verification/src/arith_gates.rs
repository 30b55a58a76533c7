//! Field loads, addition, multiplication and bit decomposition, laid out on
//! the region and proved to keep it satisfiable exactly when their inputs
//! are consistent.
use vstd::prelude::*;

use crate::chip::ECChip;
use crate::field::fadd;
use crate::field::felt_add;
use crate::field::felt_from_u128;
use crate::field::felt_from_u64;
use crate::field::felt_mul;
use crate::field::fmul;
use crate::field::lemma_fsub_self;
use crate::field::p;
use crate::field::Felt;
use crate::radix::all_bits;
use crate::radix::bits_val;
use crate::radix::lemma_bits_val_bound;
use crate::radix::lemma_bits_val_skip4;
use crate::radix::lemma_pow256_16;
use crate::radix::pow2n;
use crate::region::bit_decomp_rel;
use crate::region::cell_ok;
use crate::region::extends;
use crate::region::lemma_bit_decomp_rel_holds;
use crate::region::op_rel;
use crate::region::AssignedCell;
use crate::region::Cell;
use crate::region::Col;
use crate::region::OpCode;
use crate::region::Region;
use crate::util::lemma_pow2n_le;

verus! {

/// The field-arithmetic operations of the chip.
pub trait ArithOps {
    /// Writes `f` to column A at the cursor row, zero-pads column B, and
    /// advances the cursor.  The load is unconstrained: it commits a value
    /// for later equality checks and never affects satisfiability.
    fn load_private_field(&self, region: &mut Region, f: &Felt) -> (r: AssignedCell)
        requires
            old(region)@.wf(),
            f.wf(),
        ensures
            final(region)@.wf(),
            final(region)@.rows == old(region)@.rows.push((f@, 0nat)),
            final(region)@.ops == old(region)@.ops.push(None::<OpCode>),
            final(region)@.copies == old(region)@.copies,
            final(region)@.satisfied() <==> old(region)@.satisfied(),
            r.value == *f,
            r.cell == (Cell { col: Col::A, row: old(region).rows.len() }),
            cell_ok(final(region)@, r),
    ;

    /// Writes `f1` and `f2` to one row and advances the cursor; as with
    /// `load_private_field` the row is unconstrained.
    fn load_two_private_fields(&self, region: &mut Region, f1: &Felt, f2: &Felt) -> (r: (
        AssignedCell,
        AssignedCell,
    ))
        requires
            old(region)@.wf(),
            f1.wf(),
            f2.wf(),
        ensures
            final(region)@.wf(),
            final(region)@.rows == old(region)@.rows.push((f1@, f2@)),
            final(region)@.ops == old(region)@.ops.push(None::<OpCode>),
            final(region)@.copies == old(region)@.copies,
            final(region)@.satisfied() <==> old(region)@.satisfied(),
            r.0.value == *f1,
            r.0.cell == (Cell { col: Col::A, row: old(region).rows.len() }),
            r.1.value == *f2,
            r.1.cell == (Cell { col: Col::B, row: old(region).rows.len() }),
            cell_ok(final(region)@, r.0),
            cell_ok(final(region)@, r.1),
    ;

    /// Writes the operands at the cursor row, enables the addition opcode
    /// there, writes their sum on the next row and returns its cell.  The
    /// written window satisfies its relation, so satisfiability is unchanged.
    fn add(&self, region: &mut Region, a: &Felt, b: &Felt) -> (r: AssignedCell)
        requires
            old(region)@.wf(),
            a.wf(),
            b.wf(),
        ensures
            final(region)@.wf(),
            final(region)@.rows == old(region)@.rows.push((a@, b@)).push((fadd(a@, b@), 0nat)),
            final(region)@.ops == old(region)@.ops.push(Some(OpCode::FieldAdd)).push(
                None::<OpCode>,
            ),
            final(region)@.copies == old(region)@.copies,
            final(region)@.satisfied() <==> old(region)@.satisfied(),
            r.value@ == fadd(a@, b@),
            r.cell == (Cell { col: Col::A, row: (old(region).rows.len() + 1) as usize }),
            cell_ok(final(region)@, r),
    ;

    /// As `add`, with the multiplication opcode and the product.
    fn mul(&self, region: &mut Region, a: &Felt, b: &Felt) -> (r: AssignedCell)
        requires
            old(region)@.wf(),
            a.wf(),
            b.wf(),
        ensures
            final(region)@.wf(),
            final(region)@.rows == old(region)@.rows.push((a@, b@)).push((fmul(a@, b@), 0nat)),
            final(region)@.ops == old(region)@.ops.push(Some(OpCode::FieldMul)).push(
                None::<OpCode>,
            ),
            final(region)@.copies == old(region)@.copies,
            final(region)@.satisfied() <==> old(region)@.satisfied(),
            r.value@ == fmul(a@, b@),
            r.cell == (Cell { col: Col::A, row: (old(region).rows.len() + 1) as usize }),
            cell_ok(final(region)@, r),
    ;

    /// Writes the six inputs over three rows and enables the decomposition
    /// opcode on the first row, whose relation demands booleanity of the first
    /// four and the chained recomposition of the sixth.  The region stays
    /// satisfiable exactly when the inputs meet that relation.
    fn partial_bit_decomp(&self, region: &mut Region, inputs: &Vec<Felt>) -> (r: Vec<AssignedCell>)
        requires
            old(region)@.wf(),
            inputs@.len() == 6,
            forall|k: int| 0 <= k < 6 ==> (#[trigger] inputs@[k]).wf(),
        ensures
            final(region)@.wf(),
            final(region)@.rows == old(region)@.rows.push((inputs@[0]@, inputs@[1]@)).push(
                (inputs@[2]@, inputs@[3]@),
            ).push((inputs@[4]@, inputs@[5]@)),
            final(region)@.ops == old(region)@.ops.push(Some(OpCode::BitDecomp)).push(
                None::<OpCode>,
            ).push(None::<OpCode>),
            final(region)@.copies == old(region)@.copies,
            final(region)@.satisfied() <==> (old(region)@.satisfied() && bit_decomp_rel(
                inputs@[0]@,
                inputs@[1]@,
                inputs@[2]@,
                inputs@[3]@,
                inputs@[4]@,
                inputs@[5]@,
            )),
            r@.len() == 6,
            forall|k: int|
                0 <= k < 6 ==> (#[trigger] r@[k]).value == inputs@[k] && r@[k].cell.row
                    == old(region)@.len() + k / 2 && r@[k].cell.col == (if k % 2 == 0 {
                    Col::A
                } else {
                    Col::B
                }) && cell_ok(final(region)@, r@[k]),
    ;

    /// Lays a 128-bit value out as 128 boolean cells, little endian, through
    /// 32 chained decomposition windows, the consecutive accumulators linked
    /// by copy constraints; returns the bit cells and the final accumulator
    /// cell, which carries the field embedding of the input.  Every window
    /// and copy holds by construction, so satisfiability is unchanged.
    fn decompose_u128(&self, region: &mut Region, input: u128) -> (r: (
        Vec<AssignedCell>,
        AssignedCell,
    ))
        requires
            old(region)@.wf(),
        ensures
            final(region)@.wf(),
            extends(final(region)@, old(region)@),
            final(region)@.len() == old(region)@.len() + 96,
            final(region)@.copies.len() == old(region)@.copies.len() + 31,
            final(region)@.satisfied() <==> old(region)@.satisfied(),
            forall|t: int|
                0 <= t < 32 ==> (#[trigger] final(region)@.ops[old(region)@.len() + 3 * t])
                    == Some(OpCode::BitDecomp) && final(region)@.ops[old(region)@.len() + 3 * t
                    + 1] is None && final(region)@.ops[old(region)@.len() + 3 * t + 2] is None,
            forall|t: int|
                0 <= t < 31 ==> {
                    let cp = #[trigger] final(region)@.copies[old(region)@.copies.len() + t];
                    &&& cp.0.col == Col::B
                    &&& cp.0.row == old(region)@.len() + 3 * t + 2
                    &&& cp.1.col == Col::A
                    &&& cp.1.row == old(region)@.len() + 3 * t + 5
                },
            r.0@.len() == 128,
            forall|k: int|
                0 <= k < 128 ==> cell_ok(final(region)@, #[trigger] r.0@[k]) && r.0@[k].value@ == ((
                input as nat) / pow2n(k as nat)) % 2,
            cell_ok(final(region)@, r.1),
            r.1.value@ == input as nat,
    ;
}

impl ArithOps for ECChip {
    fn load_private_field(&self, region: &mut Region, f: &Felt) -> (r: AssignedCell) {
        let ghost v1 = region@;
        let row = region.rows.len();
        let zero = felt_from_u64(0);
        region.rows.push((*f, zero));
        region.ops.push(None);
        proof {
            reveal(crate::region::RegionView::wf);
            let v2 = region@;
            assert(v2.rows =~= v1.rows.push((f@, 0nat)));
            assert(v2.ops =~= v1.ops.push(None::<OpCode>));
            assert(v1.rows.is_prefix_of(v2.rows));
            assert(v1.ops.is_prefix_of(v2.ops));
            assert(v1.copies.is_prefix_of(v2.copies));
            crate::region::lemma_no_op_appended(v1, v2);
        }
        AssignedCell { value: *f, cell: Cell { col: Col::A, row } }
    }

    fn load_two_private_fields(&self, region: &mut Region, f1: &Felt, f2: &Felt) -> (r: (
        AssignedCell,
        AssignedCell,
    )) {
        let ghost v1 = region@;
        let row = region.rows.len();
        region.rows.push((*f1, *f2));
        region.ops.push(None);
        proof {
            reveal(crate::region::RegionView::wf);
            let v2 = region@;
            assert(v2.rows =~= v1.rows.push((f1@, f2@)));
            assert(v2.ops =~= v1.ops.push(None::<OpCode>));
            assert(v1.rows.is_prefix_of(v2.rows));
            assert(v1.ops.is_prefix_of(v2.ops));
            assert(v1.copies.is_prefix_of(v2.copies));
            crate::region::lemma_no_op_appended(v1, v2);
        }
        (
            AssignedCell { value: *f1, cell: Cell { col: Col::A, row } },
            AssignedCell { value: *f2, cell: Cell { col: Col::B, row } },
        )
    }

    #[verifier::spinoff_prover]
    #[verifier::rlimit(100)]
    fn add(&self, region: &mut Region, a: &Felt, b: &Felt) -> (r: AssignedCell) {
        let ghost v1 = region@;
        let row = region.rows.len();
        let sum = felt_add(a, b);
        let zero = felt_from_u64(0);
        region.rows.push((*a, *b));
        region.ops.push(Some(OpCode::FieldAdd));
        region.rows.push((sum, zero));
        region.ops.push(None);
        proof {
            reveal(crate::region::RegionView::wf);
            let v2 = region@;
            assert(v2.rows =~= v1.rows.push((a@, b@)).push((fadd(a@, b@), 0nat)));
            assert(v2.ops =~= v1.ops.push(Some(OpCode::FieldAdd)).push(None::<OpCode>));
            assert(v1.rows.is_prefix_of(v2.rows));
            assert(v1.ops.is_prefix_of(v2.ops));
            assert(v1.copies.is_prefix_of(v2.copies));
            crate::region::lemma_one_op_appended(v1, v2, OpCode::FieldAdd);
            assert(op_rel(v2, v1.ops.len() as int, OpCode::FieldAdd)) by {
                reveal(crate::region::op_rel);
                assert(v2.a(v1.ops.len() as int) == a@);
                assert(v2.b(v1.ops.len() as int) == b@);
                assert(v2.a(v1.ops.len() as int + 1) == fadd(a@, b@));
                lemma_fsub_self(fadd(a@, b@));
            }
        }
        let last = region.rows.len() - 1;
        AssignedCell { value: sum, cell: Cell { col: Col::A, row: last } }
    }

    #[verifier::spinoff_prover]
    #[verifier::rlimit(100)]
    fn mul(&self, region: &mut Region, a: &Felt, b: &Felt) -> (r: AssignedCell) {
        let ghost v1 = region@;
        let row = region.rows.len();
        let prod = felt_mul(a, b);
        let zero = felt_from_u64(0);
        region.rows.push((*a, *b));
        region.ops.push(Some(OpCode::FieldMul));
        region.rows.push((prod, zero));
        region.ops.push(None);
        proof {
            reveal(crate::region::RegionView::wf);
            let v2 = region@;
            assert(v2.rows =~= v1.rows.push((a@, b@)).push((fmul(a@, b@), 0nat)));
            assert(v2.ops =~= v1.ops.push(Some(OpCode::FieldMul)).push(None::<OpCode>));
            assert(v1.rows.is_prefix_of(v2.rows));
            assert(v1.ops.is_prefix_of(v2.ops));
            assert(v1.copies.is_prefix_of(v2.copies));
            crate::region::lemma_one_op_appended(v1, v2, OpCode::FieldMul);
            assert(op_rel(v2, v1.ops.len() as int, OpCode::FieldMul)) by {
                reveal(crate::region::op_rel);
                assert(v2.a(v1.ops.len() as int) == a@);
                assert(v2.b(v1.ops.len() as int) == b@);
                assert(v2.a(v1.ops.len() as int + 1) == fmul(a@, b@));
                lemma_fsub_self(fmul(a@, b@));
            }
        }
        let last = region.rows.len() - 1;
        AssignedCell { value: prod, cell: Cell { col: Col::A, row: last } }
    }

    #[verifier::spinoff_prover]
    #[verifier::rlimit(100)]
    fn partial_bit_decomp(&self, region: &mut Region, inputs: &Vec<Felt>) -> (r: Vec<
        AssignedCell,
    >) {
        let ghost v1 = region@;
        let row = region.rows.len();
        region.rows.push((inputs[0], inputs[1]));
        region.ops.push(Some(OpCode::BitDecomp));
        proof {
            reveal(crate::region::RegionView::wf);
            assert(region@.rows =~= v1.rows.push((inputs@[0]@, inputs@[1]@)));
            assert(region@.ops =~= v1.ops.push(Some(OpCode::BitDecomp)));
        }
        let ghost s1 = region@;
        region.rows.push((inputs[2], inputs[3]));
        region.ops.push(None);
        proof {
            reveal(crate::region::RegionView::wf);
            assert(region@.rows =~= s1.rows.push((inputs@[2]@, inputs@[3]@)));
            assert(region@.ops =~= s1.ops.push(None::<OpCode>));
        }
        let ghost s2 = region@;
        region.rows.push((inputs[4], inputs[5]));
        region.ops.push(None);
        let endlen = region.rows.len();
        proof {
            reveal(crate::region::RegionView::wf);
            let v2 = region@;
            assert(v2.rows =~= s2.rows.push((inputs@[4]@, inputs@[5]@)));
            assert(v2.ops =~= s2.ops.push(None::<OpCode>));
            assert(v2.rows == v1.rows.push((inputs@[0]@, inputs@[1]@)).push(
                (inputs@[2]@, inputs@[3]@),
            ).push((inputs@[4]@, inputs@[5]@)));
            assert(v2.ops == v1.ops.push(Some(OpCode::BitDecomp)).push(None::<OpCode>).push(
                None::<OpCode>,
            ));
            assert(v1.rows.is_prefix_of(v2.rows)) by {
                assert(v2.rows.subrange(0, v1.rows.len() as int) =~= v1.rows);
            }
            assert(v1.ops.is_prefix_of(v2.ops)) by {
                assert(v2.ops.subrange(0, v1.ops.len() as int) =~= v1.ops);
            }
            assert(v1.copies.is_prefix_of(v2.copies)) by {
                assert(v2.copies.subrange(0, v1.copies.len() as int) =~= v1.copies);
            }
            crate::region::lemma_one_op_appended(v1, v2, OpCode::BitDecomp);
            assert(op_rel(v2, v1.ops.len() as int, OpCode::BitDecomp) == bit_decomp_rel(
                inputs@[0]@,
                inputs@[1]@,
                inputs@[2]@,
                inputs@[3]@,
                inputs@[4]@,
                inputs@[5]@,
            )) by {
                reveal(crate::region::op_rel);
                let i = v1.ops.len() as int;
                assert(v2.a(i) == inputs@[0]@);
                assert(v2.b(i) == inputs@[1]@);
                assert(v2.a(i + 1) == inputs@[2]@);
                assert(v2.b(i + 1) == inputs@[3]@);
                assert(v2.a(i + 2) == inputs@[4]@);
                assert(v2.b(i + 2) == inputs@[5]@);
            }
        }
        let row1 = endlen - 2;
        let row2 = endlen - 1;
        let mut res: Vec<AssignedCell> = Vec::new();
        res.push(AssignedCell { value: inputs[0], cell: Cell { col: Col::A, row } });
        res.push(AssignedCell { value: inputs[1], cell: Cell { col: Col::B, row } });
        res.push(AssignedCell { value: inputs[2], cell: Cell { col: Col::A, row: row1 } });
        res.push(AssignedCell { value: inputs[3], cell: Cell { col: Col::B, row: row1 } });
        res.push(AssignedCell { value: inputs[4], cell: Cell { col: Col::A, row: row2 } });
        res.push(AssignedCell { value: inputs[5], cell: Cell { col: Col::B, row: row2 } });
        res
    }

    #[verifier::rlimit(100)]
    fn decompose_u128(&self, region: &mut Region, input: u128) -> (r: (
        Vec<AssignedCell>,
        AssignedCell,
    )) {
        let bits = crate::util::decompose_u128(input);
        let ghost v0 = region@;
        let mut cells_desc: Vec<AssignedCell> = Vec::new();
        let mut prev_acc: u128 = 0;
        let mut prev_cell = AssignedCell {
            value: felt_from_u64(0),
            cell: Cell { col: Col::A, row: 0 },
        };
        proof {
            reveal(crate::region::RegionView::wf);
            assert(bits@.skip(128) =~= Seq::<u64>::empty());
        }
        for i in 0..32usize
            invariant
                bits@.len() == 128,
                all_bits(bits@),
                bits_val(bits@) == input as nat,
                region@.wf(),
                extends(region@, v0),
                region@.len() == v0.len() + 3 * i,
                region@.copies.len() == v0.copies.len() + (if i == 0 {
                    0int
                } else {
                    i - 1
                }),
                region@.satisfied() <==> v0.satisfied(),
                forall|t: int|
                    0 <= t < i ==> (#[trigger] region@.ops[v0.len() + 3 * t]) == Some(
                        OpCode::BitDecomp,
                    ) && region@.ops[v0.len() + 3 * t + 1] is None && region@.ops[v0.len() + 3 * t
                        + 2] is None,
                forall|t: int|
                    0 <= t < i - 1 ==> {
                        let cp = #[trigger] region@.copies[v0.copies.len() + t];
                        &&& cp.0.col == Col::B
                        &&& cp.0.row == v0.len() + 3 * t + 2
                        &&& cp.1.col == Col::A
                        &&& cp.1.row == v0.len() + 3 * t + 5
                    },
                prev_acc as nat == bits_val(bits@.skip(128 - 4 * i)),
                cells_desc@.len() == 4 * i,
                forall|t: int|
                    0 <= t < 4 * i ==> cell_ok(region@, #[trigger] cells_desc@[t])
                        && cells_desc@[t].value@ == bits@[127 - t],
                i > 0 ==> cell_ok(region@, prev_cell) && prev_cell.value@ == prev_acc as nat
                    && prev_cell.cell == (Cell {
                    col: Col::B,
                    row: (v0.len() + 3 * i - 1) as usize,
                }),
        {
            let t0 = bits[124 - 4 * i];
            let t1 = bits[125 - 4 * i];
            let t2 = bits[126 - 4 * i];
            let t3 = bits[127 - 4 * i];
            proof {
                reveal(crate::region::RegionView::wf);
                lemma_bits_val_skip4(bits@, 124 - 4 * i);
                lemma_bits_val_bound(bits@.skip(128 - 4 * i));
                lemma_pow2n_le((128 - 4 * i) as nat, 128);
                assert(bits@.skip(128 - 4 * i).len() == 4 * i);
                lemma_bits_val_bound(bits@.skip(124 - 4 * i));
                lemma_pow2n_le((4 * i + 4) as nat, 128);
                lemma_pow256_16();
            }
            let acc: u128 = t0 as u128 + 2 * (t1 as u128) + 4 * (t2 as u128) + 8 * (t3 as u128)
                + 16 * prev_acc;
            let fa0 = felt_from_u64(t0);
            let fb0 = felt_from_u64(t1);
            let fa1 = felt_from_u64(t2);
            let fb1 = felt_from_u64(t3);
            let facc_prev = felt_from_u128(prev_acc);
            let facc = felt_from_u128(acc);
            let r0 = region.rows.len();
            let ghost v1 = region@;
            region.rows.push((fa0, fb0));
            region.ops.push(Some(OpCode::BitDecomp));
            region.rows.push((fa1, fb1));
            region.ops.push(None);
            region.rows.push((facc_prev, facc));
            region.ops.push(None);
            let r3 = region.rows.len();
            proof {
                reveal(crate::region::RegionView::wf);
                assert(r3 == r0 + 3);
                let v2 = region@;
                assert(v2.rows =~= v1.rows.push((t0 as nat, t1 as nat)).push(
                    (t2 as nat, t3 as nat),
                ).push((prev_acc as nat, acc as nat)));
                assert(v2.ops =~= v1.ops.push(Some(OpCode::BitDecomp)).push(None::<OpCode>).push(
                    None::<OpCode>,
                ));
                assert(v1.rows.is_prefix_of(v2.rows));
                assert(v1.ops.is_prefix_of(v2.ops));
                assert(v1.copies.is_prefix_of(v2.copies));
                assert(v2.wf()) by {
                    assert forall|t: int|
                        0 <= t < v2.ops.len() implies (#[trigger] v2.ops[t] matches Some(o) ==> t
                        + crate::region::window(o) <= v2.rows.len()) by {
                        if t < v1.ops.len() {
                            assert(v2.ops[t] == v1.ops[t]);
                        }
                    }
                }
                crate::region::lemma_one_op_appended(v1, v2, OpCode::BitDecomp);
                assert(op_rel(v2, v1.ops.len() as int, OpCode::BitDecomp)) by {
                    reveal(crate::region::op_rel);
                    let k = v1.ops.len() as int;
                    assert(v2.a(k) == t0 as nat);
                    assert(v2.b(k) == t1 as nat);
                    assert(v2.a(k + 1) == t2 as nat);
                    assert(v2.b(k + 1) == t3 as nat);
                    assert(v2.a(k + 2) == prev_acc as nat);
                    assert(v2.b(k + 2) == acc as nat);
                    assert(acc as nat == (t0 + 2 * t1 + 4 * t2 + 8 * t3 + 16 * prev_acc) as nat);
                    vstd::arithmetic::div_mod::lemma_small_mod(acc as nat, p());
                    lemma_bit_decomp_rel_holds(
                        t0 as nat,
                        t1 as nat,
                        t2 as nat,
                        t3 as nat,
                        prev_acc as nat,
                        acc as nat,
                    );
                }
                assert(v2.satisfied() <==> v1.satisfied());
            }
            if i > 0 {
                let prev_row = r0 - 1;
                region.constrain_equal(
                    Cell { col: Col::B, row: prev_row },
                    Cell { col: Col::A, row: r0 + 2 },
                );
                proof {
                    reveal(crate::region::RegionView::wf);
                    assert(region@.value_at(Cell { col: Col::B, row: prev_row }) == prev_acc
                        as nat);
                    assert(region@.value_at(Cell { col: Col::A, row: (r0 + 2) as usize })
                        == prev_acc as nat);
                }
            }
            cells_desc.push(AssignedCell { value: fb1, cell: Cell { col: Col::B, row: r0 + 1 } });
            cells_desc.push(AssignedCell { value: fa1, cell: Cell { col: Col::A, row: r0 + 1 } });
            cells_desc.push(AssignedCell { value: fb0, cell: Cell { col: Col::B, row: r0 } });
            cells_desc.push(AssignedCell { value: fa0, cell: Cell { col: Col::A, row: r0 } });
            prev_cell = AssignedCell { value: facc, cell: Cell { col: Col::B, row: r0 + 2 } };
            prev_acc = acc;
            proof {
                reveal(crate::region::RegionView::wf);
                assert(bits@.skip(128 - 4 * (i + 1)) =~= bits@.skip(124 - 4 * i));
                assert forall|t: int|
                    0 <= t < 4 * (i + 1) implies cell_ok(region@, #[trigger] cells_desc@[t])
                    && cells_desc@[t].value@ == bits@[127 - t] by {
                    if t < 4 * i {
                        assert(cells_desc@[t] == cells_desc@.subrange(0, 4 * i as int)[t]);
                    }
                }
            }
        }
        proof {
            reveal(crate::region::RegionView::wf);
            assert(bits@.skip(0) =~= bits@);
        }
        let mut res: Vec<AssignedCell> = Vec::new();
        for j in 0..128usize
            invariant
                cells_desc@.len() == 128,
                res@.len() == j,
                bits@.len() == 128,
                forall|t: int|
                    0 <= t < 128 ==> cell_ok(region@, #[trigger] cells_desc@[t])
                        && cells_desc@[t].value@ == bits@[127 - t],
                forall|k: int| 0 <= k < j ==> #[trigger] res@[k] == cells_desc@[127 - k],
        {
            res.push(cells_desc[127 - j]);
        }
        proof {
            reveal(crate::region::RegionView::wf);
            assert forall|k: int|
                0 <= k < 128 implies cell_ok(region@, #[trigger] res@[k]) && res@[k].value@ == ((
            input as nat) / pow2n(k as nat)) % 2 by {
                assert(res@[k] == cells_desc@[127 - k]);
                assert(cells_desc@[127 - k].value@ == bits@[127 - (127 - k)]);
                assert(bits@[k] == ((input as nat) / pow2n(k as nat)) % 2);
            }
        }
        (res, prev_cell)
    }
}

} // verus!
