//! The laws of the gadget library, stated over region views and proved once
//! and for all: what an equality check accepts, when an addition or
//! multiplication window verifies, when a decomposition window verifies, and
//! that re-checking a point on the curve changes nothing.
use vstd::prelude::*;

use crate::field::fadd;
use crate::field::fmul;
use crate::field::lemma_fsub_self;
use crate::field::p;
use crate::region::copy_ok;
use crate::region::lemma_bit_decomp_rel_holds;
use crate::region::lemma_one_op_appended;
use crate::region::lemma_satisfied_extends;
use crate::region::op_rel;
use crate::region::op_ok_at;
use crate::region::window;
use crate::region::Cell;
use crate::region::Col;
use crate::region::OpCode;
use crate::region::RegionView;

verus! {

/// A copy constraint decides satisfiability exactly: adding one equality
/// between two written cells keeps the region satisfiable precisely when it
/// was satisfiable and the two cells agree.  Equality-constraining any
/// gadget output against a mismatched expected value therefore fails.
pub proof fn lemma_equality_check(v1: RegionView, v2: RegionView, c1: Cell, c2: Cell)
    requires
        v1.wf(),
        c1.row < v1.len(),
        c2.row < v1.len(),
        v2.rows == v1.rows,
        v2.ops == v1.ops,
        v2.copies == v1.copies.push((c1, c2)),
    ensures
        v2.wf(),
        v2.satisfied() <==> (v1.satisfied() && v1.value_at(c1) == v1.value_at(c2)),
{
    reveal(RegionView::wf);
    assert(v1.rows.is_prefix_of(v2.rows)) by {
        assert(v2.rows.subrange(0, v1.rows.len() as int) =~= v1.rows);
    }
    assert(v1.ops.is_prefix_of(v2.ops)) by {
        assert(v2.ops.subrange(0, v1.ops.len() as int) =~= v1.ops);
    }
    assert(v1.copies.is_prefix_of(v2.copies));
    lemma_satisfied_extends(v1, v2);
    reveal(RegionView::satisfied);
    assert(copy_ok(v2, (c1, c2)) <==> v1.value_at(c1) == v1.value_at(c2));
    if v1.satisfied() && v1.value_at(c1) == v1.value_at(c2) {
        assert forall|j: int|
            v1.copies.len() <= j < v2.copies.len() implies #[trigger] copy_ok(
            v2,
            v2.copies[j],
        ) by {
            assert(v2.copies[j] == (c1, c2));
        }
    }
    if v2.satisfied() {
        assert(copy_ok(v2, v2.copies[v1.copies.len() as int]));
        assert(v2.copies[v1.copies.len() as int] == (c1, c2));
    }
}

/// A field-addition window followed by a loaded expected value, the two
/// result cells equality-constrained: the region verifies exactly when it
/// verified before and the expected value is the field sum.
pub proof fn lemma_field_add_check(v1: RegionView, v2: RegionView, a: nat, b: nat, c: nat)
    requires
        v1.wf(),
        v1.len() + 3 <= usize::MAX,
        a < p(),
        b < p(),
        c < p(),
        v2.rows == v1.rows.push((a, b)).push((fadd(a, b), 0nat)).push((c, 0nat)),
        v2.ops == v1.ops.push(Some(OpCode::FieldAdd)).push(None::<OpCode>).push(None::<OpCode>),
        v2.copies == v1.copies.push(
            (
                Cell { col: Col::A, row: (v1.len() + 1) as usize },
                Cell { col: Col::A, row: (v1.len() + 2) as usize },
            ),
        ),
    ensures
        v2.satisfied() <==> (v1.satisfied() && c == fadd(a, b)),
{
    reveal(RegionView::wf);
    reveal(RegionView::satisfied);
    assert(v1.rows.is_prefix_of(v2.rows)) by {
        assert(v2.rows.subrange(0, v1.rows.len() as int) =~= v1.rows);
    }
    assert(v1.ops.is_prefix_of(v2.ops)) by {
        assert(v2.ops.subrange(0, v1.ops.len() as int) =~= v1.ops);
    }
    assert(v1.copies.is_prefix_of(v2.copies));
    assert(v2.wf());
    lemma_satisfied_extends(v1, v2);
    let at = v1.ops.len() as int;
    assert(op_rel(v2, at, OpCode::FieldAdd)) by {
        reveal(crate::region::op_rel);
        assert(v2.a(at) == a);
        assert(v2.b(at) == b);
        assert(v2.a(at + 1) == fadd(a, b));
        lemma_fsub_self(fadd(a, b));
    }
    let cp = (
        Cell { col: Col::A, row: (v1.len() + 1) as usize },
        Cell { col: Col::A, row: (v1.len() + 2) as usize },
    );
    assert(copy_ok(v2, cp) <==> c == fadd(a, b));
    if v1.satisfied() && c == fadd(a, b) {
        assert forall|i: int| v1.ops.len() <= i < v2.ops.len() implies #[trigger] op_ok_at(
            v2,
            i,
        ) by {
            if i != at {
                assert(v2.ops[i] is None);
            }
        }
        assert forall|j: int|
            v1.copies.len() <= j < v2.copies.len() implies #[trigger] copy_ok(
            v2,
            v2.copies[j],
        ) by {
            assert(v2.copies[j] == cp);
        }
    }
    if v2.satisfied() {
        assert(copy_ok(v2, v2.copies[v1.copies.len() as int]));
        assert(v2.copies[v1.copies.len() as int] == cp);
    }
}

/// The multiplication analogue of `lemma_field_add_check`.
pub proof fn lemma_field_mul_check(v1: RegionView, v2: RegionView, a: nat, b: nat, c: nat)
    requires
        v1.wf(),
        v1.len() + 3 <= usize::MAX,
        a < p(),
        b < p(),
        c < p(),
        v2.rows == v1.rows.push((a, b)).push((fmul(a, b), 0nat)).push((c, 0nat)),
        v2.ops == v1.ops.push(Some(OpCode::FieldMul)).push(None::<OpCode>).push(None::<OpCode>),
        v2.copies == v1.copies.push(
            (
                Cell { col: Col::A, row: (v1.len() + 1) as usize },
                Cell { col: Col::A, row: (v1.len() + 2) as usize },
            ),
        ),
    ensures
        v2.satisfied() <==> (v1.satisfied() && c == fmul(a, b)),
{
    reveal(RegionView::wf);
    reveal(RegionView::satisfied);
    assert(v1.rows.is_prefix_of(v2.rows)) by {
        assert(v2.rows.subrange(0, v1.rows.len() as int) =~= v1.rows);
    }
    assert(v1.ops.is_prefix_of(v2.ops)) by {
        assert(v2.ops.subrange(0, v1.ops.len() as int) =~= v1.ops);
    }
    assert(v1.copies.is_prefix_of(v2.copies));
    assert(v2.wf());
    lemma_satisfied_extends(v1, v2);
    let at = v1.ops.len() as int;
    assert(op_rel(v2, at, OpCode::FieldMul)) by {
        reveal(crate::region::op_rel);
        assert(v2.a(at) == a);
        assert(v2.b(at) == b);
        assert(v2.a(at + 1) == fmul(a, b));
        lemma_fsub_self(fmul(a, b));
    }
    let cp = (
        Cell { col: Col::A, row: (v1.len() + 1) as usize },
        Cell { col: Col::A, row: (v1.len() + 2) as usize },
    );
    assert(copy_ok(v2, cp) <==> c == fmul(a, b));
    if v1.satisfied() && c == fmul(a, b) {
        assert forall|i: int| v1.ops.len() <= i < v2.ops.len() implies #[trigger] op_ok_at(
            v2,
            i,
        ) by {
            if i != at {
                assert(v2.ops[i] is None);
            }
        }
        assert forall|j: int|
            v1.copies.len() <= j < v2.copies.len() implies #[trigger] copy_ok(
            v2,
            v2.copies[j],
        ) by {
            assert(v2.copies[j] == cp);
        }
    }
    if v2.satisfied() {
        assert(copy_ok(v2, v2.copies[v1.copies.len() as int]));
        assert(v2.copies[v1.copies.len() as int] == cp);
    }
}

/// Every six-tuple whose first four entries are bits and whose sixth entry
/// is the chained recomposition of the other five makes the decomposition
/// window verify: the region after `partial_bit_decomp` on such a tuple is
/// satisfiable exactly when it was before.
pub proof fn lemma_partial_decomp_accepts(
    v1: RegionView,
    v2: RegionView,
    x1: nat,
    y1: nat,
    x2: nat,
    y2: nat,
    x3: nat,
    y3: nat,
)
    requires
        v1.wf(),
        x1 == 0 || x1 == 1,
        y1 == 0 || y1 == 1,
        x2 == 0 || x2 == 1,
        y2 == 0 || y2 == 1,
        x3 < p(),
        y3 == (x1 + 2 * y1 + 4 * x2 + 8 * y2 + 16 * x3) % p(),
        v2.rows == v1.rows.push((x1, y1)).push((x2, y2)).push((x3, y3)),
        v2.ops == v1.ops.push(Some(OpCode::BitDecomp)).push(None::<OpCode>).push(None::<OpCode>),
        v2.copies == v1.copies,
    ensures
        v2.satisfied() <==> v1.satisfied(),
{
    reveal(RegionView::wf);
    assert(v1.rows.is_prefix_of(v2.rows)) by {
        assert(v2.rows.subrange(0, v1.rows.len() as int) =~= v1.rows);
    }
    assert(v1.ops.is_prefix_of(v2.ops)) by {
        assert(v2.ops.subrange(0, v1.ops.len() as int) =~= v1.ops);
    }
    assert(v1.copies.is_prefix_of(v2.copies));
    assert(v2.wf());
    lemma_one_op_appended(v1, v2, OpCode::BitDecomp);
    let at = v1.ops.len() as int;
    assert(op_rel(v2, at, OpCode::BitDecomp)) by {
        reveal(crate::region::op_rel);
        assert(v2.a(at) == x1);
        assert(v2.b(at) == y1);
        assert(v2.a(at + 1) == x2);
        assert(v2.b(at + 1) == y2);
        assert(v2.a(at + 2) == x3);
        assert(v2.b(at + 2) == y3);
        lemma_bit_decomp_rel_holds(x1, y1, x2, y2, x3, y3);
    }
}

/// Re-checking a point already constrained on the curve is idempotent:
/// re-enabling the on-curve opcode at an already tagged row leaves the
/// region, and so its satisfiability, unchanged.
pub proof fn lemma_on_curve_recheck(v1: RegionView, v2: RegionView, at: int)
    requires
        v1.wf(),
        0 <= at < v1.ops.len(),
        v1.ops[at] == Some(OpCode::OnCurve),
        v2.rows == v1.rows,
        v2.copies == v1.copies,
        v2.ops == v1.ops.update(at, Some(OpCode::OnCurve)),
    ensures
        v2 == v1,
        v2.satisfied() <==> v1.satisfied(),
{
    assert(v2.ops =~= v1.ops);
}

} // verus!
