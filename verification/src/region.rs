//! The witness table: a sequential two-column region, one opcode tag per row
//! standing for the selector combination that activates the aggregated custom
//! gate there, and explicit copy constraints.
//!
//! `satisfied` is the meaning of the whole table: on every tagged row the
//! gate's polynomial vanishes modulo the field, and every copy constraint
//! holds.  Gadgets append rows and prove exactly when they keep it.
use vstd::prelude::*;

use crate::field::fadd;
use crate::field::fmul;
use crate::field::fsub;
use crate::field::p;
use crate::field::Felt;

verus! {

/// The two advice columns of the region.
#[derive(Clone, Copy, Debug, PartialEq, Eq, Structural)]
pub enum Col {
    A,
    B,
}

/// One cell of the region: a column and a row.
#[derive(Clone, Copy, Debug, PartialEq, Eq, Structural)]
pub struct Cell {
    pub col: Col,
    pub row: usize,
}

/// The closed opcode table of the single aggregated gate.  Each variant
/// stands for one selector combination; at most one opcode is active on a
/// row, so the combinations are disjoint by construction.
#[derive(Clone, Copy, Debug, PartialEq, Eq, Structural)]
pub enum OpCode {
    /// Conditional point addition over a four-row window.
    EcAdd,
    /// Point doubling over a two-row window.
    EcDouble,
    /// On-curve check of a single row.
    OnCurve,
    /// Four-bit decomposition step over a three-row window.
    BitDecomp,
    /// Field addition over a two-row window.
    FieldAdd,
    /// Field multiplication over a two-row window.
    FieldMul,
}

/// How many rows an opcode's relation reads, starting at the tagged row.
pub open spec fn window(op: OpCode) -> nat {
    match op {
        OpCode::EcAdd => 4,
        OpCode::EcDouble => 2,
        OpCode::OnCurve => 1,
        OpCode::BitDecomp => 3,
        OpCode::FieldAdd => 2,
        OpCode::FieldMul => 2,
    }
}

/// A cell handle together with the value the prover wrote into it.
#[derive(Clone, Copy, Debug)]
pub struct AssignedCell {
    pub value: Felt,
    pub cell: Cell,
}

/// The mathematical content of a region.
pub ghost struct RegionView {
    /// Per row, the values of columns A and B.
    pub rows: Seq<(nat, nat)>,
    /// Per row, the opcode whose selector combination is enabled there.
    pub ops: Seq<Option<OpCode>>,
    /// The copy constraints, as pairs of cells forced equal.
    pub copies: Seq<(Cell, Cell)>,
}

/// The region under construction.  Its length is the row cursor: rows are
/// only ever appended, so every cell is written exactly once.
pub struct Region {
    pub rows: Vec<(Felt, Felt)>,
    pub ops: Vec<Option<OpCode>>,
    pub copies: Vec<(Cell, Cell)>,
}

impl View for Region {
    type V = RegionView;

    open spec fn view(&self) -> RegionView {
        RegionView {
            rows: self.rows@.map_values(|rw: (Felt, Felt)| (rw.0@, rw.1@)),
            ops: self.ops@,
            copies: self.copies@,
        }
    }
}

impl RegionView {
    /// Number of rows written so far; the value of the cursor.
    pub open spec fn len(self) -> nat {
        self.rows.len()
    }

    /// Column A of row `i`.
    pub open spec fn a(self, i: int) -> nat {
        self.rows[i].0
    }

    /// Column B of row `i`.
    pub open spec fn b(self, i: int) -> nat {
        self.rows[i].1
    }

    /// The value in a cell.
    pub open spec fn value_at(self, c: Cell) -> nat {
        match c.col {
            Col::A => self.a(c.row as int),
            Col::B => self.b(c.row as int),
        }
    }

    /// Well-formedness: one opcode tag per row, every tagged window fits,
    /// every copy constraint points at written rows, and every cell holds a
    /// canonical field value.
    #[verifier::opaque]
    pub open spec fn wf(self) -> bool {
        &&& self.ops.len() == self.rows.len()
        &&& forall|i: int|
            0 <= i < self.ops.len() ==> (#[trigger] self.ops[i] matches Some(op) ==> i + window(op)
                <= self.rows.len())
        &&& forall|j: int|
            0 <= j < self.copies.len() ==> #[trigger] self.copies[j].0.row < self.rows.len()
                && self.copies[j].1.row < self.rows.len()
        &&& forall|i: int|
            0 <= i < self.rows.len() ==> #[trigger] self.rows[i].0 < p() && self.rows[i].1 < p()
    }

    /// The enabled opcode's polynomial vanishes on row `i` where one is enabled
    /// there, and all copy constraints hold.
    #[verifier::opaque]
    pub open spec fn satisfied(self) -> bool {
        &&& forall|i: int| 0 <= i < self.ops.len() ==> #[trigger] op_ok_at(self, i)
        &&& forall|j: int|
            0 <= j < self.copies.len() ==> #[trigger] copy_ok(self, self.copies[j])
    }
}

/// The handle agrees with the region: its cell is written and holds its
/// value, a canonical field element.
pub open spec fn cell_ok(v: RegionView, c: AssignedCell) -> bool {
    &&& c.cell.row < v.len()
    &&& v.value_at(c.cell) == c.value@
    &&& c.value.wf()
}

/// The values carried by a sequence of cell handles.
pub open spec fn cells_vals(s: Seq<AssignedCell>) -> Seq<nat> {
    s.map_values(|c: AssignedCell| c.value@)
}

/// A copy constraint holds when the two cells hold equal values.
pub open spec fn copy_ok(v: RegionView, c: (Cell, Cell)) -> bool {
    v.value_at(c.0) == v.value_at(c.1)
}

/// Every polynomial of the tagged opcode vanishes at row `i`.
pub open spec fn op_ok_at(v: RegionView, i: int) -> bool {
    match v.ops[i] {
        None => true,
        Some(op) => op_rel(v, i, op),
    }
}

/// The curve parameter `b` of the embedded curve: -17 as a field element.
pub open spec fn curve_b() -> nat {
    (p() - 17) as nat
}

/// The on-curve term: x^3 - y^2 + b.  A point (x, y) is on the curve
/// exactly when this vanishes.
pub open spec fn curve_term(x: nat, y: nat) -> nat {
    fadd(fsub(fmul(x, fmul(x, x)), fmul(y, y)), curve_b())
}

/// (x, y) satisfies the curve equation y^2 = x^3 + b.
pub open spec fn on_curve(x: nat, y: nat) -> bool {
    curve_term(x, y) == 0
}

/// The booleanity term v * (1 - v), zero exactly on 0 and 1.
pub open spec fn bool_term(v: nat) -> nat {
    fmul(v, fsub(1, v))
}

/// The colinearity term of the chord through (x1, y1), (x2, y2) and
/// (x3, -y3): (x3 - x1)(y2 - y1) + (x2 - x1)(y3 + y1).
pub open spec fn colinear_term(x1: nat, y1: nat, x2: nat, y2: nat, x3: nat, y3: nat) -> nat {
    fadd(fmul(fsub(x3, x1), fsub(y2, y1)), fmul(fsub(x2, x1), fadd(y3, y1)))
}

/// The tangent term of doubling (x1, y1) to (x3, -y3):
/// 2 y1 (y3 + y1) + 3 x1^2 (x3 - x1).
pub open spec fn tangent_term(x1: nat, y1: nat, x3: nat, y3: nat) -> nat {
    fadd(fmul(fmul(2, y1), fadd(y3, y1)), fmul(fmul(3, fmul(x1, x1)), fsub(x3, x1)))
}

/// The recomposition term of one decomposition window over rows holding
/// (a0, b0), (a1, b1), (a2, b2): a0 + 2 b0 + 4 a1 + 8 b1 + 16 a2 - b2.
pub open spec fn recomp_term(a0: nat, b0: nat, a1: nat, b1: nat, a2: nat, b2: nat) -> nat {
    fsub(
        fadd(fadd(fadd(fadd(a0, fmul(2, b0)), fmul(4, a1)), fmul(8, b1)), fmul(16, a2)),
        b2,
    )
}

/// The decomposition window's full relation on six values: the first four
/// are boolean and the sixth recomposes the others.  Each term is its own
/// constraint, so none can cancel another.
pub open spec fn bit_decomp_rel(a0: nat, b0: nat, a1: nat, b1: nat, a2: nat, b2: nat) -> bool {
    &&& recomp_term(a0, b0, a1, b1, a2, b2) == 0
    &&& bool_term(a0) == 0
    &&& bool_term(b0) == 0
    &&& bool_term(a1) == 0
    &&& bool_term(b1) == 0
}

/// The field-addition sub-expression over rows i..i+1: a0 + b0 - a1.
pub open spec fn field_add_expr(a0: nat, b0: nat, a1: nat) -> nat {
    fsub(fadd(a0, b0), a1)
}

/// The field-multiplication sub-expression over rows i..i+1: a0 b0 - a1.
pub open spec fn field_mul_expr(a0: nat, b0: nat, a1: nat) -> nat {
    fsub(fmul(a0, b0), a1)
}

/// The constraints that `op` puts on its window at row `i`: one vanishing
/// polynomial per conjunct of the opcode's relation, so that no conjunct
/// can cancel another over the field.
#[verifier::opaque]
pub open spec fn op_rel(v: RegionView, i: int, op: OpCode) -> bool {
    match op {
        OpCode::EcAdd => {
            let x1 = v.a(i);
            let y1 = v.b(i);
            let x2 = v.a(i + 1);
            let y2 = v.b(i + 1);
            let c = v.a(i + 2);
            let x3 = v.a(i + 3);
            let y3 = v.b(i + 3);
            &&& fmul(c, colinear_term(x1, y1, x2, y2, x3, y3)) == 0
            &&& fmul(fsub(1, c), fsub(x3, x1)) == 0
            &&& fmul(fsub(1, c), fsub(y3, y1)) == 0
            &&& curve_term(x3, y3) == 0
        },
        OpCode::EcDouble => {
            &&& tangent_term(v.a(i), v.b(i), v.a(i + 1), v.b(i + 1)) == 0
            &&& curve_term(v.a(i + 1), v.b(i + 1)) == 0
        },
        OpCode::OnCurve => curve_term(v.a(i), v.b(i)) == 0,
        OpCode::BitDecomp => bit_decomp_rel(
            v.a(i),
            v.b(i),
            v.a(i + 1),
            v.b(i + 1),
            v.a(i + 2),
            v.b(i + 2),
        ),
        OpCode::FieldAdd => field_add_expr(v.a(i), v.b(i), v.a(i + 1)) == 0,
        OpCode::FieldMul => field_mul_expr(v.a(i), v.b(i), v.a(i + 1)) == 0,
    }
}

/// The selector assignment that stands for an opcode on the backend's
/// three selector columns: (q_ec_disabled, q1, q2).
pub open spec fn selector_bits_spec(op: OpCode) -> (bool, bool, bool) {
    match op {
        OpCode::EcAdd => (false, true, false),
        OpCode::EcDouble => (false, true, true),
        OpCode::OnCurve => (false, false, true),
        OpCode::BitDecomp => (true, false, true),
        OpCode::FieldAdd => (true, true, false),
        OpCode::FieldMul => (true, true, true),
    }
}

/// The executable selector assignment.
pub fn selector_bits(op: OpCode) -> (r: (bool, bool, bool))
    ensures
        r == selector_bits_spec(op),
{
    match op {
        OpCode::EcAdd => (false, true, false),
        OpCode::EcDouble => (false, true, true),
        OpCode::OnCurve => (false, false, true),
        OpCode::BitDecomp => (true, false, true),
        OpCode::FieldAdd => (true, true, false),
        OpCode::FieldMul => (true, true, true),
    }
}

/// The selector combinations are disjoint by construction: distinct opcodes
/// get distinct assignments, and no assignment leaves both q1 and q2 clear,
/// so a row with no selectors enabled activates no opcode's constraints.
pub proof fn lemma_selector_bits_disjoint()
    ensures
        forall|o1: OpCode, o2: OpCode|
            #[trigger] selector_bits_spec(o1) == #[trigger] selector_bits_spec(o2) ==> o1 == o2,
        forall|o: OpCode| (#[trigger] selector_bits_spec(o)) != (false, false, false),
        forall|o: OpCode| (#[trigger] selector_bits_spec(o)) != (true, false, false),
{
    assert forall|o1: OpCode, o2: OpCode|
        #[trigger] selector_bits_spec(o1) == #[trigger] selector_bits_spec(o2) implies o1
        == o2 by {
        match o1 {
            OpCode::EcAdd => {},
            OpCode::EcDouble => {},
            OpCode::OnCurve => {},
            OpCode::BitDecomp => {},
            OpCode::FieldAdd => {},
            OpCode::FieldMul => {},
        }
    }
}

/// `v2` extends `v1` by whole rows: old rows, tags and copies are kept.
pub open spec fn extends(v2: RegionView, v1: RegionView) -> bool {
    &&& v1.rows.is_prefix_of(v2.rows)
    &&& v1.ops.is_prefix_of(v2.ops)
    &&& v1.copies.is_prefix_of(v2.copies)
    &&& v2.ops.len() == v2.rows.len()
}

/// An opcode's relation reads only the rows of its window, so extending
/// the region does not change it.
pub proof fn lemma_op_rel_stable(v1: RegionView, v2: RegionView, i: int, op: OpCode)
    requires
        extends(v2, v1),
        0 <= i,
        i + window(op) <= v1.rows.len(),
    ensures
        op_rel(v2, i, op) == op_rel(v1, i, op),
{
    reveal(op_rel);
    assert forall|j: int| 0 <= j < v1.rows.len() implies v2.rows[j] == v1.rows[j] by {
        assert(v1.rows.is_prefix_of(v2.rows));
    }
}

/// Extending a well-formed region leaves the old constraints' truth
/// unchanged: the whole is satisfied exactly when the old part was and
/// every added tag and copy holds.
pub proof fn lemma_satisfied_extends(v1: RegionView, v2: RegionView)
    requires
        v1.wf(),
        v2.wf(),
        extends(v2, v1),
    ensures
        v2.satisfied() <==> {
            &&& v1.satisfied()
            &&& forall|i: int| v1.ops.len() <= i < v2.ops.len() ==> #[trigger] op_ok_at(v2, i)
            &&& forall|j: int|
                v1.copies.len() <= j < v2.copies.len() ==> #[trigger] copy_ok(v2, v2.copies[j])
        },
{
    reveal(RegionView::satisfied);
    reveal(RegionView::wf);
    assert forall|i: int| 0 <= i < v1.ops.len() implies (op_ok_at(v1, i) <==> op_ok_at(v2, i)) by {
        assert(v2.ops[i] == v1.ops[i]);
        match v1.ops[i] {
            None => {},
            Some(op) => {
                lemma_op_rel_stable(v1, v2, i, op);
            },
        }
    }
    assert forall|j: int| 0 <= j < v1.copies.len() implies (copy_ok(v1, v1.copies[j]) <==> copy_ok(
        v2,
        v2.copies[j],
    )) by {
        assert(v2.copies[j] == v1.copies[j]);
        assert(v1.copies[j].0.row < v1.rows.len());
        assert(v1.copies[j].1.row < v1.rows.len());
        assert(v2.rows[v1.copies[j].0.row as int] == v1.rows[v1.copies[j].0.row as int]);
        assert(v2.rows[v1.copies[j].1.row as int] == v1.rows[v1.copies[j].1.row as int]);
    }
}

/// A cell handle stays valid when rows are only appended.
pub proof fn lemma_cell_ok_extend(v1: RegionView, v2: RegionView, c: AssignedCell)
    requires
        v1.rows.is_prefix_of(v2.rows),
        cell_ok(v1, c),
    ensures
        cell_ok(v2, c),
{
    assert(v2.rows[c.cell.row as int] == v1.rows[c.cell.row as int]);
}

/// All handles of a sequence stay valid when rows are only appended.
pub proof fn lemma_cells_ok_extend(v1: RegionView, v2: RegionView, cs: Seq<AssignedCell>)
    requires
        v1.rows.is_prefix_of(v2.rows),
        forall|k: int| 0 <= k < cs.len() ==> cell_ok(v1, #[trigger] cs[k]),
    ensures
        forall|k: int| 0 <= k < cs.len() ==> cell_ok(v2, #[trigger] cs[k]),
{
    assert forall|k: int| 0 <= k < cs.len() implies cell_ok(v2, #[trigger] cs[k]) by {
        lemma_cell_ok_extend(v1, v2, cs[k]);
    }
}

/// Tagging one previously untagged row (or re-tagging it with the same
/// opcode) adds exactly that row's sub-expression to the constraints.
pub proof fn lemma_op_set(v1: RegionView, v2: RegionView, at: int, op: OpCode)
    requires
        v1.wf(),
        v2.wf(),
        0 <= at < v1.ops.len(),
        v2.rows == v1.rows,
        v2.copies == v1.copies,
        v2.ops == v1.ops.update(at, Some(op)),
        v1.ops[at] is None || v1.ops[at] == Some(op),
    ensures
        v2.satisfied() <==> (v1.satisfied() && op_rel(v2, at, op)),
{
    reveal(RegionView::satisfied);
    reveal(RegionView::wf);
    assert forall|i: int| 0 <= i < v1.ops.len() && i != at implies (op_ok_at(v1, i) <==> op_ok_at(
        v2,
        i,
    )) by {
        assert(v2.ops[i] == v1.ops[i]);
        match v1.ops[i] {
            None => {},
            Some(o) => {
                assert(op_rel(v2, i, o) == op_rel(v1, i, o)) by {
                    reveal(op_rel);
                }
            },
        }
    }
    assert forall|j: int| 0 <= j < v1.copies.len() implies (copy_ok(v1, v1.copies[j]) <==> copy_ok(
        v2,
        v2.copies[j],
    )) by {
        assert(v2.copies[j] == v1.copies[j]);
    }
    assert(op_rel(v2, at, op) == op_rel(v1, at, op)) by {
        reveal(op_rel);
    }
    if v2.satisfied() {
        assert(op_ok_at(v2, at));
        assert forall|i: int| 0 <= i < v1.ops.len() implies #[trigger] op_ok_at(v1, i) by {
            if i == at {
                match v1.ops[at] {
                    None => {},
                    Some(o) => {
                        assert(o == op);
                    },
                }
            }
        }
        assert forall|j: int| 0 <= j < v1.copies.len() implies #[trigger] copy_ok(
            v1,
            v1.copies[j],
        ) by {}
        assert(v1.satisfied());
    }
    if v1.satisfied() && op_rel(v2, at, op) {
        assert forall|i: int| 0 <= i < v2.ops.len() implies #[trigger] op_ok_at(v2, i) by {
            if i != at {
                assert(op_ok_at(v1, i));
            }
        }
        assert forall|j: int| 0 <= j < v2.copies.len() implies #[trigger] copy_ok(
            v2,
            v2.copies[j],
        ) by {
            assert(copy_ok(v1, v1.copies[j]));
        }
    }
}

/// Appending untagged rows (and no copies) leaves satisfiability unchanged.
pub proof fn lemma_no_op_appended(v1: RegionView, v2: RegionView)
    requires
        v1.wf(),
        v2.wf(),
        extends(v2, v1),
        v2.copies == v1.copies,
        forall|i: int| v1.ops.len() <= i < v2.ops.len() ==> #[trigger] v2.ops[i] is None,
    ensures
        v2.satisfied() <==> v1.satisfied(),
{
    reveal(RegionView::satisfied);
    reveal(RegionView::wf);
    lemma_satisfied_extends(v1, v2);
    assert forall|i: int| v1.ops.len() <= i < v2.ops.len() implies #[trigger] op_ok_at(v2, i) by {
        assert(v2.ops[i] is None);
    }
}

/// Appending rows of which exactly the first is tagged (and no copies):
/// the region is satisfied exactly when it was before and the one new
/// sub-expression vanishes.
pub proof fn lemma_one_op_appended(v1: RegionView, v2: RegionView, op: OpCode)
    requires
        v1.wf(),
        v2.wf(),
        extends(v2, v1),
        v2.copies == v1.copies,
        v2.ops.len() > v1.ops.len(),
        v2.ops[v1.ops.len() as int] == Some(op),
        forall|i: int| v1.ops.len() < i < v2.ops.len() ==> #[trigger] v2.ops[i] is None,
    ensures
        v2.satisfied() <==> (v1.satisfied() && op_rel(v2, v1.ops.len() as int, op)),
{
    reveal(RegionView::satisfied);
    reveal(RegionView::wf);
    lemma_satisfied_extends(v1, v2);
    let at = v1.ops.len() as int;
    if v2.satisfied() {
        assert(op_ok_at(v2, at));
    }
    if v1.satisfied() && op_rel(v2, at, op) {
        assert forall|i: int| v1.ops.len() <= i < v2.ops.len() implies #[trigger] op_ok_at(
            v2,
            i,
        ) by {
            if i != at {
                assert(v2.ops[i] is None);
            }
        }
    }
}

/// The booleanity term vanishes on 0 and 1.
pub proof fn lemma_bool_term_zero(v: nat)
    ensures
        v == 0 || v == 1 ==> bool_term(v) == 0,
{
    if v == 0 {
        assert(0 * fsub(1, 0) == 0) by (nonlinear_arith);
        assert(bool_term(0) == 0nat % p());
        vstd::arithmetic::div_mod::lemma_small_mod(0, p());
    }
    if v == 1 {
        crate::field::lemma_fsub_self(1);
        assert(1 * fsub(1, 1) == 0) by (nonlinear_arith)
            requires
                fsub(1, 1) == 0,
        ;
        vstd::arithmetic::div_mod::lemma_small_mod(0, p());
    }
}

/// The decomposition relation holds of genuine bits with a correctly
/// chained accumulator.
pub proof fn lemma_bit_decomp_rel_holds(a0: nat, b0: nat, a1: nat, b1: nat, a2: nat, b2: nat)
    requires
        a0 == 0 || a0 == 1,
        b0 == 0 || b0 == 1,
        a1 == 0 || a1 == 1,
        b1 == 0 || b1 == 1,
        a2 < p(),
        b2 == (a0 + 2 * b0 + 4 * a1 + 8 * b1 + 16 * a2) % p(),
    ensures
        bit_decomp_rel(a0, b0, a1, b1, a2, b2),
{
    lemma_bool_term_zero(a0);
    lemma_bool_term_zero(b0);
    lemma_bool_term_zero(a1);
    lemma_bool_term_zero(b1);
    crate::field::lemma_fmul_small(2, b0);
    crate::field::lemma_fmul_small(4, a1);
    crate::field::lemma_fmul_small(8, b1);
    crate::field::lemma_fadd_small(a0, (2 * b0) as nat);
    crate::field::lemma_fadd_small((a0 + 2 * b0) as nat, (4 * a1) as nat);
    crate::field::lemma_fadd_small((a0 + 2 * b0 + 4 * a1) as nat, (8 * b1) as nat);
    let s = (a0 + 2 * b0 + 4 * a1 + 8 * b1) as nat;
    assert(fmul(16, a2) == (16 * a2) % p());
    crate::field::lemma_fadd_mod_right(s, (16 * a2) as nat);
    assert(fadd(s, fmul(16, a2)) == (s + 16 * a2) % p());
    assert(b2 < p());
    crate::field::lemma_fsub_self(b2);
}

impl Region {
    /// An empty region: the cursor starts at zero.
    pub fn new() -> (r: Region)
        ensures
            r@.wf(),
            r@.satisfied(),
            r@.len() == 0,
            r@.ops.len() == 0,
            r@.copies.len() == 0,
    {
        proof {
            reveal(RegionView::satisfied);
            reveal(RegionView::wf);
        }
        Region { rows: Vec::new(), ops: Vec::new(), copies: Vec::new() }
    }

    /// The row cursor: the next row to be written.
    pub fn offset(&self) -> (r: usize)
        ensures
            r == self@.len(),
    {
        self.rows.len()
    }

    /// Forces two already-written cells to hold equal values.  The new
    /// region is satisfied exactly when the old one was and the two cells
    /// agree.
    pub fn constrain_equal(&mut self, c1: Cell, c2: Cell)
        requires
            old(self)@.wf(),
            c1.row < old(self)@.len(),
            c2.row < old(self)@.len(),
        ensures
            final(self)@.wf(),
            final(self)@.rows == old(self)@.rows,
            final(self)@.ops == old(self)@.ops,
            final(self)@.copies == old(self)@.copies.push((c1, c2)),
            final(self)@.satisfied() <==> (old(self)@.satisfied() && old(self)@.value_at(c1) == old(
                self,
            )@.value_at(c2)),
    {
        let ghost v1 = self@;
        self.copies.push((c1, c2));
        proof {
            reveal(RegionView::satisfied);
            reveal(RegionView::wf);
            let v2 = self@;
            assert(v2.rows =~= v1.rows);
            assert(v2.ops =~= v1.ops);
            assert(v2.copies =~= v1.copies.push((c1, c2)));
            lemma_satisfied_extends(v1, v2);
            assert(copy_ok(v2, (c1, c2)) <==> v1.value_at(c1) == v1.value_at(c2));
            if v1.satisfied() && v1.value_at(c1) == v1.value_at(c2) {
                assert forall|j: int|
                    v1.copies.len() <= j < v2.copies.len() implies #[trigger] copy_ok(
                    v2,
                    v2.copies[j],
                ) by {
                    assert(v2.copies[j] == (c1, c2));
                }
                assert(v2.satisfied());
            }
            if v2.satisfied() {
                assert(copy_ok(v2, v2.copies[v1.copies.len() as int]));
                assert(v2.copies[v1.copies.len() as int] == (c1, c2));
            }
        }
    }
}

} // verus!
