//! Curve points and the handles to their assigned cells.
use vstd::prelude::*;

use crate::field::Felt;
use crate::region::on_curve;
use crate::region::AssignedCell;
use crate::region::Cell;
use crate::region::Col;
use crate::region::RegionView;

verus! {

/// The failure of a gadget whose group-law step would leave the affine
/// domain: the point at infinity has no cell representation.
#[derive(Clone, Copy, Debug, PartialEq, Eq, Structural)]
pub enum Error {
    PointAtInfinity,
}

/// An affine point of the embedded curve, held as plain base-field values.
/// The point at infinity has no representation.
#[derive(Clone, Copy, Debug)]
pub struct ECPoint {
    pub x: Felt,
    pub y: Felt,
}

impl ECPoint {
    /// Both coordinates are canonical field values.
    pub open spec fn wf(self) -> bool {
        self.x.wf() && self.y.wf()
    }

    /// The coordinates satisfy the curve equation.
    pub open spec fn on_curve_spec(self) -> bool {
        on_curve(self.x@, self.y@)
    }
}

/// A curve point written into the region: its two cells always share one
/// row, remembered in `offset`.
#[derive(Clone, Copy, Debug)]
pub struct AssignedECPoint {
    pub x: AssignedCell,
    pub y: AssignedCell,
    pub offset: usize,
}

impl AssignedECPoint {
    /// The handles agree with the region: the coordinates stand in columns
    /// A and B of row `offset` and are canonical field values.
    pub open spec fn ok_in(self, v: RegionView) -> bool {
        &&& self.offset < v.len()
        &&& self.x.cell == (Cell { col: Col::A, row: self.offset })
        &&& self.y.cell == (Cell { col: Col::B, row: self.offset })
        &&& v.a(self.offset as int) == self.x.value@
        &&& v.b(self.offset as int) == self.y.value@
        &&& self.x.value.wf()
        &&& self.y.value.wf()
    }

    /// The point the cells hold.
    pub open spec fn witness_spec(self) -> ECPoint {
        ECPoint { x: self.x.value, y: self.y.value }
    }

    /// The coordinates written for this point satisfy the curve equation.
    pub open spec fn on_curve_spec(self) -> bool {
        self.witness_spec().on_curve_spec()
    }

    pub fn new(x: AssignedCell, y: AssignedCell, offset: usize) -> (r: Self)
        ensures
            r == (AssignedECPoint { x, y, offset }),
    {
        AssignedECPoint { x, y, offset }
    }

    /// Reads the concrete point back for the prover's own later computation.
    /// This is prover-only value materialization: it appears in no
    /// constraint, so it cannot weaken soundness.
    pub fn witness(&self) -> (r: ECPoint)
        ensures
            r == self.witness_spec(),
    {
        ECPoint { x: self.x.value, y: self.y.value }
    }

    /// The row at which the point was written.
    pub fn offset(&self) -> (r: usize)
        ensures
            r == self.offset,
    {
        self.offset
    }
}

} // verus!
