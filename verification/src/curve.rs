//! The group law of the embedded curve, supplied by halo2curves behind
//! trusted wrappers whose contracts state the affine chord and tangent
//! formulas exactly.
use vstd::prelude::*;

use halo2curves::ff::PrimeField;
use halo2curves::group::Curve;
use halo2curves::group::Group;
use halo2curves::group::prime::PrimeCurveAffine;
use halo2curves::grumpkin::Fq;
use halo2curves::grumpkin::G1Affine;
use halo2curves::CurveAffine;

use crate::ec_structs::ECPoint;
use crate::field::fadd;
use crate::field::fmul;
use crate::field::fsub;
use crate::field::p;
use crate::field::Felt;
use crate::region::on_curve;

verus! {

/// (x3, y3) is the chord sum of (x1, y1) and (x2, y2): for the unique slope
/// lam with lam (x2 - x1) = y2 - y1, x3 = lam^2 - x1 - x2 and
/// y3 = lam (x1 - x3) - y1.  For x1 != x2 this pins the sum exactly.
pub open spec fn chord_rel(x1: nat, y1: nat, x2: nat, y2: nat, x3: nat, y3: nat) -> bool {
    exists|lam: nat|
        {
            &&& lam < p()
            &&& #[trigger] fmul(lam, fsub(x2, x1)) == fsub(y2, y1)
            &&& x3 == fsub(fsub(fmul(lam, lam), x1), x2)
            &&& y3 == fsub(fmul(lam, fsub(x1, x3)), y1)
        }
}

/// (x3, y3) is the tangent double of (x1, y1): for the unique slope lam
/// with lam (2 y1) = 3 x1^2, x3 = lam^2 - 2 x1 and y3 = lam (x1 - x3) - y1.
/// For y1 != 0 this pins the double exactly.
pub open spec fn tangent_rel(x1: nat, y1: nat, x3: nat, y3: nat) -> bool {
    exists|lam: nat|
        {
            &&& lam < p()
            &&& #[trigger] fmul(lam, fmul(2, y1)) == fmul(3, fmul(x1, x1))
            &&& x3 == fsub(fsub(fmul(lam, lam), x1), x1)
            &&& y3 == fsub(fmul(lam, fsub(x1, x3)), y1)
        }
}

/// The coordinates of the affine sum of two distinct-x curve points: the
/// group law is a function of the operands' coordinates alone, so its
/// result carries a name that every call returns.
pub uninterp spec fn chord_sum(x1: nat, y1: nat, x2: nat, y2: nat) -> (nat, nat);

/// The coordinates of the affine double of a curve point with nonzero y:
/// a function of the point's coordinates alone.
pub uninterp spec fn tangent_double_of(x1: nat, y1: nat) -> (nat, nat);

/// Relies on `G1Affine::from_xy` (accepts exactly the points on the curve),
/// `+` on grumpkin points (the complete group law), `Curve::to_affine` and
/// `CurveAffine::coordinates`: for on-curve inputs with distinct
/// x-coordinates the sum is the affine chord point, and it depends on the
/// coordinates alone.
#[verifier::external_body]
pub fn curve_add_unequal(p1: &ECPoint, p2: &ECPoint) -> (r: ECPoint)
    requires
        p1.wf(),
        p2.wf(),
        p1.on_curve_spec(),
        p2.on_curve_spec(),
        p1.x@ != p2.x@,
    ensures
        r.wf(),
        r.on_curve_spec(),
        chord_rel(p1.x@, p1.y@, p2.x@, p2.y@, r.x@, r.y@),
        (r.x@, r.y@) == chord_sum(p1.x@, p1.y@, p2.x@, p2.y@),
{
    let x1 = Fq::from_repr(p1.x.bytes.into()).unwrap();
    let y1 = Fq::from_repr(p1.y.bytes.into()).unwrap();
    let x2 = Fq::from_repr(p2.x.bytes.into()).unwrap();
    let y2 = Fq::from_repr(p2.y.bytes.into()).unwrap();
    let a = G1Affine::from_xy(x1, y1).unwrap();
    let b = G1Affine::from_xy(x2, y2).unwrap();
    let s = (a + b).to_affine();
    let c = s.coordinates().unwrap();
    ECPoint {
        x: Felt { bytes: c.x().to_repr().into() },
        y: Felt { bytes: c.y().to_repr().into() },
    }
}

/// Relies on `G1Affine::from_xy`, `Group::double` (the complete group law),
/// `Curve::to_affine` and `CurveAffine::coordinates`: for an on-curve input
/// with nonzero y-coordinate the double is the affine tangent point, and it
/// depends on the coordinates alone.
#[verifier::external_body]
pub fn curve_double(p1: &ECPoint) -> (r: ECPoint)
    requires
        p1.wf(),
        p1.on_curve_spec(),
        p1.y@ != 0,
    ensures
        r.wf(),
        r.on_curve_spec(),
        tangent_rel(p1.x@, p1.y@, r.x@, r.y@),
        (r.x@, r.y@) == tangent_double_of(p1.x@, p1.y@),
{
    let x1 = Fq::from_repr(p1.x.bytes.into()).unwrap();
    let y1 = Fq::from_repr(p1.y.bytes.into()).unwrap();
    let a = G1Affine::from_xy(x1, y1).unwrap();
    let d = a.to_curve().double().to_affine();
    let c = d.coordinates().unwrap();
    ECPoint {
        x: Felt { bytes: c.x().to_repr().into() },
        y: Felt { bytes: c.y().to_repr().into() },
    }
}

/// Relies on `G1Affine::generator`: the fixed generator of the curve's
/// group, an on-curve point whose x-coordinate the source fixes to one and
/// whose y-coordinate is the canonical form of the source's constant.
#[verifier::external_body]
pub fn curve_generator() -> (r: ECPoint)
    ensures
        r.wf(),
        r.on_curve_spec(),
        r.x@ == 1,
        r.y@ == 17631683881184975370165255887551781615748388533673675138860nat,
{
    let g = G1Affine::generator();
    let c = g.coordinates().unwrap();
    ECPoint {
        x: Felt { bytes: c.x().to_repr().into() },
        y: Felt { bytes: c.y().to_repr().into() },
    }
}

/// Relies on `Fq::from_str_vartime` (parses a decimal string into the field
/// value it names) and `G1Affine::from_xy` (accepts exactly the points on
/// the curve): the fixed point -2^256 * generator of the embedded curve.
#[verifier::external_body]
pub fn curve_offset_generator() -> (r: ECPoint)
    ensures
        r.wf(),
        r.on_curve_spec(),
        r.x@ == 18292374296067206172215749431916515128228165256807037435601971767767562625877nat,
        r.y@ == 8411761026004062292626067694055242675827541323706122037355419552115320964415nat,
{
    let x = Fq::from_str_vartime(
        "18292374296067206172215749431916515128228165256807037435601971767767562625877",
    ).unwrap();
    let y = Fq::from_str_vartime(
        "8411761026004062292626067694055242675827541323706122037355419552115320964415",
    ).unwrap();
    let g = G1Affine::from_xy(x, y).unwrap();
    let c = g.coordinates().unwrap();
    ECPoint {
        x: Felt { bytes: c.x().to_repr().into() },
        y: Felt { bytes: c.y().to_repr().into() },
    }
}

} // verus!
