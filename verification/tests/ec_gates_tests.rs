//! Elliptic-curve gadgets and the scalar multiplication protocol, checked
//! against the executable constraint evaluator and the real group law.
use ark_std::test_rng;
use halo2curves::ff::Field;
use halo2curves::ff::PrimeField;
use halo2curves::group::Curve;
use halo2curves::group::Group;
use halo2curves::grumpkin::Fq;
use halo2curves::grumpkin::Fr;
use halo2curves::grumpkin::G1Affine;
use halo2curves::grumpkin::G1;
use halo2curves::CurveAffine;

use ec_gadgets::arith_gates::ArithOps;
use ec_gadgets::checker::is_satisfied;
use ec_gadgets::chip::ECChip;
use ec_gadgets::ec_gates::NativeECOps;
use ec_gadgets::ec_structs::ECPoint;
use ec_gadgets::ec_structs::Error;
use ec_gadgets::field::felt_from_u64;
use ec_gadgets::field::Felt;
use ec_gadgets::region::OpCode;
use ec_gadgets::region::Region;
use ec_gadgets::scalar::Scalar;

fn felt_of(f: Fq) -> Felt {
    Felt { bytes: f.to_repr().into() }
}

fn point_of(p: G1Affine) -> ECPoint {
    let c = p.coordinates().unwrap();
    ECPoint { x: felt_of(*c.x()), y: felt_of(*c.y()) }
}

fn scalar_of(s: Fr) -> Scalar {
    Scalar { bytes: s.to_repr().into() }
}

fn run_ec_circuit(s: Fr, p1: G1Affine, p2: G1Affine, p3: G1Affine, p4: G1Affine, p5: G1Affine)
    -> bool {
    let chip = ECChip::construct(ECChip::configure());
    let mut region = Region::new();

    // unit test: `load private unchecked`, then `enforce is on curve`
    let _p1 = {
        let p1 = chip.load_private_point_unchecked(&mut region, &point_of(p1));
        chip.enforce_on_curve(&mut region, &p1);
        p1
    };
    // unit test: load private
    let _p2 = chip.load_private_point(&mut region, &point_of(p2));
    let p3_cells = chip.load_private_point(&mut region, &point_of(p3));
    let p4_cells = chip.load_private_point(&mut region, &point_of(p4));
    let p5_cells = chip.load_private_point(&mut region, &point_of(p5));

    // unit test: point addition with 1
    {
        let c1 = chip.load_private_point_unchecked(&mut region, &point_of(p1));
        let c2 = chip.load_private_point_unchecked(&mut region, &point_of(p2));
        let bit = chip.load_private_field(&mut region, &felt_from_u64(1));
        let p3_rec = chip
            .conditional_point_add(&mut region, &c1, &c2, &bit)
            .unwrap();
        region.constrain_equal(p3_cells.x.cell, p3_rec.x.cell);
        region.constrain_equal(p3_cells.y.cell, p3_rec.y.cell);
    }

    // unit test: point addition with 0
    {
        let c1 = chip.load_private_point_unchecked(&mut region, &point_of(p1));
        let c2 = chip.load_private_point_unchecked(&mut region, &point_of(p2));
        let bit = chip.load_private_field(&mut region, &felt_from_u64(0));
        let p1_rec = chip
            .conditional_point_add(&mut region, &c1, &c2, &bit)
            .unwrap();
        region.constrain_equal(c1.x.cell, p1_rec.x.cell);
        region.constrain_equal(c1.y.cell, p1_rec.y.cell);
    }

    // unit test: point doubling
    {
        let c1 = chip.load_private_point_unchecked(&mut region, &point_of(p1));
        let p4_rec = chip.double_assigned_point(&mut region, &c1).unwrap();
        region.constrain_equal(p4_cells.x.cell, p4_rec.x.cell);
        region.constrain_equal(p4_cells.y.cell, p4_rec.y.cell);
    }

    // unit test: scalar decomposition
    {
        let _scalar_cells = chip.decompose_scalar(&mut region, &scalar_of(s));
    }

    // unit test: curve mul
    {
        let p5_rec = chip
            .point_mul(&mut region, &point_of(p1), &scalar_of(s))
            .unwrap();
        region.constrain_equal(p5_cells.x.cell, p5_rec.x.cell);
        region.constrain_equal(p5_cells.y.cell, p5_rec.y.cell);
    }

    chip.pad(&mut region);
    is_satisfied(&region)
}

#[test]
fn test_ec_ops() {
    let mut rng = test_rng();
    let s = Fr::random(&mut rng);
    let p1 = G1::random(&mut rng).to_affine();
    let p2 = G1::random(&mut rng).to_affine();
    let p3 = (p1 + p2).to_affine();
    let p4 = (p1 + p1).to_affine();
    let p5 = (p1 * s).to_affine();

    assert!(run_ec_circuit(s, p1, p2, p3, p4, p5));

    // error case: add not equal
    {
        let p3 = (p1 + p1).to_affine();
        assert!(!run_ec_circuit(s, p1, p2, p3, p4, p5));
    }

    // error case: double not equal
    {
        let p4 = (p1 + p2).to_affine();
        assert!(!run_ec_circuit(s, p1, p2, p3, p4, p5));
    }
}

#[test]
fn tests_test_ec_ops() {
    let mut rng = test_rng();
    let p1 = G1::random(&mut rng).to_affine();
    let p2 = G1::random(&mut rng).to_affine();
    let p3 = (p1 + p2).to_affine();
    let p4 = (p1 + p1).to_affine();

    let chip = ECChip::construct(ECChip::configure());
    let mut region = Region::new();

    // unit testing: `load private unchecked`, then `enforce is on curve`
    let _p1 = {
        let c = chip.load_private_point_unchecked(&mut region, &point_of(p1));
        chip.enforce_on_curve(&mut region, &c);
        c
    };
    // unit testing: load private
    let _p2 = chip.load_private_point(&mut region, &point_of(p2));
    let p3_cells = chip.load_private_point(&mut region, &point_of(p3));
    let p4_cells = chip.load_private_point(&mut region, &point_of(p4));

    // unit testing: point addition
    {
        let c1 = chip.load_private_point_unchecked(&mut region, &point_of(p1));
        let c2 = chip.load_private_point_unchecked(&mut region, &point_of(p2));
        let p3_rec = chip
            .add_assigned_points(&mut region, &c1, &c2)
            .unwrap();
        region.constrain_equal(p3_cells.x.cell, p3_rec.x.cell);
        region.constrain_equal(p3_cells.y.cell, p3_rec.y.cell);
    }

    // unit testing: point addition from witnesses
    {
        let p3_rec = chip
            .add_points(&mut region, &point_of(p1), &point_of(p2))
            .unwrap();
        region.constrain_equal(p3_cells.x.cell, p3_rec.x.cell);
        region.constrain_equal(p3_cells.y.cell, p3_rec.y.cell);
    }

    // unit testing: point doubling
    {
        let c1 = chip.load_private_point_unchecked(&mut region, &point_of(p1));
        let p4_rec = chip.double_assigned_point(&mut region, &c1).unwrap();
        region.constrain_equal(p4_cells.x.cell, p4_rec.x.cell);
        region.constrain_equal(p4_cells.y.cell, p4_rec.y.cell);
    }

    // pad the last two rows
    chip.pad(&mut region);

    assert!(is_satisfied(&region));
}

#[test]
fn test_point_mul_matches_group_law() {
    let mut rng = test_rng();
    let s = Fr::random(&mut rng);
    let p = G1::random(&mut rng).to_affine();
    let expected = (p * s).to_affine();

    let chip = ECChip::construct(ECChip::configure());
    let mut region = Region::new();
    let result = chip
        .point_mul(&mut region, &point_of(p), &scalar_of(s))
        .unwrap();
    let w = result.witness();
    assert_eq!(w.x.bytes, point_of(expected).x.bytes);
    assert_eq!(w.y.bytes, point_of(expected).y.bytes);
    assert!(is_satisfied(&region));
}

#[test]
fn test_enforce_on_curve_idempotent() {
    let mut rng = test_rng();
    let p1 = G1::random(&mut rng).to_affine();
    let chip = ECChip::construct(ECChip::configure());
    let mut region = Region::new();
    let c = chip.load_private_point(&mut region, &point_of(p1));
    assert!(is_satisfied(&region));
    // re-applying the check does not change satisfiability
    chip.enforce_on_curve(&mut region, &c);
    assert!(is_satisfied(&region));
}

#[test]
fn test_enforce_on_curve_rejects_off_curve() {
    let mut rng = test_rng();
    let p1 = G1::random(&mut rng).to_affine();
    let c = p1.coordinates().unwrap();
    let off = ECPoint { x: felt_of(*c.x() + Fq::one()), y: felt_of(*c.y()) };
    let chip = ECChip::construct(ECChip::configure());
    let mut region = Region::new();
    let loaded = chip.load_private_point_unchecked(&mut region, &off);
    assert!(is_satisfied(&region));
    chip.enforce_on_curve(&mut region, &loaded);
    assert!(!is_satisfied(&region));
}

#[test]
fn test_conditional_add_rejects_infinity() {
    let mut rng = test_rng();
    let p1 = G1::random(&mut rng).to_affine();
    let neg = (-G1::from(p1)).to_affine();
    let chip = ECChip::construct(ECChip::configure());
    let mut region = Region::new();
    let c1 = chip.load_private_point_unchecked(&mut region, &point_of(p1));
    let c2 = chip.load_private_point_unchecked(&mut region, &point_of(neg));
    let bit = chip.load_private_field(&mut region, &felt_from_u64(1));
    let r = chip.conditional_point_add(&mut region, &c1, &c2, &bit);
    assert_eq!(r.unwrap_err(), Error::PointAtInfinity);
}

#[test]
fn test_conditional_add_doubles_equal_points() {
    let mut rng = test_rng();
    let p1 = G1::random(&mut rng).to_affine();
    let doubled = (p1 + p1).to_affine();
    let chip = ECChip::construct(ECChip::configure());
    let mut region = Region::new();
    let c1 = chip.load_private_point_unchecked(&mut region, &point_of(p1));
    let c2 = chip.load_private_point_unchecked(&mut region, &point_of(p1));
    let bit = chip.load_private_field(&mut region, &felt_from_u64(1));
    let r = chip
        .conditional_point_add(&mut region, &c1, &c2, &bit)
        .unwrap();
    let w = r.witness();
    assert_eq!(w.x.bytes, point_of(doubled).x.bytes);
    assert_eq!(w.y.bytes, point_of(doubled).y.bytes);
    assert!(is_satisfied(&region));
}

#[test]
fn test_add_points_mismatch_fails() {
    let mut rng = test_rng();
    let p1 = G1::random(&mut rng).to_affine();
    let p2 = G1::random(&mut rng).to_affine();
    let wrong = (p1 + p1).to_affine();
    let chip = ECChip::construct(ECChip::configure());
    let mut region = Region::new();
    let expected_cells = chip.load_private_point(&mut region, &point_of(wrong));
    let sum = chip
        .add_points(&mut region, &point_of(p1), &point_of(p2))
        .unwrap();
    region.constrain_equal(expected_cells.x.cell, sum.x.cell);
    region.constrain_equal(expected_cells.y.cell, sum.y.cell);
    assert!(!is_satisfied(&region));
}

#[test]
fn test_conditional_add_window_rejects_cancellation() {
    // cond = 0, p1 = (0, -17), result (0, 0): in a single summed constraint
    // the pass-through terms would cancel the on-curve term; per-term
    // constraints reject the window.
    let zero = felt_from_u64(0);
    let minus_17 = felt_of(Fq::zero() - Fq::from(17));
    let region = Region {
        rows: vec![(zero, minus_17), (zero, zero), (zero, zero), (zero, zero)],
        ops: vec![Some(OpCode::EcAdd), None, None, None],
        copies: vec![],
    };
    assert!(!is_satisfied(&region));
}

#[test]
fn test_double_window_rejects_cancellation() {
    // rows (1, 0), (3, 4): the tangent term 6 would cancel the on-curve
    // term -6 in a single summed constraint; per-term constraints reject
    // the window, since (3, 4) is off the curve.
    let region = Region {
        rows: vec![
            (felt_from_u64(1), felt_from_u64(0)),
            (felt_from_u64(3), felt_from_u64(4)),
        ],
        ops: vec![Some(OpCode::EcDouble), None],
        copies: vec![],
    };
    assert!(!is_satisfied(&region));
}

#[test]
fn test_assigned_point_accessors() {
    let mut rng = test_rng();
    let p1 = G1::random(&mut rng).to_affine();
    let chip = ECChip::construct(ECChip::configure());
    let mut region = Region::new();
    let c = chip.load_private_point_unchecked(&mut region, &point_of(p1));
    assert_eq!(c.offset(), 0);
    let w = c.witness();
    assert_eq!(w.x.bytes, point_of(p1).x.bytes);
    assert_eq!(w.y.bytes, point_of(p1).y.bytes);
    let rebuilt = ec_gadgets::ec_structs::AssignedECPoint::new(c.x, c.y, c.offset);
    assert_eq!(rebuilt.offset, c.offset);
}
