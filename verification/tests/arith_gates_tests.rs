//! Field arithmetic and bit decomposition gadgets, checked against the
//! executable constraint evaluator with the real field implementation.
use ark_std::test_rng;
use halo2curves::ff::Field;
use halo2curves::ff::PrimeField;
use halo2curves::grumpkin::Fq;
use halo2curves::grumpkin::Fr;

use ec_gadgets::arith_gates::ArithOps;
use ec_gadgets::checker::is_satisfied;
use ec_gadgets::ec_gates::NativeECOps;
use ec_gadgets::chip::ECChip;
use ec_gadgets::field::felt_from_u128;
use ec_gadgets::field::felt_from_u64;
use ec_gadgets::field::Felt;
use ec_gadgets::region::Region;
use ec_gadgets::scalar::Scalar;
use ec_gadgets::util::byte_to_le_bits;
use ec_gadgets::util::decompose_u128;
use ec_gadgets::util::field_decompose;
use ec_gadgets::util::field_decompose_u128;
use ec_gadgets::util::to_le_bits;

fn felt_of(f: Fq) -> Felt {
    Felt { bytes: f.to_repr().into() }
}

fn felt_of_fr(f: Fr) -> Felt {
    Felt { bytes: f.to_repr().into() }
}

fn scalar_of(s: Fr) -> Scalar {
    Scalar { bytes: s.to_repr().into() }
}

fn run_field_circuit(f1: Fq, f2: Fq, f3: Fq, f4: Fq, f5: [Fq; 6]) -> bool {
    let chip = ECChip::construct(ECChip::configure());
    let mut region = Region::new();

    // unit test: addition
    let f3_rec = chip.add(&mut region, &felt_of(f1), &felt_of(f2));
    let f3_cell = chip.load_private_field(&mut region, &felt_of(f3));
    region.constrain_equal(f3_cell.cell, f3_rec.cell);

    // unit test: multiplication
    let f4_rec = chip.mul(&mut region, &felt_of(f1), &felt_of(f2));
    let f4_cell = chip.load_private_field(&mut region, &felt_of(f4));
    region.constrain_equal(f4_cell.cell, f4_rec.cell);

    // unit test: partial bit decompose
    let inputs: Vec<Felt> = f5.iter().map(|f| felt_of(*f)).collect();
    let _cells = chip.partial_bit_decomp(&mut region, &inputs);

    chip.pad(&mut region);
    is_satisfied(&region)
}

#[test]
fn test_field_ops() {
    let mut rng = test_rng();

    let f1 = Fq::random(&mut rng);
    let f2 = Fq::random(&mut rng);
    let f3 = f1 + f2;
    let f4 = f1 * f2;
    {
        let f5 = [
            Fq::one(),
            Fq::zero(),
            Fq::zero(),
            Fq::one(),
            f1,
            f1 * Fq::from(16) + Fq::from(9),
        ];
        assert!(run_field_circuit(f1, f2, f3, f4, f5));
    }

    // error case: addition fails
    {
        let f3 = f1 + f1;
        let f5 = [
            Fq::one(),
            Fq::zero(),
            Fq::zero(),
            Fq::one(),
            f1,
            f1 * Fq::from(16) + Fq::from(9),
        ];
        assert!(!run_field_circuit(f1, f2, f3, f4, f5));
    }
    // error case: multiplication fails
    {
        let f4 = f1 * f1;
        let f5 = [
            Fq::one(),
            Fq::zero(),
            Fq::zero(),
            Fq::one(),
            f1,
            f1 * Fq::from(16) + Fq::from(9),
        ];
        assert!(!run_field_circuit(f1, f2, f3, f4, f5));
    }
    // error case: not binary
    {
        let f5 = [
            Fq::from(2),
            Fq::zero(),
            Fq::zero(),
            Fq::one(),
            f1,
            f1 * Fq::from(16) + Fq::from(10),
        ];
        assert!(!run_field_circuit(f1, f2, f3, f4, f5));
    }
    // error case: sum not equal
    {
        let f5 = [
            Fq::zero(),
            Fq::zero(),
            Fq::zero(),
            Fq::one(),
            f1,
            f1 * Fq::from(16) + Fq::from(10),
        ];
        assert!(!run_field_circuit(f1, f2, f3, f4, f5));
    }
}

#[test]
fn test_to_bites() {
    assert_eq!(
        byte_to_le_bits(4),
        vec![false, false, true, false, false, false, false, false]
    );

    {
        let f = Fr::from(4);
        let sequence = to_le_bits(&felt_of_fr(f));

        for (i, v) in sequence.iter().enumerate() {
            if i == 2 {
                assert_eq!(*v, true)
            } else {
                assert_eq!(*v, false)
            }
        }
    }

    {
        let f = Fr::from(4 + (1 << 13));
        let sequence = to_le_bits(&felt_of_fr(f));

        for (i, v) in sequence.iter().enumerate() {
            if i == 2 || i == 13 {
                assert_eq!(*v, true, "{}-th coefficient failed", i)
            } else {
                assert_eq!(*v, false, "{}-th coefficient failed", i)
            }
        }
    }
}

#[test]
fn test_field_decom() {
    let mut rng = test_rng();
    let a = Fr::random(&mut rng);
    let (_high, _low) = field_decompose(&scalar_of(a));

    let a = u128::from_le_bytes([1; 16]);
    let _bits = decompose_u128(a);
}

#[test]
fn test_partial_decomp_single_mutations() {
    let mut rng = test_rng();
    let f1 = Fq::random(&mut rng);
    let f2 = Fq::random(&mut rng);
    let f3 = f1 + f2;
    let f4 = f1 * f2;
    // the valid tuple (1, 0, 0, 1, f1, 16 f1 + 9) verifies
    let good = [
        Fq::one(),
        Fq::zero(),
        Fq::zero(),
        Fq::one(),
        f1,
        f1 * Fq::from(16) + Fq::from(9),
    ];
    assert!(run_field_circuit(f1, f2, f3, f4, good));
    // changing the first entry to 2 alone must fail
    let mut first_two = good;
    first_two[0] = Fq::from(2);
    assert!(!run_field_circuit(f1, f2, f3, f4, first_two));
    // changing the sixth entry by one alone must fail
    let mut sixth_off = good;
    sixth_off[5] = sixth_off[5] + Fq::one();
    assert!(!run_field_circuit(f1, f2, f3, f4, sixth_off));
}

#[test]
fn test_partial_decomp_rejects_term_cancellation() {
    // (2, 0, 0, 1, 0, 8): the recomposition offset +2 would cancel the
    // booleanity term -2 of the non-binary first entry in a single summed
    // constraint; with one constraint per term the window is rejected.
    let mut rng = test_rng();
    let f1 = Fq::random(&mut rng);
    let f2 = Fq::random(&mut rng);
    let f5 = [
        Fq::from(2),
        Fq::zero(),
        Fq::zero(),
        Fq::one(),
        Fq::zero(),
        Fq::from(8),
    ];
    assert!(!run_field_circuit(f1, f2, f1 + f2, f1 * f2, f5));
}

#[test]
fn test_scalar_split_exact() {
    // 2^128 + 5: high half 1, low half 5
    let mut bytes = [0u8; 32];
    bytes[0] = 5;
    bytes[16] = 1;
    let s = Scalar::from_le_bytes(bytes);
    let (high, low) = field_decompose_u128(&s);
    assert_eq!(high, 1u128);
    assert_eq!(low, 5u128);
}

#[test]
fn test_decompose_u128_recomposition() {
    let v: u128 = 0x0123456789abcdef_fedcba9876543210;
    let bits = decompose_u128(v);
    assert_eq!(bits.len(), 128);
    let mut recomposed: u128 = 0;
    for (i, b) in bits.iter().enumerate() {
        assert!(*b == 0 || *b == 1);
        recomposed |= (*b as u128) << i;
    }
    assert_eq!(recomposed, v);
}

#[test]
fn test_decompose_u128_gadget_accumulator() {
    let v: u128 = 0xdeadbeef_00112233_44556677_8899aabb;
    let chip = ECChip::construct(ECChip::configure());
    let mut region = Region::new();
    let (cells, acc) = chip.decompose_u128(&mut region, v);
    assert_eq!(cells.len(), 128);
    for (i, c) in cells.iter().enumerate() {
        let expected = ((v >> i) & 1) as u64;
        assert_eq!(c.value.bytes, felt_from_u64(expected).bytes);
    }
    assert_eq!(acc.value.bytes, felt_from_u128(v).bytes);
    assert!(is_satisfied(&region));
}

#[test]
fn test_field_add_wraps_at_modulus() {
    // (p - 1) + 1 reduces to zero
    let minus_one = Fq::zero() - Fq::one();
    let chip = ECChip::construct(ECChip::configure());
    let mut region = Region::new();
    let sum = chip.add(&mut region, &felt_of(minus_one), &felt_of(Fq::one()));
    assert_eq!(sum.value.bytes, felt_from_u64(0).bytes);
    assert!(is_satisfied(&region));
}

#[test]
fn test_load_two_private_fields_rows() {
    let chip = ECChip::construct(ECChip::configure());
    let mut region = Region::new();
    assert_eq!(region.offset(), 0);
    let (a, b) = chip.load_two_private_fields(
        &mut region,
        &felt_from_u64(7),
        &felt_from_u64(11),
    );
    assert_eq!(region.offset(), 1);
    assert_eq!(a.cell.row, 0);
    assert_eq!(b.cell.row, 0);
    assert!(is_satisfied(&region));
}
