use field_gadgets::boolean::Boolean;
use field_gadgets::cs::ConstraintSystem;
use field_gadgets::field::Fp;
use field_gadgets::field_element::{AllocationMode, FpVar};
use field_gadgets::fp_var::AllocatedFp;

fn reconstruct(bits: &[Boolean]) -> u64 {
    let mut acc: u64 = 0;
    let mut weight: u64 = 1;
    for b in bits.iter() {
        if b.value().unwrap() {
            acc += weight;
        }
        weight *= 2;
    }
    acc
}

#[test]
fn test_bits_round_trip() {
    // The weighted bit sum of the canonical decomposition recovers the
    // value exactly, and the generated constraints are satisfied.
    let mut cs = ConstraintSystem::new();
    let x = AllocatedFp::new_witness(&mut cs, Some(Fp::new(100)));
    let bits = x.to_bits_le(&mut cs).unwrap();
    assert_eq!(bits.len(), 7);
    assert_eq!(reconstruct(&bits), 100);
    assert!(cs.is_satisfied().unwrap());
}

#[test]
fn test_bits_round_trip_all_values() {
    for v in 0..127u64 {
        let mut cs = ConstraintSystem::new();
        let x = AllocatedFp::new_witness(&mut cs, Some(Fp::new(v)));
        let bits = x.to_non_unique_bits_le(&mut cs).unwrap();
        assert_eq!(reconstruct(&bits), v);
        assert!(cs.is_satisfied().unwrap());
    }
}

#[test]
fn test_non_unique_bits_cost() {
    // Seven bit witnesses with booleanity constraints plus one linear
    // identity; the canonical form pays one more witness and constraint.
    let mut cs = ConstraintSystem::new();
    let x = AllocatedFp::new_witness(&mut cs, Some(Fp::new(9)));
    let c0 = cs.num_constraints();
    let _ = x.to_non_unique_bits_le(&mut cs).unwrap();
    assert_eq!(cs.num_constraints(), c0 + 8);
    let c1 = cs.num_constraints();
    let _ = x.to_bits_le(&mut cs).unwrap();
    assert_eq!(cs.num_constraints(), c1 + 9);
    assert!(cs.is_satisfied().unwrap());
}

#[test]
fn test_constant_bits() {
    let mut cs = ConstraintSystem::new();
    let x = FpVar::Constant(Fp::new(75));
    let bits = x.to_bits_le(&mut cs).unwrap();
    assert_eq!(cs.num_constraints(), 0);
    assert_eq!(reconstruct(&bits), 75);
}

#[test]
fn test_to_bits_le_with_top_bits_zero() {
    // A value below 2^4 decomposes into 4 bits with a zero remainder.
    let mut cs = ConstraintSystem::new();
    let x = FpVar::new_variable(&mut cs, Some(Fp::new(13)), AllocationMode::Witness).unwrap();
    let (bits, rest) = x.to_bits_le_with_top_bits_zero(&mut cs, 4).unwrap();
    assert_eq!(bits.len(), 4);
    assert_eq!(reconstruct(&bits), 13);
    assert_eq!(rest.value().unwrap().as_u64(), 0);
    assert!(cs.is_satisfied().unwrap());
}

#[test]
fn test_to_bits_le_with_top_bits_zero_overflow_detected() {
    // A value needing more bits than requested leaves a nonzero
    // remainder, and the zero-remainder assertion is unsatisfiable.
    let mut cs = ConstraintSystem::new();
    let x = FpVar::new_variable(&mut cs, Some(Fp::new(21)), AllocationMode::Witness).unwrap();
    let (_bits, rest) = x.to_bits_le_with_top_bits_zero(&mut cs, 4).unwrap();
    assert_ne!(rest.value().unwrap().as_u64(), 0);
    assert_eq!(cs.is_satisfied().unwrap(), false);
}

#[test]
fn test_conditionally_select() {
    let mut cs = ConstraintSystem::new();
    let t = AllocatedFp::new_witness(&mut cs, Some(Fp::new(10)));
    let f = AllocatedFp::new_witness(&mut cs, Some(Fp::new(20)));
    let cond = field_gadgets::boolean::new_boolean_variable(
        &mut cs,
        Some(true),
        AllocationMode::Witness,
    )
    .unwrap();
    let before = cs.num_constraints();
    let sel = AllocatedFp::conditionally_select(&mut cs, &cond, &t, &f).unwrap();
    assert_eq!(cs.num_constraints(), before + 1);
    assert_eq!(sel.value().unwrap().as_u64(), 10);
    let sel2 = AllocatedFp::conditionally_select(&mut cs, &cond.not(), &t, &f).unwrap();
    assert_eq!(sel2.value().unwrap().as_u64(), 20);
    assert!(cs.is_satisfied().unwrap());
}

#[test]
fn test_conditionally_select_constant_cond() {
    let mut cs = ConstraintSystem::new();
    let t = FpVar::Constant(Fp::new(10));
    let f = FpVar::Constant(Fp::new(20));
    let sel =
        FpVar::conditionally_select(&mut cs, &Boolean::Constant(false), &t, &f).unwrap();
    assert_eq!(cs.num_constraints(), 0);
    assert_eq!(sel.value().unwrap().as_u64(), 20);
}

#[test]
fn test_conditionally_select_constant_table() {
    // A variable selector over two constants mixes them linearly with no
    // multiplication constraint.
    let mut cs = ConstraintSystem::new();
    let cond = field_gadgets::boolean::new_boolean_variable(
        &mut cs,
        Some(true),
        AllocationMode::Witness,
    )
    .unwrap();
    let before = cs.num_constraints();
    let sel = FpVar::conditionally_select(
        &mut cs,
        &cond,
        &FpVar::Constant(Fp::new(30)),
        &FpVar::Constant(Fp::new(40)),
    )
    .unwrap();
    assert_eq!(cs.num_constraints(), before);
    assert_eq!(sel.value().unwrap().as_u64(), 30);
    assert!(cs.is_satisfied().unwrap());
}

#[test]
fn test_two_bit_lookup() {
    let table = vec![Fp::new(7), Fp::new(11), Fp::new(13), Fp::new(19)];
    for idx in 0..4usize {
        let mut cs = ConstraintSystem::new();
        let lsb = idx & 1 == 1;
        let msb = idx & 2 == 2;
        let b0 = field_gadgets::boolean::new_boolean_variable(
            &mut cs,
            Some(lsb),
            AllocationMode::Witness,
        )
        .unwrap();
        let b1 = field_gadgets::boolean::new_boolean_variable(
            &mut cs,
            Some(msb),
            AllocationMode::Witness,
        )
        .unwrap();
        let before = cs.num_constraints();
        let r = AllocatedFp::two_bit_lookup(&mut cs, &[b0, b1], &table).unwrap();
        assert_eq!(cs.num_constraints(), before + 1);
        assert_eq!(r.value().unwrap(), table[idx]);
        assert!(cs.is_satisfied().unwrap());
    }
}

#[test]
fn test_two_bit_lookup_constant_bits() {
    let table = vec![Fp::new(7), Fp::new(11), Fp::new(13), Fp::new(19)];
    let mut cs = ConstraintSystem::new();
    let r = FpVar::two_bit_lookup(
        &mut cs,
        &[Boolean::Constant(true), Boolean::Constant(true)],
        &table,
    )
    .unwrap();
    assert_eq!(cs.num_constraints(), 0);
    assert_eq!(r.value().unwrap(), table[3]);
}

#[test]
fn test_three_bit_cond_neg_lookup() {
    let table = vec![Fp::new(7), Fp::new(11), Fp::new(13), Fp::new(19)];
    for idx in 0..8usize {
        let mut cs = ConstraintSystem::new();
        let lsb = idx & 1 == 1;
        let msb = idx & 2 == 2;
        let neg = idx & 4 == 4;
        let b0 = field_gadgets::boolean::new_boolean_variable(
            &mut cs,
            Some(lsb),
            AllocationMode::Witness,
        )
        .unwrap();
        let b1 = field_gadgets::boolean::new_boolean_variable(
            &mut cs,
            Some(msb),
            AllocationMode::Witness,
        )
        .unwrap();
        let b2 = field_gadgets::boolean::new_boolean_variable(
            &mut cs,
            Some(neg),
            AllocationMode::Witness,
        )
        .unwrap();
        let b01 = field_gadgets::boolean::new_boolean_variable(
            &mut cs,
            Some(lsb && msb),
            AllocationMode::Witness,
        )
        .unwrap();
        let before = cs.num_constraints();
        let r =
            AllocatedFp::three_bit_cond_neg_lookup(&mut cs, &[b0, b1, b2], &b01, &table)
                .unwrap();
        assert_eq!(cs.num_constraints(), before + 1);
        let base = table[idx & 3];
        let expected = if neg { base.neg_fp() } else { base };
        assert_eq!(r.value().unwrap(), expected);
        assert!(cs.is_satisfied().unwrap());
    }
}

#[test]
fn test_to_bytes_round_trip() {
    let mut cs = ConstraintSystem::new();
    let x = AllocatedFp::new_witness(&mut cs, Some(Fp::new(100)));
    let bytes = x.to_bytes_le(&mut cs).unwrap();
    assert_eq!(bytes.len(), 1);
    assert_eq!(bytes[0].value().unwrap(), 100);
    let nb = x.to_non_unique_bytes_le(&mut cs).unwrap();
    assert_eq!(nb[0].value().unwrap(), 100);
    assert!(cs.is_satisfied().unwrap());
}

#[test]
fn test_prepared_point_bytes() {
    let mut cs = ConstraintSystem::new();
    let x = FpVar::new_variable(&mut cs, Some(Fp::new(21)), AllocationMode::Witness).unwrap();
    let y = FpVar::new_variable(&mut cs, Some(Fp::new(34)), AllocationMode::Witness).unwrap();
    let g = field_gadgets::bls12::G1AffineVar { x, y, infinity: Boolean::Constant(false) };
    let prepared = field_gadgets::bls12::G1PreparedVar::from_group_var(&g).unwrap();
    let bytes = prepared.to_bytes_le(&mut cs).unwrap();
    assert_eq!(bytes.len(), 3);
    assert_eq!(bytes[0].value().unwrap(), 21);
    assert_eq!(bytes[1].value().unwrap(), 34);
    assert_eq!(bytes[2].value().unwrap(), 0);
    assert!(cs.is_satisfied().unwrap());
}
