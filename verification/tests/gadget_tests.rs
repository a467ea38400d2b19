use field_gadgets::boolean::Boolean;
use field_gadgets::cs::ConstraintSystem;
use field_gadgets::field::Fp;
use field_gadgets::field_element::{AllocationMode, FpVar};
use field_gadgets::fp_var::AllocatedFp;
use field_gadgets::SynthesisError;

fn modes() -> Vec<AllocationMode> {
    vec![AllocationMode::Constant, AllocationMode::Input, AllocationMode::Witness]
}

fn sample(i: u64) -> Fp {
    Fp::new(i * 17 + 3)
}

#[test]
fn test_inner_product() {
    let mut cs = ConstraintSystem::new();

    for a_mode in modes() {
        for b_mode in modes() {
            let mut a: Vec<FpVar> = Vec::new();
            for i in 0..10u64 {
                a.push(
                    FpVar::new_variable(&mut cs, Some(sample(i)), a_mode).unwrap(),
                );
            }
            let mut b: Vec<FpVar> = Vec::new();
            for i in 0..10u64 {
                b.push(
                    FpVar::new_variable(&mut cs, Some(sample(i + 10)), b_mode).unwrap(),
                );
            }
            a.extend_from_slice(&b);
            let b: Vec<FpVar> = a.iter().rev().cloned().collect();
            let inner_product = FpVar::inner_product(&mut cs, &a, &b).unwrap();
            let mut expected = Fp::zero();
            for (x, y) in a.iter().zip(b.iter()) {
                expected =
                    expected.add_fp(&x.value().unwrap().mul_fp(&y.value().unwrap()));
            }
            assert_eq!(inner_product.value().unwrap(), expected);
            inner_product
                .enforce_equal(&mut cs, &FpVar::Constant(expected))
                .unwrap();

            assert!(cs.is_satisfied().unwrap());
        }
    }
}

#[test]
fn test_sum_fpvar() {
    let mut cs = ConstraintSystem::new();

    for a_mode in modes() {
        for b_mode in modes() {
            let mut v: Vec<FpVar> = Vec::new();
            for i in 0..10u64 {
                v.push(
                    FpVar::new_variable(&mut cs, Some(sample(i)), a_mode).unwrap(),
                );
            }
            for i in 0..10u64 {
                v.push(
                    FpVar::new_variable(&mut cs, Some(sample(i + 10)), b_mode).unwrap(),
                );
            }
            let sum = FpVar::sum(&mut cs, &v);

            let mut sum_expected = Fp::zero();
            for x in v.iter() {
                sum_expected = sum_expected.add_fp(&x.value().unwrap());
            }
            sum.enforce_equal(&mut cs, &FpVar::Constant(sum_expected)).unwrap();

            assert!(cs.is_satisfied().unwrap());
            assert_eq!(sum.value().unwrap(), sum_expected);
        }
    }
}

#[test]
fn test_constant_folding_registers_nothing() {
    let mut cs = ConstraintSystem::new();
    let a = FpVar::Constant(Fp::new(4));
    let b = FpVar::Constant(Fp::new(5));
    let s = a.add(&mut cs, &b);
    let p = a.mul(&mut cs, &b);
    let e = a.is_eq(&mut cs, &b).unwrap();
    assert_eq!(s.value().unwrap(), Fp::new(9));
    assert_eq!(p.value().unwrap(), Fp::new(20));
    assert_eq!(e.value().unwrap(), false);
    assert_eq!(cs.num_constraints(), 0);
    assert_eq!(cs.num_lcs(), 0);
}

#[test]
fn test_add_many_registers_one_combination() {
    let mut cs = ConstraintSystem::new();
    let mut elems: Vec<AllocatedFp> = Vec::new();
    for i in 0..10u64 {
        elems.push(AllocatedFp::new_witness(&mut cs, Some(sample(i))));
    }
    let lcs_before = cs.num_lcs();
    let constraints_before = cs.num_constraints();
    let sum = AllocatedFp::add_many(&mut cs, &elems).unwrap();
    assert_eq!(cs.num_lcs(), lcs_before + 1);
    assert_eq!(cs.num_constraints(), constraints_before);
    let mut expected = Fp::zero();
    for i in 0..10u64 {
        expected = expected.add_fp(&sample(i));
    }
    assert_eq!(sum.value().unwrap(), expected);
}

#[test]
fn test_linear_combination_registers_one_combination() {
    let mut cs = ConstraintSystem::new();
    let vars = vec![
        AllocatedFp::new_witness(&mut cs, Some(Fp::new(4))),
        AllocatedFp::new_witness(&mut cs, Some(Fp::new(5))),
    ];
    let coeffs = vec![Fp::new(2), Fp::new(3)];
    let lcs_before = cs.num_lcs();
    let constraints_before = cs.num_constraints();
    let r = AllocatedFp::linear_combination(&mut cs, &coeffs, &vars).unwrap();
    assert_eq!(cs.num_lcs(), lcs_before + 1);
    assert_eq!(cs.num_constraints(), constraints_before);
    assert_eq!(r.value().unwrap(), Fp::new(23)); // 2*4 + 3*5
}

#[test]
fn test_mul_costs_exactly_one_constraint() {
    let mut cs = ConstraintSystem::new();
    let a = AllocatedFp::new_witness(&mut cs, Some(Fp::new(6)));
    let b = AllocatedFp::new_witness(&mut cs, Some(Fp::new(7)));
    let before = cs.num_constraints();
    let p = a.mul(&mut cs, &b);
    assert_eq!(cs.num_constraints(), before + 1);
    assert_eq!(p.value().unwrap(), Fp::new(42));
    assert!(cs.is_satisfied().unwrap());
}

#[test]
fn test_mul_by_constant_costs_nothing() {
    let mut cs = ConstraintSystem::new();
    let a = FpVar::new_variable(&mut cs, Some(Fp::new(6)), AllocationMode::Witness).unwrap();
    let c = FpVar::Constant(Fp::new(7));
    let before = cs.num_constraints();
    let p = a.mul(&mut cs, &c);
    assert_eq!(cs.num_constraints(), before);
    assert_eq!(p.value().unwrap(), Fp::new(42));
}

#[test]
fn test_inner_product_scenario_variables() {
    // Two witness field elements 3 and 5: the inner product is 15 and
    // costs exactly one multiplicative constraint.
    let mut cs = ConstraintSystem::new();
    let a = FpVar::new_variable(&mut cs, Some(Fp::new(3)), AllocationMode::Witness).unwrap();
    let b = FpVar::new_variable(&mut cs, Some(Fp::new(5)), AllocationMode::Witness).unwrap();
    let before = cs.num_constraints();
    let ip = FpVar::inner_product(&mut cs, &[a], &[b]).unwrap();
    assert_eq!(cs.num_constraints(), before + 1);
    assert_eq!(ip.value().unwrap(), Fp::new(15));
    assert!(cs.is_satisfied().unwrap());
}

#[test]
fn test_inner_product_scenario_constant_side() {
    // With one constant operand no multiplicative constraint is paid.
    let mut cs = ConstraintSystem::new();
    let a = FpVar::Constant(Fp::new(3));
    let b = FpVar::new_variable(&mut cs, Some(Fp::new(5)), AllocationMode::Witness).unwrap();
    let before = cs.num_constraints();
    let ip = FpVar::inner_product(&mut cs, &[a], &[b]).unwrap();
    assert_eq!(cs.num_constraints(), before);
    assert_eq!(ip.value().unwrap(), Fp::new(15));
    assert!(cs.is_satisfied().unwrap());
}

#[test]
fn test_inner_product_length_mismatch_is_unsatisfiable_error() {
    let mut cs = ConstraintSystem::new();
    let a = FpVar::Constant(Fp::new(3));
    let r = FpVar::inner_product(&mut cs, &[a], &[]);
    assert_eq!(r.unwrap_err(), SynthesisError::Unsatisfiable);
}

#[test]
fn test_is_neq_scenario() {
    // Allocate 7 as a witness and compare against the constant 7: the
    // bit is false and the system stays satisfiable.
    let mut cs = ConstraintSystem::new();
    let x = AllocatedFp::new_witness(&mut cs, Some(Fp::new(7)));
    let c = AllocatedFp::new_constant(&mut cs, Fp::new(7));
    let neq = x.is_neq(&mut cs, &c).unwrap();
    assert_eq!(neq.value().unwrap(), false);
    assert!(cs.is_satisfied().unwrap());
}

#[test]
fn test_is_neq_unequal() {
    let mut cs = ConstraintSystem::new();
    let x = AllocatedFp::new_witness(&mut cs, Some(Fp::new(7)));
    let y = AllocatedFp::new_witness(&mut cs, Some(Fp::new(9)));
    let neq = x.is_neq(&mut cs, &y).unwrap();
    assert_eq!(neq.value().unwrap(), true);
    assert!(cs.is_satisfied().unwrap());
}

#[test]
fn test_is_eq_both_branches() {
    let mut cs = ConstraintSystem::new();
    let x = FpVar::new_variable(&mut cs, Some(Fp::new(11)), AllocationMode::Witness).unwrap();
    let y = FpVar::new_variable(&mut cs, Some(Fp::new(11)), AllocationMode::Witness).unwrap();
    let z = FpVar::new_variable(&mut cs, Some(Fp::new(12)), AllocationMode::Witness).unwrap();
    let eq = x.is_eq(&mut cs, &y).unwrap();
    let ne = x.is_eq(&mut cs, &z).unwrap();
    assert_eq!(eq.value().unwrap(), true);
    assert_eq!(ne.value().unwrap(), false);
    assert!(cs.is_satisfied().unwrap());
}

#[test]
fn test_inverse_scenario_zero_is_unsatisfiable() {
    // Inverting a zero witness encodes 0 * 0 = 1: the system is
    // unsatisfiable when checked.
    let mut cs = ConstraintSystem::new();
    let x = AllocatedFp::new_witness(&mut cs, Some(Fp::new(0)));
    let _ = x.inverse(&mut cs).unwrap();
    assert_eq!(cs.is_satisfied().unwrap(), false);
}

#[test]
fn test_inverse_nonzero_satisfiable() {
    let mut cs = ConstraintSystem::new();
    let x = AllocatedFp::new_witness(&mut cs, Some(Fp::new(3)));
    let inv = x.inverse(&mut cs).unwrap();
    assert_eq!(inv.value().unwrap().mul_fp(&Fp::new(3)).as_u64(), 1);
    assert!(cs.is_satisfied().unwrap());
}

#[test]
fn test_missing_witness_error() {
    let mut cs = ConstraintSystem::new();
    let x = AllocatedFp::new_witness(&mut cs, None);
    assert_eq!(x.value().unwrap_err(), SynthesisError::MissingWitness);
    let r = FpVar::new_variable(&mut cs, None, AllocationMode::Constant);
    assert_eq!(r.unwrap_err(), SynthesisError::MissingWitness);
    assert_eq!(cs.is_satisfied().unwrap_err(), SynthesisError::MissingWitness);
}

#[test]
fn test_setup_mode_witness_propagation() {
    // Without witnesses the result value is absent, not an error, and
    // the circuit shape is still built.
    let mut cs = ConstraintSystem::new();
    let a = AllocatedFp::new_witness(&mut cs, None);
    let b = AllocatedFp::new_witness(&mut cs, Some(Fp::new(5)));
    let s = a.add(&mut cs, &b);
    assert_eq!(s.value().unwrap_err(), SynthesisError::MissingWitness);
    let before = cs.num_constraints();
    let p = a.mul(&mut cs, &b);
    assert_eq!(cs.num_constraints(), before + 1);
    assert_eq!(p.value().unwrap_err(), SynthesisError::MissingWitness);
}

#[test]
fn test_enforce_equal_detects_mismatch() {
    let mut cs = ConstraintSystem::new();
    let x = FpVar::new_variable(&mut cs, Some(Fp::new(8)), AllocationMode::Witness).unwrap();
    x.enforce_equal(&mut cs, &FpVar::Constant(Fp::new(8))).unwrap();
    assert!(cs.is_satisfied().unwrap());
    x.enforce_equal(&mut cs, &FpVar::Constant(Fp::new(9))).unwrap();
    assert_eq!(cs.is_satisfied().unwrap(), false);
}

#[test]
fn test_conditional_enforce_equal_selector() {
    let mut cs = ConstraintSystem::new();
    let x = AllocatedFp::new_witness(&mut cs, Some(Fp::new(5)));
    let y = AllocatedFp::new_witness(&mut cs, Some(Fp::new(6)));
    // A false selector makes the mismatched assertion vacuous.
    x.conditional_enforce_equal(&mut cs, &y, &Boolean::Constant(false)).unwrap();
    assert!(cs.is_satisfied().unwrap());
    // A true selector on mismatched values is unsatisfiable.
    x.conditional_enforce_equal(&mut cs, &y, &Boolean::Constant(true)).unwrap();
    assert_eq!(cs.is_satisfied().unwrap(), false);
}

#[test]
fn test_conditional_enforce_not_equal_selector() {
    let mut cs = ConstraintSystem::new();
    let x = AllocatedFp::new_witness(&mut cs, Some(Fp::new(5)));
    let y = AllocatedFp::new_witness(&mut cs, Some(Fp::new(6)));
    x.conditional_enforce_not_equal(&mut cs, &y, &Boolean::Constant(true)).unwrap();
    assert!(cs.is_satisfied().unwrap());
    let z = AllocatedFp::new_witness(&mut cs, Some(Fp::new(5)));
    x.conditional_enforce_not_equal(&mut cs, &z, &Boolean::Constant(true)).unwrap();
    assert_eq!(cs.is_satisfied().unwrap(), false);
}

#[test]
fn test_mul_equals_both_outcomes() {
    let mut cs = ConstraintSystem::new();
    let a = FpVar::new_variable(&mut cs, Some(Fp::new(3)), AllocationMode::Witness).unwrap();
    let b = FpVar::new_variable(&mut cs, Some(Fp::new(5)), AllocationMode::Witness).unwrap();
    let good = FpVar::new_variable(&mut cs, Some(Fp::new(15)), AllocationMode::Witness).unwrap();
    a.mul_equals(&mut cs, &b, &good).unwrap();
    assert!(cs.is_satisfied().unwrap());
    let bad = FpVar::new_variable(&mut cs, Some(Fp::new(14)), AllocationMode::Witness).unwrap();
    a.mul_equals(&mut cs, &b, &bad).unwrap();
    assert_eq!(cs.is_satisfied().unwrap(), false);
}

#[test]
fn test_square_and_square_equals() {
    let mut cs = ConstraintSystem::new();
    let a = FpVar::new_variable(&mut cs, Some(Fp::new(12)), AllocationMode::Witness).unwrap();
    let sq = a.square(&mut cs).unwrap();
    assert_eq!(sq.value().unwrap(), Fp::new(144)); // reduced: 17
    assert_eq!(sq.value().unwrap().as_u64(), 17);
    let expected = FpVar::Constant(Fp::new(17));
    a.square_equals(&mut cs, &expected).unwrap();
    assert!(cs.is_satisfied().unwrap());
}

#[test]
fn test_negate_double_sub() {
    let mut cs = ConstraintSystem::new();
    let a = FpVar::new_variable(&mut cs, Some(Fp::new(60)), AllocationMode::Witness).unwrap();
    let n = a.negate(&mut cs).unwrap();
    assert_eq!(n.value().unwrap().as_u64(), 67);
    let d = a.double(&mut cs).unwrap();
    assert_eq!(d.value().unwrap().as_u64(), 120);
    let b = FpVar::Constant(Fp::new(70));
    let s = a.sub(&mut cs, &b);
    assert_eq!(s.value().unwrap().as_u64(), 117); // 60 - 70 mod 127
    let s2 = b.sub(&mut cs, &a);
    assert_eq!(s2.value().unwrap().as_u64(), 10);
    assert!(cs.is_satisfied().unwrap());
}

#[test]
fn test_frobenius_map_is_identity() {
    let mut cs = ConstraintSystem::new();
    let a = FpVar::new_variable(&mut cs, Some(Fp::new(44)), AllocationMode::Witness).unwrap();
    let f = a.frobenius_map(3).unwrap();
    assert_eq!(f.value().unwrap(), Fp::new(44));
    let mut g = a;
    g.frobenius_map_in_place(5).unwrap();
    assert_eq!(g.value().unwrap(), Fp::new(44));
}

#[test]
fn test_boolean_not_and_value() {
    let t = Boolean::Constant(true);
    assert_eq!(t.value().unwrap(), true);
    assert_eq!(t.not().value().unwrap(), false);
    let mut cs = ConstraintSystem::new();
    let b = field_gadgets::boolean::new_boolean_variable(
        &mut cs,
        Some(true),
        AllocationMode::Witness,
    )
    .unwrap();
    assert_eq!(b.value().unwrap(), true);
    assert_eq!(b.not().value().unwrap(), false);
    assert!(cs.is_satisfied().unwrap());
}

#[test]
fn test_from_boolean() {
    let mut cs = ConstraintSystem::new();
    let b = field_gadgets::boolean::new_boolean_variable(
        &mut cs,
        Some(true),
        AllocationMode::Witness,
    )
    .unwrap();
    let e = FpVar::from(&mut cs, b);
    assert_eq!(e.value().unwrap().as_u64(), 1);
    let f = FpVar::from(&mut cs, b.not());
    assert_eq!(f.value().unwrap().as_u64(), 0);
    assert!(cs.is_satisfied().unwrap());
}

#[test]
fn test_to_constraint_field() {
    let a = FpVar::Constant(Fp::new(5));
    let v = a.to_constraint_field();
    assert_eq!(v.len(), 1);
    assert_eq!(v[0].value().unwrap(), Fp::new(5));
}

#[test]
fn test_sum_all_constants_touches_nothing() {
    let mut cs = ConstraintSystem::new();
    let v = vec![
        FpVar::Constant(Fp::new(10)),
        FpVar::Constant(Fp::new(20)),
        FpVar::Constant(Fp::new(30)),
    ];
    let s = FpVar::sum(&mut cs, &v);
    assert_eq!(cs.num_constraints(), 0);
    assert_eq!(cs.num_lcs(), 0);
    assert!(s.is_constant());
    assert_eq!(s.value().unwrap().as_u64(), 60);
}

#[test]
fn test_inner_product_all_constants() {
    let mut cs = ConstraintSystem::new();
    let a = vec![FpVar::Constant(Fp::new(2)), FpVar::Constant(Fp::new(3))];
    let b = vec![FpVar::Constant(Fp::new(4)), FpVar::Constant(Fp::new(5))];
    let ip = FpVar::inner_product(&mut cs, &a, &b).unwrap();
    assert_eq!(cs.num_constraints(), 0);
    assert!(ip.is_constant());
    assert_eq!(ip.value().unwrap().as_u64(), 23);
}

#[test]
fn test_mixed_inner_product_counts_variable_pairs() {
    let mut cs = ConstraintSystem::new();
    let v3 = FpVar::new_variable(&mut cs, Some(Fp::new(3)), AllocationMode::Witness).unwrap();
    let v5 = FpVar::new_variable(&mut cs, Some(Fp::new(5)), AllocationMode::Witness).unwrap();
    let a = vec![FpVar::Constant(Fp::new(2)), v3, v5];
    let b = vec![v5, FpVar::Constant(Fp::new(4)), v3];
    let before = cs.num_constraints();
    let ip = FpVar::inner_product(&mut cs, &a, &b).unwrap();
    // Only the one variable-variable pair pays a multiplication gate.
    assert_eq!(cs.num_constraints(), before + 1);
    assert_eq!(ip.value().unwrap().as_u64(), (2 * 5 + 3 * 4 + 5 * 3) % 127);
    assert!(cs.is_satisfied().unwrap());
}
