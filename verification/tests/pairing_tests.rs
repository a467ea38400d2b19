use field_gadgets::bls12::{
    Bls12Params, Fp2Val, Fp2Var, G1AffineVar, G1PreparedVar, G2AffineVar, G2PreparedVar,
    G2PreparedValue, TwistType,
};
use field_gadgets::boolean::Boolean;
use field_gadgets::cs::ConstraintSystem;
use field_gadgets::field::Fp;
use field_gadgets::field_element::{AllocationMode, FpVar};

fn params(x: u64, twist_type: TwistType) -> Bls12Params {
    Bls12Params { x, twist_type, nonresidue: Fp::new(3) }
}

fn witness_point(cs: &mut ConstraintSystem, x: (u64, u64), y: (u64, u64)) -> G2AffineVar {
    let xv = Fp2Var::new_variable(
        cs,
        Some(Fp2Val::new(Fp::new(x.0), Fp::new(x.1))),
        AllocationMode::Witness,
    )
    .unwrap();
    let yv = Fp2Var::new_variable(
        cs,
        Some(Fp2Val::new(Fp::new(y.0), Fp::new(y.1))),
        AllocationMode::Witness,
    )
    .unwrap();
    G2AffineVar { x: xv, y: yv, infinity: Boolean::Constant(false) }
}

#[test]
fn test_precompute_length_scenario() {
    // A loop parameter held in 64 bits with its leading storage bit clear
    // and Hamming weight 6: the coefficient sequence has (64 - 1) + 6
    // entries.
    let x: u64 = 0x4000_0000_0000_001F;
    assert_eq!(x.count_ones(), 6);
    let mut cs = ConstraintSystem::new();
    let q = witness_point(&mut cs, (2, 5), (9, 4));
    let prepared =
        G2PreparedVar::from_group_var(&mut cs, &q, &params(x, TwistType::D)).unwrap();
    assert_eq!(prepared.ell_coeffs.len(), 69);
}

#[test]
fn test_precompute_length_both_twists() {
    // One doubling step per scanned position plus one addition step per
    // set scanned bit, under either twist convention.
    let x: u64 = 0b1011; // weight 3, all bits scanned
    for twist in [TwistType::M, TwistType::D] {
        let mut cs = ConstraintSystem::new();
        let q = witness_point(&mut cs, (2, 5), (9, 4));
        let prepared = G2PreparedVar::from_group_var(&mut cs, &q, &params(x, twist)).unwrap();
        assert_eq!(prepared.ell_coeffs.len(), 63 + 3);
    }
}

#[test]
fn test_precompute_infinity_is_unsatisfiable() {
    // Preparing the identity violates the precondition: the emitted
    // constraint forcing the infinity flag low is unsatisfiable.
    let mut cs = ConstraintSystem::new();
    let inf = field_gadgets::boolean::new_boolean_variable(
        &mut cs,
        Some(true),
        AllocationMode::Witness,
    )
    .unwrap();
    let mut q = witness_point(&mut cs, (2, 5), (9, 4));
    q.infinity = inf;
    let _ = G2PreparedVar::from_group_var(&mut cs, &q, &params(0b10, TwistType::D)).unwrap();
    assert_eq!(cs.is_satisfied().unwrap(), false);
}

#[test]
fn test_g2_prepared_new_variable() {
    let mut cs = ConstraintSystem::new();
    let one2 = Fp2Val::new(Fp::new(1), Fp::new(0));
    let v = G2PreparedValue {
        ell_coeffs: vec![
            (Fp2Val::new(Fp::new(2), Fp::new(3)), Fp2Val::new(Fp::new(4), Fp::new(5)), one2),
            (one2, Fp2Val::new(Fp::new(6), Fp::new(7)), Fp2Val::new(Fp::new(8), Fp::new(9))),
        ],
    };
    let p = G2PreparedVar::new_variable(
        &mut cs,
        &v,
        &params(0b10, TwistType::M),
        AllocationMode::Witness,
    )
    .unwrap();
    assert_eq!(p.ell_coeffs.len(), 2);
    // Normalizing by the unit divisor leaves the coefficients as given.
    let first = &p.ell_coeffs[0];
    assert_eq!(first.0.value().unwrap(), Fp2Val::new(Fp::new(2), Fp::new(3)));
    assert_eq!(first.1.value().unwrap(), Fp2Val::new(Fp::new(4), Fp::new(5)));
}

#[test]
fn test_g1_prepared_value_round_trip() {
    let mut cs = ConstraintSystem::new();
    let x = FpVar::new_variable(&mut cs, Some(Fp::new(21)), AllocationMode::Witness).unwrap();
    let y = FpVar::new_variable(&mut cs, Some(Fp::new(34)), AllocationMode::Witness).unwrap();
    let g = G1AffineVar { x, y, infinity: Boolean::Constant(false) };
    let prepared = G1PreparedVar::from_group_var(&g).unwrap();
    let value = prepared.value().unwrap();
    assert_eq!(value.x, Fp::new(21));
    assert_eq!(value.y, Fp::new(34));
    assert_eq!(value.infinity, false);
}

#[test]
fn test_fp2_arithmetic_values() {
    // (1 + 2u)(3 + 4u) over u^2 = 3: c0 = 3 + 3*8 = 27, c1 = 4 + 6 = 10.
    let nr = Fp::new(3);
    let a = Fp2Val::new(Fp::new(1), Fp::new(2));
    let b = Fp2Val::new(Fp::new(3), Fp::new(4));
    let p = a.mul_val(&b, &nr);
    assert_eq!(p.c0, Fp::new(27));
    assert_eq!(p.c1, Fp::new(10));
    // The inverse multiplies back to one.
    let inv = a.inv_val(&nr);
    let back = a.mul_val(&inv, &nr);
    assert_eq!(back.c0, Fp::new(1));
    assert_eq!(back.c1, Fp::new(0));
}

#[test]
fn test_fp2_var_inverse_satisfiable() {
    let mut cs = ConstraintSystem::new();
    let p = params(0b10, TwistType::D);
    let a = Fp2Var::new_variable(
        &mut cs,
        Some(Fp2Val::new(Fp::new(5), Fp::new(9))),
        AllocationMode::Witness,
    )
    .unwrap();
    let _inv = a.inverse(&mut cs, &p).unwrap();
    assert!(cs.is_satisfied().unwrap());
}

#[test]
fn test_g2_prepared_new_variable_divisive_twist() {
    let mut cs = ConstraintSystem::new();
    let one2 = Fp2Val::new(Fp::new(1), Fp::new(0));
    let v = G2PreparedValue {
        ell_coeffs: vec![
            (one2, Fp2Val::new(Fp::new(2), Fp::new(3)), Fp2Val::new(Fp::new(4), Fp::new(5))),
        ],
    };
    let p = G2PreparedVar::new_variable(
        &mut cs,
        &v,
        &params(0b10, TwistType::D),
        AllocationMode::Witness,
    )
    .unwrap();
    assert_eq!(p.ell_coeffs.len(), 1);
    let first = &p.ell_coeffs[0];
    assert_eq!(first.0.value().unwrap(), Fp2Val::new(Fp::new(2), Fp::new(3)));
    assert_eq!(first.1.value().unwrap(), Fp2Val::new(Fp::new(4), Fp::new(5)));
}

#[test]
fn test_g1_prepared_new_variable() {
    let mut cs = ConstraintSystem::new();
    let value = field_gadgets::bls12::G1PreparedValue {
        x: Fp::new(21),
        y: Fp::new(34),
        infinity: false,
    };
    let p = G1PreparedVar::new_variable(&mut cs, value, AllocationMode::Witness).unwrap();
    let back = p.value().unwrap();
    assert_eq!(back.x, Fp::new(21));
    assert_eq!(back.y, Fp::new(34));
    assert_eq!(back.infinity, false);
    assert!(cs.is_satisfied().unwrap());
}
