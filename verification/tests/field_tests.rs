use field_gadgets::field::Fp;
use field_gadgets::field::MODULUS;

#[test]
fn test_fp_arithmetic_basics() {
    let a = Fp::new(100);
    let b = Fp::new(50);
    assert_eq!(a.add_fp(&b).as_u64(), 23); // 150 mod 127
    assert_eq!(a.sub_fp(&b).as_u64(), 50);
    assert_eq!(b.sub_fp(&a).as_u64(), 77); // -50 mod 127
    assert_eq!(a.mul_fp(&b).as_u64(), 5000 % 127);
    assert_eq!(a.neg_fp().as_u64(), 27);
    assert_eq!(Fp::new(200).as_u64(), 73); // reduced on entry
    assert_eq!(Fp::zero().as_u64(), 0);
    assert_eq!(Fp::one().as_u64(), 1);
    assert!(Fp::zero().is_zero());
    assert!(Fp::one().is_one());
}

#[test]
fn test_fp_inverse_nonzero() {
    // Every nonzero residue has an inverse, and it multiplies back to one.
    let mut x: u64 = 1;
    while x < MODULUS {
        let e = Fp::new(x);
        let inv = e.inv_fp();
        assert_eq!(e.mul_fp(&inv).as_u64(), 1);
        x += 1;
    }
    // A concrete value: 3 * 85 = 255 = 2 * 127 + 1.
    assert_eq!(Fp::new(3).inv_fp().as_u64(), 85);
}

#[test]
fn test_fp_inverse_of_zero_is_zero() {
    assert_eq!(Fp::zero().inv_fp().as_u64(), 0);
}

#[test]
fn test_fp_double() {
    assert_eq!(Fp::new(100).double_fp().as_u64(), 73); // 200 mod 127
}
