//! Number-theoretic groundwork for the field layer.
//!
//! The executable inversion routine and the soundness argument of the
//! equality gadget both rest on the modulus being prime: every nonzero
//! residue has a multiplicative inverse, the inverse is unique, and a
//! product can only vanish when one of its factors does.  Those facts are
//! derived here from the Euclidean algorithm and the Bezout identity.

use vstd::prelude::*;
use vstd::arithmetic::div_mod::{
    lemma_add_mod_noop, lemma_fundamental_div_mod, lemma_mod_bound,
    lemma_mod_multiples_vanish, lemma_mul_mod_noop_left, lemma_mul_mod_noop_right,
    lemma_small_mod,
};
use vstd::arithmetic::mul::{lemma_mul_is_commutative, lemma_mul_is_distributive_sub_other_way};
use crate::field::{is_inverse_of, MODULUS};

verus! {

/// The greatest common divisor, by the Euclidean algorithm.
pub open spec fn gcd(a: nat, b: nat) -> nat
    decreases b,
{
    if b == 0 {
        a
    } else {
        gcd(b, a % b)
    }
}

/// `u` and `v` witness the Bezout identity for `a` and `b`.
pub open spec fn is_bezout(u: int, v: int, a: nat, b: nat) -> bool {
    u * a + v * b == gcd(a, b)
}

/// No integer strictly between `1` and `p` divides `p`.
pub open spec fn is_prime(p: nat) -> bool {
    p >= 2 && forall|d: nat| 1 < d < p ==> #[trigger] (p % d) != 0
}

/// A multiple of a divisor plus another multiple is again a multiple.
proof fn lemma_divides_combination(g: nat, b: nat, r: nat, k: nat)
    requires
        g > 0,
        b % g == 0,
        r % g == 0,
    ensures
        (k * b + r) % g == 0,
{
    lemma_mul_mod_noop_right(k as int, b as int, g as int);
    lemma_small_mod(0, g);
    lemma_add_mod_noop((k * b) as int, r as int, g as int);
}

/// The gcd divides both of its arguments.
pub proof fn lemma_gcd_divides(a: nat, b: nat)
    requires
        gcd(a, b) > 0,
    ensures
        a % gcd(a, b) == 0,
        b % gcd(a, b) == 0,
    decreases b,
{
    let g = gcd(a, b);
    if b == 0 {
        lemma_small_mod(0, g);
        if a > 0 {
            assert(a % g == 0) by {
                assert(g == a);
                assert(a % a == 0) by {
                    lemma_mod_multiples_vanish(1, 0, a as int);
                };
            };
        }
    } else {
        let r = a % b;
        lemma_gcd_divides(b, r);
        lemma_fundamental_div_mod(a as int, b as int);
        lemma_divides_combination(g, b, r, (a / b) as nat);
        assert((a / b) * b + r == a);
    }
}

/// The gcd of two numbers, not both zero, is positive.
pub proof fn lemma_gcd_positive(a: nat, b: nat)
    requires
        a > 0 || b > 0,
    ensures
        gcd(a, b) > 0,
    decreases b,
{
    if b > 0 {
        lemma_mod_bound(a as int, b as int);
        lemma_gcd_positive(b, a % b);
    }
}

/// The Bezout identity: the gcd is an integer combination of its arguments.
pub proof fn lemma_bezout(a: nat, b: nat)
    ensures
        exists|u: int, v: int| is_bezout(u, v, a, b),
    decreases b,
{
    if b == 0 {
        assert(is_bezout(1, 0, a, b));
    } else {
        let r = a % b;
        lemma_bezout(b, r);
        let (u2, v2) = choose|u: int, v: int| is_bezout(u, v, b, r);
        let q = a / b;
        lemma_fundamental_div_mod(a as int, b as int);
        assert(r == a - q * b);
        let u = v2;
        let v = u2 - v2 * q;
        assert(u * a + v * b == gcd(a, b)) by {
            assert(gcd(a, b) == gcd(b, r));
            assert(u2 * b + v2 * r == gcd(b, r));
            assert(v2 * (a - q * b) == v2 * a - v2 * (q * b)) by {
                lemma_mul_is_distributive_sub_other_way(v2, a as int, (q * b) as int);
                lemma_mul_is_commutative(v2, a as int);
                lemma_mul_is_commutative(v2, (q * b) as int);
            };
            assert(v2 * (q * b) == (v2 * q) * b) by (nonlinear_arith);
            assert((u2 - v2 * q) * b == u2 * b - (v2 * q) * b) by {
                lemma_mul_is_distributive_sub_other_way(b as int, u2, v2 * q);
                lemma_mul_is_commutative(b as int, u2);
                lemma_mul_is_commutative(b as int, v2 * q);
                lemma_mul_is_commutative(b as int, u2 - v2 * q);
            };
        };
        assert(is_bezout(u, v, a, b));
    }
}

/// The modulus of the field layer is prime.
pub proof fn lemma_modulus_is_prime()
    ensures
        is_prime(MODULUS as nat),
{
    let p: nat = MODULUS as nat;
    assert forall|d: nat| 1 < d < p implies #[trigger] (p % d) != 0 by {
        if d < 12 {
            if d == 2 {
                assert(p % 2 != 0);
            } else if d == 3 {
                assert(p % 3 != 0);
            } else if d == 4 {
                assert(p % 4 != 0);
            } else if d == 5 {
                assert(p % 5 != 0);
            } else if d == 6 {
                assert(p % 6 != 0);
            } else if d == 7 {
                assert(p % 7 != 0);
            } else if d == 8 {
                assert(p % 8 != 0);
            } else if d == 9 {
                assert(p % 9 != 0);
            } else if d == 10 {
                assert(p % 10 != 0);
            } else {
                assert(p % 11 != 0);
            }
        } else {
            if p % d == 0 {
                let q = p / d;
                lemma_fundamental_div_mod(p as int, d as int);
                assert(q * d == p);
                assert(2 <= q <= 10) by (nonlinear_arith)
                    requires
                        q * d == 127,
                        12 <= d < 127,
                ;
                assert(p % q == 0) by {
                    vstd::arithmetic::div_mod::lemma_mod_multiples_basic(d as int, q as int);
                    assert(d * q == q * d) by (nonlinear_arith);
                };
                assert(false);
            }
        }
    };
}

/// Every residue in `(0, MODULUS)` has a multiplicative inverse.
pub proof fn lemma_inverse_exists(a: nat)
    requires
        0 < a < MODULUS as nat,
    ensures
        exists|y: nat| is_inverse_of(y, a),
{
    let p: nat = MODULUS as nat;
    let g = gcd(a, p);
    lemma_gcd_positive(a, p);
    lemma_gcd_divides(a, p);
    assert(g == 1) by {
        if g > a {
            lemma_small_mod(a, g);
        }
        lemma_modulus_is_prime();
        if 1 < g < p {
            assert(p % g != 0);
        }
    };
    lemma_bezout(a, p);
    let (u, v) = choose|u: int, v: int| is_bezout(u, v, a, p);
    assert(u * a + v * p == 1);
    assert((u * a) % (p as int) == 1) by {
        lemma_mod_multiples_vanish(-v, 1, p as int);
        assert(p * (-v) + 1 == u * a) by (nonlinear_arith)
            requires
                u * a + v * p == 1,
        ;
        lemma_small_mod(1, p);
    };
    let y = u % (p as int);
    lemma_mod_bound(u, p as int);
    assert((a * (y as nat)) % p == 1) by {
        lemma_mul_mod_noop_right(a as int, u, p as int);
        lemma_mul_is_commutative(u, a as int);
    };
    assert(is_inverse_of(y as nat, a));
}

/// Multiplicative inverses are unique.
pub proof fn lemma_inverse_unique(a: nat, y1: nat, y2: nat)
    requires
        is_inverse_of(y1, a),
        is_inverse_of(y2, a),
    ensures
        y1 == y2,
{
    let p: nat = MODULUS as nat;
    assert(((y1 * (a * y2)) as int) % (p as int) == (y1 as int) % (p as int)) by {
        lemma_mul_mod_noop_right(y1 as int, (a * y2) as int, p as int);
    };
    assert(y1 * (a * y2) == (a * y1) * y2) by (nonlinear_arith);
    assert((((a * y1) * y2) as int) % (p as int) == (y2 as int) % (p as int)) by {
        lemma_mul_mod_noop_left((a * y1) as int, y2 as int, p as int);
    };
    lemma_small_mod(y1, p);
    lemma_small_mod(y2, p);
}

/// A product of residues vanishes only when one factor does: the modulus
/// is prime, so the ring of residues has no zero divisors.
pub proof fn lemma_zero_product(a: nat, b: nat)
    requires
        (a * b) % (MODULUS as nat) == 0,
        a % (MODULUS as nat) != 0,
    ensures
        b % (MODULUS as nat) == 0,
{
    let p: nat = MODULUS as nat;
    let a0 = a % p;
    lemma_mod_bound(a as int, p as int);
    lemma_inverse_exists(a0);
    let y = choose|y: nat| is_inverse_of(y, a0);
    assert((a0 * b) % p == 0) by {
        lemma_mul_mod_noop_left(a as int, b as int, p as int);
    };
    assert(((y * (a0 * b)) as int) % (p as int) == 0) by {
        lemma_mul_mod_noop_right(y as int, (a0 * b) as int, p as int);
        lemma_small_mod(0, p);
    };
    assert(y * (a0 * b) == (a0 * y) * b) by (nonlinear_arith);
    assert((((a0 * y) * b) as int) % (p as int) == (b as int) % (p as int)) by {
        lemma_mul_mod_noop_left((a0 * y) as int, b as int, p as int);
    };
}

} // verus!
