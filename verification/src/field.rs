//! The prime field underlying the constraint system.
//!
//! The arithmetic domain is the field of integers modulo [`MODULUS`], a
//! Mersenne prime.  A Mersenne modulus keeps every product inside `u64`
//! and makes the canonical-form check of the bit-decomposition gadget a
//! single "not all bits set" condition.
//!
//! Spec-level arithmetic is expressed with [`f_add`], [`f_sub`], [`f_mul`],
//! [`f_neg`] and [`f_inv`] over `nat`, and the executable type [`Fp`]
//! carries one reduced residue.

use vstd::prelude::*;
use vstd::arithmetic::div_mod::{
    lemma_mod_add_multiples_vanish, lemma_mod_bound, lemma_mul_mod_noop_left,
    lemma_mul_mod_noop_right, lemma_small_mod,
};

verus! {

/// The field modulus: the Mersenne prime `2^7 - 1`.
pub const MODULUS: u64 = 127;

/// The number of bits needed to write any field element: `MODULUS < 2^7`.
pub const MODULUS_BITS: usize = 7;

/// Reduction of an arbitrary integer into the canonical residue range.
pub open spec fn fmod(x: int) -> nat {
    (x % (MODULUS as int)) as nat
}

/// Field addition on residues.
pub open spec fn f_add(a: nat, b: nat) -> nat {
    fmod((a + b) as int)
}

/// Field subtraction on residues.
pub open spec fn f_sub(a: nat, b: nat) -> nat {
    fmod(a - b)
}

/// Field multiplication on residues.
pub open spec fn f_mul(a: nat, b: nat) -> nat {
    fmod((a * b) as int)
}

/// Field negation on residues.
pub open spec fn f_neg(a: nat) -> nat {
    fmod(0 - a)
}

/// `y` is the multiplicative inverse of `a`.
pub open spec fn is_inverse_of(y: nat, a: nat) -> bool {
    y < MODULUS && (a * y) % (MODULUS as nat) == 1
}

/// The multiplicative inverse of `a`, or `0` when `a` reduces to the
/// additive identity (which has no inverse).
pub open spec fn f_inv(a: nat) -> nat {
    if fmod(a as int) == 0 {
        0
    } else {
        choose|y: nat| is_inverse_of(y, a)
    }
}

/// One field element, kept reduced.
#[derive(Clone, Copy, Debug, PartialEq, Eq, Structural)]
pub struct Fp {
    v: u64,
}

impl View for Fp {
    type V = nat;

    closed spec fn view(&self) -> nat {
        self.v as nat
    }
}

impl Fp {
    /// The element is a canonical residue.
    pub open spec fn valid(&self) -> bool {
        self@ < MODULUS as nat
    }

    /// Builds the element representing `x` modulo [`MODULUS`].
    pub fn new(x: u64) -> (r: Fp)
        ensures
            r@ == fmod(x as int),
            r.valid(),
    {
        proof {
            lemma_mod_bound(x as int, MODULUS as int);
        }
        Fp { v: x % MODULUS }
    }

    /// The additive identity.
    pub fn zero() -> (r: Fp)
        ensures
            r@ == 0,
            r.valid(),
    {
        Fp { v: 0 }
    }

    /// The multiplicative identity.
    pub fn one() -> (r: Fp)
        ensures
            r@ == 1,
            r.valid(),
    {
        Fp { v: 1 }
    }

    /// Reads the canonical residue.
    pub fn as_u64(&self) -> (r: u64)
        ensures
            r as nat == self@,
    {
        self.v
    }

    /// Whether the element is the additive identity.
    pub fn is_zero(&self) -> (r: bool)
        ensures
            r == (self@ == 0),
    {
        self.v == 0
    }

    /// Whether the element is the multiplicative identity.
    pub fn is_one(&self) -> (r: bool)
        ensures
            r == (self@ == 1),
    {
        self.v == 1
    }

    /// Field addition.
    pub fn add_fp(&self, other: &Fp) -> (r: Fp)
        requires
            self.valid(),
            other.valid(),
        ensures
            r@ == f_add(self@, other@),
            r.valid(),
    {
        proof {
            lemma_mod_bound((self.v + other.v) as int, MODULUS as int);
        }
        Fp { v: (self.v + other.v) % MODULUS }
    }

    /// Field subtraction.
    pub fn sub_fp(&self, other: &Fp) -> (r: Fp)
        requires
            self.valid(),
            other.valid(),
        ensures
            r@ == f_sub(self@, other@),
            r.valid(),
    {
        proof {
            lemma_mod_add_multiples_vanish(self@ as int - other@ as int, MODULUS as int);
            lemma_mod_bound((self.v + MODULUS - other.v) as int, MODULUS as int);
        }
        Fp { v: (self.v + MODULUS - other.v) % MODULUS }
    }

    /// Field multiplication.
    pub fn mul_fp(&self, other: &Fp) -> (r: Fp)
        requires
            self.valid(),
            other.valid(),
        ensures
            r@ == f_mul(self@, other@),
            r.valid(),
    {
        proof {
            assert(self.v * other.v <= 126 * 126) by (nonlinear_arith)
                requires
                    self.v <= 126,
                    other.v <= 126,
            ;
            lemma_mod_bound((self.v * other.v) as int, MODULUS as int);
        }
        Fp { v: (self.v * other.v) % MODULUS }
    }

    /// Field negation.
    pub fn neg_fp(&self) -> (r: Fp)
        requires
            self.valid(),
        ensures
            r@ == f_neg(self@),
            r.valid(),
    {
        proof {
            lemma_mod_add_multiples_vanish(0 - self@ as int, MODULUS as int);
            lemma_mod_bound((MODULUS - self.v) as int, MODULUS as int);
        }
        Fp { v: (MODULUS - self.v) % MODULUS }
    }

    /// Field doubling.
    pub fn double_fp(&self) -> (r: Fp)
        requires
            self.valid(),
        ensures
            r@ == f_add(self@, self@),
            r.valid(),
    {
        self.add_fp(self)
    }

    /// Field inversion: the multiplicative inverse of a nonzero element, or
    /// the additive identity for the additive identity.
    pub fn inv_fp(&self) -> (r: Fp)
        requires
            self.valid(),
        ensures
            r.valid(),
            r@ == f_inv(self@),
            self@ != 0 ==> is_inverse_of(r@, self@),
            self@ == 0 ==> r@ == 0,
    {
        if self.v == 0 {
            return Fp { v: 0 };
        }
        proof {
            lemma_fmod_small(self@);
        }
        let mut y: u64 = 1;
        while y < MODULUS
            invariant
                1 <= y <= MODULUS,
                self.valid(),
                self@ != 0,
                forall|z: nat| 0 < z < y ==> !is_inverse_of(z, self@),
            decreases MODULUS - y,
        {
            proof {
                assert(self.v * y <= 126 * 126) by (nonlinear_arith)
                    requires
                        self.v <= 126,
                        y <= 126,
                ;
            }
            if (self.v * y) % MODULUS == 1 {
                proof {
                    assert(is_inverse_of(y as nat, self@));
                    let w = choose|w: nat| is_inverse_of(w, self@);
                    crate::number_theory::lemma_inverse_unique(self@, y as nat, w);
                }
                return Fp { v: y };
            }
            proof {
                assert(!is_inverse_of(y as nat, self@));
            }
            y = y + 1;
        }
        proof {
            crate::number_theory::lemma_inverse_exists(self@);
            let z = choose|z: nat| is_inverse_of(z, self@);
            assert(z != 0) by {
                assert(self@ * 0 == 0);
            };
            assert(false);
        }
        Fp { v: 0 }
    }
}

/// The defining property of [`f_inv`] on nonzero residues.
pub proof fn lemma_f_inv_property(a: nat)
    requires
        0 < a < MODULUS as nat,
    ensures
        is_inverse_of(f_inv(a), a),
        (a * f_inv(a)) % (MODULUS as nat) == 1,
{
    lemma_fmod_small(a);
    crate::number_theory::lemma_inverse_exists(a);
    let z = choose|z: nat| is_inverse_of(z, a);
    assert(is_inverse_of(f_inv(a), a));
}

/// The element whose residue is `n`, at the specification level.
pub closed spec fn fp_of(n: nat) -> Fp {
    Fp { v: (n % (MODULUS as nat)) as u64 }
}

/// The residue of [`fp_of`].
pub proof fn lemma_fp_of(n: nat)
    ensures
        fp_of(n)@ == fmod(n as int),
        fp_of(n).valid(),
{
    lemma_mod_bound(n as int, MODULUS as int);
}

/// Two elements with the same residue are the same element.
pub proof fn lemma_fp_view_injective(a: Fp, b: Fp)
    requires
        a@ == b@,
    ensures
        a == b,
{
}

/// A reduced construction reads back its residue.
pub proof fn lemma_fp_of_small(n: nat)
    requires
        n < MODULUS as nat,
    ensures
        fp_of(n)@ == n,
        fp_of(n).valid(),
{
    lemma_fp_of(n);
    lemma_small_mod(n, MODULUS as nat);
}

/// Every field operation returns a canonical residue.
pub proof fn lemma_f_ops_bounded(a: nat, b: nat)
    ensures
        f_add(a, b) < MODULUS as nat,
        f_sub(a, b) < MODULUS as nat,
        f_mul(a, b) < MODULUS as nat,
        f_neg(a) < MODULUS as nat,
        f_inv(a) < MODULUS as nat,
{
    lemma_mod_bound((a + b) as int, MODULUS as int);
    lemma_mod_bound(a - b, MODULUS as int);
    lemma_mod_bound((a * b) as int, MODULUS as int);
    lemma_mod_bound(0 - a as int, MODULUS as int);
    if fmod(a as int) != 0 {
        if exists|y: nat| is_inverse_of(y, a) {
            let y = choose|y: nat| is_inverse_of(y, a);
            assert(f_inv(a) == y);
        } else {
            assert(f_inv(a) == (choose|y: nat| is_inverse_of(y, a)));
            assert(!is_inverse_of(f_inv(a), a));
            if f_inv(a) >= MODULUS as nat {
                assert(false) by {
                    lemma_mod_bound(a as int, MODULUS as int);
                    crate::number_theory::lemma_inverse_exists(fmod(a as int));
                    let z = choose|z: nat| is_inverse_of(z, fmod(a as int));
                    lemma_mul_mod_noop_right(a as int, fmod(a as int) as int, MODULUS as int);
                    assert((a * z) % (MODULUS as nat) == 1) by {
                        lemma_mul_mod_noop_left(a as int, z as int, MODULUS as int);
                        lemma_mul_mod_noop_left(fmod(a as int) as int, z as int, MODULUS as int);
                    };
                    assert(is_inverse_of(z, a));
                };
            }
        }
    }
}

/// Folding a reduced value into a sum on the left keeps the reduction.
pub proof fn lemma_f_add_fmod_left(x: int, d: nat)
    ensures
        f_add(fmod(x), d) == fmod(x + d),
{
    let p = MODULUS as int;
    vstd::arithmetic::div_mod::lemma_add_mod_noop(x, d as int, p);
    vstd::arithmetic::div_mod::lemma_add_mod_noop_right(fmod(x) as int, d as int, p);
    vstd::arithmetic::div_mod::lemma_mod_twice(x, p);
    vstd::arithmetic::div_mod::lemma_add_mod_noop_right(x, d as int, p);
}

/// Two-step folds reduce to the reduction of the raw sum.
pub proof fn lemma_f_add_unfold(a: nat, b: nat, c: nat)
    ensures
        f_add(f_add(a, b), c) == fmod((a + b + c) as int),
        f_add(a, f_add(b, c)) == fmod((a + b + c) as int),
{
    lemma_f_add_fmod_left((a + b) as int, c);
    lemma_f_add_fmod_left((b + c) as int, a);
    let p = MODULUS as int;
    vstd::arithmetic::div_mod::lemma_add_mod_noop_right(a as int, (b + c) as int, p);
    vstd::arithmetic::div_mod::lemma_add_mod_noop_right((b + c) as int, a as int, p);
    assert(f_add(a, f_add(b, c)) == fmod((a + (b + c)) as int));
}

/// Field addition associates.
pub proof fn lemma_f_add_assoc(a: nat, b: nat, c: nat)
    ensures
        f_add(f_add(a, b), c) == f_add(a, f_add(b, c)),
{
    lemma_f_add_unfold(a, b, c);
}

/// The additive identity is neutral.
pub proof fn lemma_f_add_zero(a: nat)
    requires
        a < MODULUS as nat,
    ensures
        f_add(a, 0) == a,
        f_add(0, a) == a,
{
    lemma_small_mod(a, MODULUS as nat);
}

/// Residues already below the modulus are fixed by reduction.
pub proof fn lemma_fmod_small(a: nat)
    requires
        a < MODULUS as nat,
    ensures
        fmod(a as int) == a,
{
    lemma_small_mod(a, MODULUS as nat);
}

} // verus!
