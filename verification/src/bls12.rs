//! Pairing precomputation for BLS-family curves.
//!
//! The Miller-loop line-coefficient generator scans the curve's fixed
//! 64-bit loop parameter most-significant-bit first, skipping the leading
//! storage bit: every position pays one doubling step, and every set bit
//! additionally pays one addition step against the original point.  Each
//! step derives a slope through one field inversion and emits one
//! coefficient pair, ordered by the curve's twist type.  The accumulator
//! point lives over the quadratic extension of the base field, modelled
//! here as pairs of base-field elements with a configurable nonresidue.

use vstd::prelude::*;
use crate::bits::{bits_weight, nth_bit};
use crate::boolean::Boolean;
use crate::cs::{ConstraintSystem, LinComb, Variable};
use crate::field::{Fp, MODULUS};
use crate::field_element::{AllocationMode, FpVar};
use crate::SynthesisError;

verus! {

/// The two dual conventions for representing the twist of a
/// pairing-friendly curve; they swap which line coefficient is negated.
#[derive(Clone, Copy, Debug, PartialEq, Eq, Structural)]
pub enum TwistType {
    /// The multiplicative twist.
    M,
    /// The divisive twist.
    D,
}

/// The fixed data of a BLS-family curve that the precomputation reads:
/// the 64-bit loop parameter, the twist convention and the quadratic
/// nonresidue of the extension field.
#[derive(Clone, Copy, Debug)]
pub struct Bls12Params {
    /// The Miller-loop parameter, scanned bit by bit.
    pub x: u64,
    /// The twist convention.
    pub twist_type: TwistType,
    /// The quadratic nonresidue defining the extension field.
    pub nonresidue: Fp,
}

impl Bls12Params {
    /// The configuration carries a reduced nonresidue.
    pub open spec fn valid(&self) -> bool {
        self.nonresidue.valid()
    }
}

/// Componentwise addition of residue pairs.
pub open spec fn p2_add(a: (nat, nat), b: (nat, nat)) -> (nat, nat) {
    (crate::field::f_add(a.0, b.0), crate::field::f_add(a.1, b.1))
}

/// Componentwise subtraction of residue pairs.
pub open spec fn p2_sub(a: (nat, nat), b: (nat, nat)) -> (nat, nat) {
    (crate::field::f_sub(a.0, b.0), crate::field::f_sub(a.1, b.1))
}

/// Componentwise negation of a residue pair.
pub open spec fn p2_neg(a: (nat, nat)) -> (nat, nat) {
    (crate::field::f_neg(a.0), crate::field::f_neg(a.1))
}

/// Scaling of a residue pair by a base-field residue.
pub open spec fn p2_scale(a: (nat, nat), k: nat) -> (nat, nat) {
    (crate::field::f_mul(a.0, k), crate::field::f_mul(a.1, k))
}

/// Extension multiplication of residue pairs over the nonresidue.
pub open spec fn p2_mul(a: (nat, nat), b: (nat, nat), nr: nat) -> (nat, nat) {
    (
        crate::field::f_add(
            crate::field::f_mul(a.0, b.0),
            crate::field::f_mul(crate::field::f_mul(a.1, b.1), nr),
        ),
        crate::field::f_add(crate::field::f_mul(a.0, b.1), crate::field::f_mul(a.1, b.0)),
    )
}

/// Extension inversion of a residue pair over the nonresidue; pairs of
/// norm zero map through the zero inverse.
pub open spec fn p2_inv(a: (nat, nat), nr: nat) -> (nat, nat) {
    (
        crate::field::f_mul(
            a.0,
            crate::field::f_inv(
                crate::field::f_sub(
                    crate::field::f_mul(a.0, a.0),
                    crate::field::f_mul(nr, crate::field::f_mul(a.1, a.1)),
                ),
            ),
        ),
        crate::field::f_neg(
            crate::field::f_mul(
                a.1,
                crate::field::f_inv(
                    crate::field::f_sub(
                        crate::field::f_mul(a.0, a.0),
                        crate::field::f_mul(nr, crate::field::f_mul(a.1, a.1)),
                    ),
                ),
            ),
        ),
    )
}

/// A plain quadratic-extension value: a pair of base-field residues.
#[derive(Clone, Copy, Debug, PartialEq, Eq, Structural)]
pub struct Fp2Val {
    /// The base-field component.
    pub c0: Fp,
    /// The extension component.
    pub c1: Fp,
}

impl Fp2Val {
    /// Both components are reduced.
    pub open spec fn valid(&self) -> bool {
        self.c0.valid() && self.c1.valid()
    }

    /// The pair of residues the value holds.
    pub open spec fn vals(&self) -> (nat, nat) {
        (self.c0@, self.c1@)
    }

    /// Builds a plain extension value from two base residues.
    pub fn new(c0: Fp, c1: Fp) -> (r: Fp2Val)
        ensures
            r.c0 == c0,
            r.c1 == c1,
    {
        Fp2Val { c0, c1 }
    }

    /// Multiplies two plain extension values over the nonresidue.
    pub fn mul_val(&self, other: &Fp2Val, nonresidue: &Fp) -> (r: Fp2Val)
        requires
            self.valid(),
            other.valid(),
            nonresidue.valid(),
        ensures
            r.valid(),
            r.vals() == p2_mul(self.vals(), other.vals(), nonresidue@),
    {
        let v0 = self.c0.mul_fp(&other.c0);
        let v1 = self.c1.mul_fp(&other.c1);
        let c0 = v0.add_fp(&v1.mul_fp(nonresidue));
        let c1 = self.c0.mul_fp(&other.c1).add_fp(&self.c1.mul_fp(&other.c0));
        Fp2Val { c0, c1 }
    }

    /// Inverts a plain extension value over the nonresidue; the additive
    /// identity maps to itself.
    pub fn inv_val(&self, nonresidue: &Fp) -> (r: Fp2Val)
        requires
            self.valid(),
            nonresidue.valid(),
        ensures
            r.valid(),
            r.vals() == p2_inv(self.vals(), nonresidue@),
    {
        let norm = self.c0.mul_fp(&self.c0).sub_fp(&nonresidue.mul_fp(&self.c1.mul_fp(&self.c1)));
        let ninv = norm.inv_fp();
        let c0 = self.c0.mul_fp(&ninv);
        let c1 = self.c1.mul_fp(&ninv).neg_fp();
        Fp2Val { c0, c1 }
    }
}

/// A symbolic quadratic-extension element: a pair of symbolic base-field
/// elements.
#[derive(Clone, Copy, Debug)]
pub struct Fp2Var {
    /// The base-field component.
    pub c0: FpVar,
    /// The extension component.
    pub c1: FpVar,
}

impl Fp2Var {
    /// Both components are well-formed for the arena.
    pub open spec fn wf(&self, cs: &ConstraintSystem) -> bool {
        self.c0.wf(cs) && self.c1.wf(cs)
    }

    /// Both components carry a concrete value.
    pub open spec fn has_value(&self) -> bool {
        self.c0.has_value() && self.c1.has_value()
    }

    /// The pair of residues the element's values hold.
    pub open spec fn vals(&self) -> (nat, nat) {
        (self.c0.value_nat(), self.c1.value_nat())
    }

    /// Reads the concrete pair of values.
    pub fn value(&self) -> (r: Result<Fp2Val, SynthesisError>)
        ensures
            self.has_value() ==> (r matches Ok(v) && v.c0@ == self.c0.value_nat() && v.c1@
                == self.c1.value_nat()),
            !self.has_value() ==> r is Err,
    {
        let c0 = self.c0.value()?;
        let c1 = self.c1.value()?;
        Ok(Fp2Val { c0, c1 })
    }

    /// Wraps a plain value as a pair of constants.
    pub fn constant(v: Fp2Val) -> (r: Fp2Var)
        ensures
            r == (Fp2Var { c0: FpVar::Constant(v.c0), c1: FpVar::Constant(v.c1) }),
    {
        Fp2Var { c0: FpVar::Constant(v.c0), c1: FpVar::Constant(v.c1) }
    }

    /// Allocates a symbolic extension element in the given mode.
    pub fn new_variable(
        cs: &mut ConstraintSystem,
        value: Option<Fp2Val>,
        mode: AllocationMode,
    ) -> (r: Result<Fp2Var, SynthesisError>)
        requires
            old(cs).wf(),
            value matches Option::Some(v) ==> v.valid(),
        ensures
            final(cs).wf(),
            final(cs).extends(old(cs)),
            (mode == AllocationMode::Constant && value is None) ==> r is Err,
            !(mode == AllocationMode::Constant && value is None) ==> (r matches Ok(e) && e.wf(
                final(cs),
            ) && (value matches Option::Some(v) ==> e.has_value() && e.vals() == v.vals())),
            (mode != AllocationMode::Constant && value is None) ==> (r matches Ok(e)
                && !e.has_value()),
    {
        let (v0, v1): (Option<Fp>, Option<Fp>) = match value {
            Option::Some(v) => (Option::Some(v.c0), Option::Some(v.c1)),
            Option::None => (Option::None, Option::None),
        };
        let c0 = FpVar::new_variable(cs, v0, mode)?;
        let ghost mid = *cs;
        let c1 = FpVar::new_variable(cs, v1, mode)?;
        proof {
            crate::cs::lemma_extends_trans(final(cs), &mid, old(cs));
            crate::bits::lemma_fpvar_wf_extend(c0, &mid, final(cs));
        }
        Ok(Fp2Var { c0, c1 })
    }

    /// Componentwise addition: never a constraint.
    pub fn add(&self, cs: &mut ConstraintSystem, other: &Fp2Var) -> (r: Fp2Var)
        requires
            old(cs).wf(),
            self.wf(old(cs)),
            other.wf(old(cs)),
        ensures
            final(cs).wf(),
            final(cs).extends(old(cs)),
            final(cs).nc() == old(cs).nc(),
            r.wf(final(cs)),
            r.has_value() == (self.has_value() && other.has_value()),
            r.has_value() ==> r.vals() == p2_add(self.vals(), other.vals()),
    {
        let c0 = self.c0.add(cs, &other.c0);
        let ghost mid = *cs;
        proof {
            crate::bits::lemma_fpvar_wf_extend(self.c1, old(cs), &mid);
            crate::bits::lemma_fpvar_wf_extend(other.c1, old(cs), &mid);
        }
        let c1 = self.c1.add(cs, &other.c1);
        proof {
            crate::cs::lemma_extends_trans(final(cs), &mid, old(cs));
            crate::bits::lemma_fpvar_wf_extend(c0, &mid, final(cs));
        }
        Fp2Var { c0, c1 }
    }

    /// Componentwise subtraction: never a constraint.
    pub fn sub(&self, cs: &mut ConstraintSystem, other: &Fp2Var) -> (r: Fp2Var)
        requires
            old(cs).wf(),
            self.wf(old(cs)),
            other.wf(old(cs)),
        ensures
            final(cs).wf(),
            final(cs).extends(old(cs)),
            final(cs).nc() == old(cs).nc(),
            r.wf(final(cs)),
            r.has_value() == (self.has_value() && other.has_value()),
            r.has_value() ==> r.vals() == p2_sub(self.vals(), other.vals()),
    {
        let c0 = self.c0.sub(cs, &other.c0);
        let ghost mid = *cs;
        proof {
            crate::bits::lemma_fpvar_wf_extend(self.c1, old(cs), &mid);
            crate::bits::lemma_fpvar_wf_extend(other.c1, old(cs), &mid);
        }
        let c1 = self.c1.sub(cs, &other.c1);
        proof {
            crate::cs::lemma_extends_trans(final(cs), &mid, old(cs));
            crate::bits::lemma_fpvar_wf_extend(c0, &mid, final(cs));
        }
        Fp2Var { c0, c1 }
    }

    /// Componentwise doubling: never a constraint.
    pub fn double(&self, cs: &mut ConstraintSystem) -> (r: Result<Fp2Var, SynthesisError>)
        requires
            old(cs).wf(),
            self.wf(old(cs)),
        ensures
            final(cs).wf(),
            final(cs).extends(old(cs)),
            final(cs).nc() == old(cs).nc(),
            r matches Ok(d) && d.wf(final(cs)) && d.has_value() == self.has_value() && (
            d.has_value() ==> d.vals() == p2_add(self.vals(), self.vals())),
    {
        Ok(self.add(cs, self))
    }

    /// Componentwise negation, in place: never a constraint.
    pub fn negate_in_place(&mut self, cs: &mut ConstraintSystem) -> (r: Result<
        (),
        SynthesisError,
    >)
        requires
            old(cs).wf(),
            old(self).wf(old(cs)),
        ensures
            final(cs).wf(),
            final(cs).extends(old(cs)),
            final(cs).nc() == old(cs).nc(),
            final(self).wf(final(cs)),
            final(self).has_value() == old(self).has_value(),
            final(self).has_value() ==> final(self).vals() == p2_neg(old(self).vals()),
            r is Ok,
    {
        let c0 = self.c0.negate(cs)?;
        let ghost mid = *cs;
        proof {
            crate::bits::lemma_fpvar_wf_extend(self.c1, old(cs), &mid);
        }
        let c1 = self.c1.negate(cs)?;
        proof {
            crate::cs::lemma_extends_trans(final(cs), &mid, old(cs));
            crate::bits::lemma_fpvar_wf_extend(c0, &mid, final(cs));
        }
        self.c0 = c0;
        self.c1 = c1;
        Ok(())
    }

    /// Scales both components by a base-field constant: never a
    /// constraint.
    pub fn mul_assign_by_base_field_constant(&mut self, cs: &mut ConstraintSystem, k: Fp)
        requires
            old(cs).wf(),
            old(self).wf(old(cs)),
            k.valid(),
        ensures
            final(cs).wf(),
            final(cs).extends(old(cs)),
            final(cs).nc() == old(cs).nc(),
            final(self).wf(final(cs)),
            final(self).has_value() == old(self).has_value(),
            final(self).has_value() ==> final(self).vals() == p2_scale(old(self).vals(), k@),
    {
        let kc = FpVar::Constant(k);
        let c0 = self.c0.mul(cs, &kc);
        let ghost mid = *cs;
        proof {
            crate::bits::lemma_fpvar_wf_extend(self.c1, old(cs), &mid);
        }
        let c1 = self.c1.mul(cs, &kc);
        proof {
            crate::cs::lemma_extends_trans(final(cs), &mid, old(cs));
            crate::bits::lemma_fpvar_wf_extend(c0, &mid, final(cs));
        }
        self.c0 = c0;
        self.c1 = c1;
    }

    /// Extension multiplication over the nonresidue.
    pub fn mul(&self, cs: &mut ConstraintSystem, other: &Fp2Var, params: &Bls12Params) -> (r:
        Fp2Var)
        requires
            old(cs).wf(),
            self.wf(old(cs)),
            other.wf(old(cs)),
            params.valid(),
        ensures
            final(cs).wf(),
            final(cs).extends(old(cs)),
            r.wf(final(cs)),
            r.has_value() == (self.has_value() && other.has_value()),
            r.has_value() ==> r.vals() == p2_mul(self.vals(), other.vals(), params.nonresidue@),
    {
        let v0 = self.c0.mul(cs, &other.c0);
        let ghost cs1 = *cs;
        proof {
            lemma_chain2(*self, *other, old(cs), &cs1);
        }
        let v1 = self.c1.mul(cs, &other.c1);
        let ghost cs2 = *cs;
        proof {
            crate::cs::lemma_extends_trans(&cs2, &cs1, old(cs));
            lemma_chain2(*self, *other, old(cs), &cs2);
            crate::bits::lemma_fpvar_wf_extend(v0, &cs1, &cs2);
        }
        let nr = FpVar::Constant(params.nonresidue);
        let v1n = v1.mul(cs, &nr);
        let ghost cs3 = *cs;
        proof {
            crate::cs::lemma_extends_trans(&cs3, &cs2, old(cs));
            lemma_chain2(*self, *other, old(cs), &cs3);
            crate::bits::lemma_fpvar_wf_extend(v0, &cs1, &cs3);
        }
        let c0 = v0.add(cs, &v1n);
        let ghost cs4 = *cs;
        proof {
            crate::cs::lemma_extends_trans(&cs4, &cs3, old(cs));
            lemma_chain2(*self, *other, old(cs), &cs4);
        }
        let m01 = self.c0.mul(cs, &other.c1);
        let ghost cs5 = *cs;
        proof {
            crate::cs::lemma_extends_trans(&cs5, &cs4, old(cs));
            lemma_chain2(*self, *other, old(cs), &cs5);
            crate::bits::lemma_fpvar_wf_extend(m01, &cs5, &cs5);
        }
        let m10 = self.c1.mul(cs, &other.c0);
        let ghost cs6 = *cs;
        proof {
            crate::cs::lemma_extends_trans(&cs6, &cs5, old(cs));
            crate::bits::lemma_fpvar_wf_extend(m01, &cs5, &cs6);
        }
        let c1 = m01.add(cs, &m10);
        proof {
            crate::cs::lemma_extends_trans(final(cs), &cs6, old(cs));
            crate::bits::lemma_fpvar_wf_extend(c0, &cs4, final(cs));
        }
        Fp2Var { c0, c1 }
    }

    /// Extension squaring.
    pub fn square(&self, cs: &mut ConstraintSystem, params: &Bls12Params) -> (r: Result<
        Fp2Var,
        SynthesisError,
    >)
        requires
            old(cs).wf(),
            self.wf(old(cs)),
            params.valid(),
        ensures
            final(cs).wf(),
            final(cs).extends(old(cs)),
            r matches Ok(s) && s.wf(final(cs)) && s.has_value() == self.has_value() && (
            s.has_value() ==> s.vals() == p2_mul(self.vals(), self.vals(), params.nonresidue@)),
    {
        Ok(self.mul(cs, self, params))
    }

    /// Componentwise equality enforcement: two constraints.
    pub fn enforce_equal(&self, cs: &mut ConstraintSystem, other: &Fp2Var) -> (r: Result<
        (),
        SynthesisError,
    >)
        requires
            old(cs).wf(),
            self.wf(old(cs)),
            other.wf(old(cs)),
        ensures
            final(cs).wf(),
            final(cs).extends(old(cs)),
            r is Ok,
    {
        let r0 = self.c0.enforce_equal(cs, &other.c0);
        let ghost mid = *cs;
        proof {
            crate::bits::lemma_fpvar_wf_extend(self.c1, old(cs), &mid);
            crate::bits::lemma_fpvar_wf_extend(other.c1, old(cs), &mid);
        }
        let r1 = self.c1.enforce_equal(cs, &other.c1);
        proof {
            crate::cs::lemma_extends_trans(final(cs), &mid, old(cs));
        }
        let _ = r0;
        let _ = r1;
        Ok(())
    }

    /// Extension inversion: allocates the inverse as a fresh witness and
    /// enforces `self * inverse = 1`.  Inverting a zero value encodes an
    /// unsatisfiable relation, detected when satisfiability is checked.
    pub fn inverse(&self, cs: &mut ConstraintSystem, params: &Bls12Params) -> (r: Result<
        Fp2Var,
        SynthesisError,
    >)
        requires
            old(cs).wf(),
            self.wf(old(cs)),
            params.valid(),
        ensures
            final(cs).wf(),
            final(cs).extends(old(cs)),
            r matches Ok(inv) && inv.wf(final(cs)) && inv.has_value() == self.has_value() && (
            inv.has_value() ==> inv.vals() == p2_inv(self.vals(), params.nonresidue@)),
    {
        let value: Option<Fp2Val> = match self.value() {
            Ok(v) => {
                proof {
                    lemma_fpvar_value_bound(self.c0, old(cs));
                    lemma_fpvar_value_bound(self.c1, old(cs));
                }
                Option::Some(v.inv_val(&params.nonresidue))
            },
            Err(_) => Option::None,
        };
        let inv = Fp2Var::new_variable(cs, value, AllocationMode::Witness)?;
        let ghost cs1 = *cs;
        proof {
            lemma_chain2(*self, *self, old(cs), &cs1);
        }
        let prod = self.mul(cs, &inv, params);
        let ghost cs2 = *cs;
        proof {
            crate::cs::lemma_extends_trans(&cs2, &cs1, old(cs));
        }
        let one = Fp2Var {
            c0: FpVar::Constant(Fp::one()),
            c1: FpVar::Constant(Fp::zero()),
        };
        let res = prod.enforce_equal(cs, &one);
        proof {
            crate::cs::lemma_extends_trans(final(cs), &cs2, old(cs));
            crate::bits::lemma_fpvar_wf_extend(inv.c0, &cs1, final(cs));
            crate::bits::lemma_fpvar_wf_extend(inv.c1, &cs1, final(cs));
        }
        match res {
            Ok(_) => Ok(inv),
            Err(e) => Err(e),
        }
    }
}

/// The tangent slope of the doubling step: `3x^2 / 2y`, built exactly as
/// the gadget builds it.
pub open spec fn double_lambda(x: (nat, nat), y: (nat, nat), two_inv: nat, nr: nat) -> (
    nat,
    nat,
) {
    p2_mul(p2_inv(y, nr), p2_add(p2_scale(p2_mul(x, x, nr), two_inv), p2_mul(x, x, nr)), nr)
}

/// The doubled point's x-coordinate: `lambda^2 - 2x`.
pub open spec fn double_output_x(x: (nat, nat), y: (nat, nat), two_inv: nat, nr: nat) -> (
    nat,
    nat,
) {
    p2_sub(
        p2_mul(
            double_lambda(x, y, two_inv, nr),
            double_lambda(x, y, two_inv, nr),
            nr,
        ),
        p2_add(x, x),
    )
}

/// The doubling step's line coefficient: `lambda * x - y`.
pub open spec fn double_coeff_e(x: (nat, nat), y: (nat, nat), two_inv: nat, nr: nat) -> (
    nat,
    nat,
) {
    p2_sub(p2_mul(double_lambda(x, y, two_inv, nr), x, nr), y)
}

/// The doubled point's y-coordinate: `(lambda * x - y) - lambda * x3`.
pub open spec fn double_output_y(x: (nat, nat), y: (nat, nat), two_inv: nat, nr: nat) -> (
    nat,
    nat,
) {
    p2_sub(
        double_coeff_e(x, y, two_inv, nr),
        p2_mul(double_lambda(x, y, two_inv, nr), double_output_x(x, y, two_inv, nr), nr),
    )
}

/// The chord slope of the addition step: `(q.y - r.y) / (q.x - r.x)`.
pub open spec fn add_lambda(rx: (nat, nat), ry: (nat, nat), qx: (nat, nat), qy: (nat, nat), nr: nat) -> (
    nat,
    nat,
) {
    p2_mul(p2_inv(p2_sub(qx, rx), nr), p2_sub(qy, ry), nr)
}

/// The chord sum's x-coordinate: `lambda^2 - (r.x + q.x)`.
pub open spec fn add_output_x(rx: (nat, nat), ry: (nat, nat), qx: (nat, nat), qy: (nat, nat), nr: nat) -> (
    nat,
    nat,
) {
    p2_sub(
        p2_mul(add_lambda(rx, ry, qx, qy, nr), add_lambda(rx, ry, qx, qy, nr), nr),
        p2_add(rx, qx),
    )
}

/// The chord sum's y-coordinate: `(r.x - x3) * lambda - r.y`.
pub open spec fn add_output_y(rx: (nat, nat), ry: (nat, nat), qx: (nat, nat), qy: (nat, nat), nr: nat) -> (
    nat,
    nat,
) {
    p2_sub(
        p2_mul(
            p2_sub(rx, add_output_x(rx, ry, qx, qy, nr)),
            add_lambda(rx, ry, qx, qy, nr),
            nr,
        ),
        ry,
    )
}

/// The addition step's line coefficient: `lambda * r.x - r.y`.
pub open spec fn add_coeff_g(rx: (nat, nat), ry: (nat, nat), qx: (nat, nat), qy: (nat, nat), nr: nat) -> (
    nat,
    nat,
) {
    p2_sub(p2_mul(add_lambda(rx, ry, qx, qy, nr), rx, nr), ry)
}

/// An affine point on the base curve, with an explicit infinity flag.
#[derive(Clone, Copy, Debug)]
pub struct G1AffineVar {
    /// The affine x-coordinate.
    pub x: FpVar,
    /// The affine y-coordinate.
    pub y: FpVar,
    /// Whether the point is the identity.
    pub infinity: Boolean,
}

impl G1AffineVar {
    /// All parts are well-formed for the arena.
    pub open spec fn wf(&self, cs: &ConstraintSystem) -> bool {
        self.x.wf(cs) && self.y.wf(cs) && self.infinity.wf(cs)
    }
}

/// An affine point on the twisted curve over the quadratic extension.
#[derive(Clone, Copy, Debug)]
pub struct G2AffineVar {
    /// The affine x-coordinate.
    pub x: Fp2Var,
    /// The affine y-coordinate.
    pub y: Fp2Var,
    /// Whether the point is the identity.
    pub infinity: Boolean,
}

impl G2AffineVar {
    /// All parts are well-formed for the arena.
    pub open spec fn wf(&self, cs: &ConstraintSystem) -> bool {
        self.x.wf(cs) && self.y.wf(cs) && self.infinity.wf(cs)
    }
}

/// The plain value of a prepared base-curve point.
#[derive(Clone, Copy, Debug, PartialEq, Eq, Structural)]
pub struct G1PreparedValue {
    /// The affine x-coordinate.
    pub x: Fp,
    /// The affine y-coordinate.
    pub y: Fp,
    /// Whether the point is the identity.
    pub infinity: bool,
}

/// The cached precomputation of a base-curve point that speeds pairing
/// evaluation up: for this curve family, just its affine form.
#[derive(Clone, Copy, Debug)]
pub struct G1PreparedVar(pub G1AffineVar);

impl G1PreparedVar {
    /// The inner point is well-formed for the arena.
    pub open spec fn wf(&self, cs: &ConstraintSystem) -> bool {
        self.0.wf(cs)
    }

    /// Reads the prepared point's concrete value.
    pub fn value(&self) -> (r: Result<G1PreparedValue, SynthesisError>)
        ensures
            (self.0.x.has_value() && self.0.y.has_value() && self.0.infinity.has_value()) ==> (
            r matches Ok(g) && g.x@ == self.0.x.value_nat() && g.y@ == self.0.y.value_nat()
                && g.infinity == self.0.infinity.spec_value()),
            !(self.0.x.has_value() && self.0.y.has_value() && self.0.infinity.has_value())
                ==> r is Err,
    {
        let x = self.0.x.value()?;
        let y = self.0.y.value()?;
        let infinity = self.0.infinity.value()?;
        Ok(G1PreparedValue { x, y, infinity })
    }

    /// Prepares an affine base-curve point: for this family, the point is
    /// cached as it stands.
    pub fn from_group_var(q: &G1AffineVar) -> (r: Result<G1PreparedVar, SynthesisError>)
        ensures
            r == Ok::<G1PreparedVar, SynthesisError>(G1PreparedVar(*q)),
    {
        Ok(G1PreparedVar(*q))
    }

    /// Allocates a prepared base-curve point from its plain value in the
    /// given mode: two field elements and the infinity flag.
    pub fn new_variable(
        cs: &mut ConstraintSystem,
        value: G1PreparedValue,
        mode: AllocationMode,
    ) -> (r: Result<G1PreparedVar, SynthesisError>)
        requires
            old(cs).wf(),
            value.x.valid(),
            value.y.valid(),
        ensures
            final(cs).wf(),
            final(cs).extends(old(cs)),
            r matches Ok(p) && {
                &&& p.wf(final(cs))
                &&& p.0.x.has_value() && p.0.x.value_nat() == value.x@
                &&& p.0.y.has_value() && p.0.y.value_nat() == value.y@
                &&& p.0.infinity.has_value() && p.0.infinity.spec_value() == value.infinity
            },
    {
        let x = FpVar::new_variable(cs, Option::Some(value.x), mode)?;
        let ghost cs1 = *cs;
        let y = FpVar::new_variable(cs, Option::Some(value.y), mode)?;
        let ghost cs2 = *cs;
        proof {
            crate::cs::lemma_extends_trans(&cs2, &cs1, old(cs));
            crate::bits::lemma_fpvar_wf_extend(x, &cs1, &cs2);
        }
        let infinity = crate::boolean::new_boolean_variable(
            cs,
            Option::Some(value.infinity),
            mode,
        )?;
        proof {
            crate::cs::lemma_extends_trans(final(cs), &cs2, old(cs));
            crate::bits::lemma_fpvar_wf_extend(x, &cs2, final(cs));
            crate::bits::lemma_fpvar_wf_extend(y, &cs2, final(cs));
        }
        Ok(G1PreparedVar(G1AffineVar { x, y, infinity }))
    }
}

/// The plain value of a prepared twisted-curve point: its projective
/// line-coefficient triples.
#[derive(Clone, Debug)]
pub struct G2PreparedValue {
    /// The projective coefficient triples of the native precomputation.
    pub ell_coeffs: Vec<(Fp2Val, Fp2Val, Fp2Val)>,
}

impl G2PreparedValue {
    /// Every stored coefficient is reduced.
    pub open spec fn valid(&self) -> bool {
        forall|k: int|
            0 <= k < self.ell_coeffs@.len() ==> (#[trigger] self.ell_coeffs@[k]).0.valid()
                && self.ell_coeffs@[k].1.valid() && self.ell_coeffs@[k].2.valid()
    }
}

/// The allocated coefficient pair carries the twist-normalized values of
/// the stored projective triple.
pub open spec fn normalized_pair(
    out: (Fp2Var, Fp2Var),
    trip: (Fp2Val, Fp2Val, Fp2Val),
    params: &Bls12Params,
) -> bool {
    let nr = params.nonresidue@;
    &&& out.0.has_value() && out.1.has_value()
    &&& (params.twist_type == TwistType::M ==> out.0.vals() == p2_mul(
        trip.0.vals(),
        p2_inv(trip.2.vals(), nr),
        nr,
    ) && out.1.vals() == p2_mul(trip.1.vals(), p2_inv(trip.2.vals(), nr), nr))
    &&& (params.twist_type == TwistType::D ==> out.0.vals() == p2_mul(
        trip.1.vals(),
        p2_inv(trip.0.vals(), nr),
        nr,
    ) && out.1.vals() == p2_mul(trip.2.vals(), p2_inv(trip.0.vals(), nr), nr))
}

/// The cached precomputation of a twisted-curve point: the ordered
/// line-coefficient sequence of the Miller loop.
#[derive(Clone, Debug)]
pub struct G2PreparedVar {
    /// The line-coefficient pairs, in emission order.
    pub ell_coeffs: Vec<(Fp2Var, Fp2Var)>,
}

impl G2PreparedVar {
    /// Every stored coefficient pair is well-formed for the arena.
    pub open spec fn wf(&self, cs: &ConstraintSystem) -> bool {
        forall|k: int|
            0 <= k < self.ell_coeffs@.len() ==> (#[trigger] self.ell_coeffs@[k]).0.wf(cs)
                && self.ell_coeffs@[k].1.wf(cs)
    }

    /// Allocates a prepared point from its plain value, normalizing each
    /// projective coefficient triple by its twist-dependent divisor.
    pub fn new_variable(
        cs: &mut ConstraintSystem,
        value: &G2PreparedValue,
        params: &Bls12Params,
        mode: AllocationMode,
    ) -> (r: Result<G2PreparedVar, SynthesisError>)
        requires
            old(cs).wf(),
            value.valid(),
            params.valid(),
        ensures
            final(cs).wf(),
            final(cs).extends(old(cs)),
            r matches Ok(p) && p.wf(final(cs)) && p.ell_coeffs@.len()
                == value.ell_coeffs@.len() && (forall|k: int|
                0 <= k < p.ell_coeffs@.len() ==> normalized_pair(
                    #[trigger] p.ell_coeffs@[k],
                    value.ell_coeffs@[k],
                    params,
                )),
    {
        let mut out: Vec<(Fp2Var, Fp2Var)> = Vec::new();
        let mut i: usize = 0;
        while i < value.ell_coeffs.len()
            invariant
                i <= value.ell_coeffs@.len(),
                old(cs).wf(),
                cs.wf(),
                cs.extends(old(cs)),
                value.valid(),
                params.valid(),
                out@.len() == i,
                forall|k: int|
                    0 <= k < out@.len() ==> (#[trigger] out@[k]).0.wf(cs) && out@[k].1.wf(cs),
                forall|k: int|
                    0 <= k < out@.len() ==> normalized_pair(
                        #[trigger] out@[k],
                        value.ell_coeffs@[k],
                        params,
                    ),
            decreases value.ell_coeffs@.len() - i,
        {
            let (a, bq, cq) = value.ell_coeffs[i];
            let (lv, rv): (Fp2Val, Fp2Val) = match params.twist_type {
                TwistType::M => {
                    let zinv = cq.inv_val(&params.nonresidue);
                    (a.mul_val(&zinv, &params.nonresidue), bq.mul_val(&zinv, &params.nonresidue))
                },
                TwistType::D => {
                    let zinv = a.inv_val(&params.nonresidue);
                    (bq.mul_val(&zinv, &params.nonresidue), cq.mul_val(&zinv, &params.nonresidue))
                },
            };
            let ghost before = *cs;
            let ghost old_out = out@;
            let l = Fp2Var::new_variable(cs, Option::Some(lv), mode)?;
            let ghost mid = *cs;
            let rr = Fp2Var::new_variable(cs, Option::Some(rv), mode)?;
            out.push((l, rr));
            proof {
                crate::cs::lemma_extends_trans(cs, &mid, &before);
                crate::cs::lemma_extends_trans(cs, &before, old(cs));
                assert forall|k: int|
                    0 <= k < out@.len() implies (#[trigger] out@[k]).0.wf(cs) && out@[k].1.wf(
                    cs,
                ) by {
                    if k < old_out.len() {
                        assert(out@[k] == old_out[k]);
                        assert(old_out[k].0.wf(&before) && old_out[k].1.wf(&before));
                        crate::bits::lemma_fpvar_wf_extend(old_out[k].0.c0, &before, cs);
                        crate::bits::lemma_fpvar_wf_extend(old_out[k].0.c1, &before, cs);
                        crate::bits::lemma_fpvar_wf_extend(old_out[k].1.c0, &before, cs);
                        crate::bits::lemma_fpvar_wf_extend(old_out[k].1.c1, &before, cs);
                    } else {
                        assert(out@[k] == (l, rr));
                        crate::bits::lemma_fpvar_wf_extend(l.c0, &mid, cs);
                        crate::bits::lemma_fpvar_wf_extend(l.c1, &mid, cs);
                    }
                };
                assert forall|k: int|
                    0 <= k < out@.len() implies normalized_pair(
                    #[trigger] out@[k],
                    value.ell_coeffs@[k],
                    params,
                ) by {
                    if k < old_out.len() {
                        assert(out@[k] == old_out[k]);
                    } else {
                        assert(out@[k] == (l, rr));
                    }
                };
            }
            i += 1;
        }
        Ok(G2PreparedVar { ell_coeffs: out })
    }

    /// One doubling step of the Miller loop: a slope through one field
    /// inversion, the new accumulator coordinates, and one emitted
    /// coefficient pair ordered by the twist type.
    #[verifier::rlimit(100)]
    fn double_step(
        cs: &mut ConstraintSystem,
        r: &mut G2AffineVar,
        two_inv: &Fp,
        params: &Bls12Params,
    ) -> (res: Result<(Fp2Var, Fp2Var), SynthesisError>)
        requires
            old(cs).wf(),
            old(r).wf(old(cs)),
            two_inv.valid(),
            params.valid(),
        ensures
            final(cs).wf(),
            final(cs).extends(old(cs)),
            final(r).wf(final(cs)),
            res matches Ok(p) && p.0.wf(final(cs)) && p.1.wf(final(cs)),
            (old(r).x.has_value() && old(r).y.has_value()) ==> ({
                let x = old(r).x.vals();
                let y = old(r).y.vals();
                let nr = params.nonresidue@;
                &&& final(r).x.has_value() && final(r).x.vals() == double_output_x(
                    x,
                    y,
                    two_inv@,
                    nr,
                )
                &&& final(r).y.has_value() && final(r).y.vals() == double_output_y(
                    x,
                    y,
                    two_inv@,
                    nr,
                )
                &&& final(r).infinity == old(r).infinity
                &&& res matches Ok(p) && p.0.has_value() && p.1.has_value() && (
                if params.twist_type == TwistType::M {
                    p.0.vals() == double_coeff_e(x, y, two_inv@, nr) && p.1.vals() == p2_neg(
                        double_lambda(x, y, two_inv@, nr),
                    )
                } else {
                    p.0.vals() == p2_neg(double_lambda(x, y, two_inv@, nr)) && p.1.vals()
                        == double_coeff_e(x, y, two_inv@, nr)
                })
            }),
    {
        let a = r.y.inverse(cs, params)?;
        proof {
            lemma_g2_extend(*r, old(cs), cs);
        }
        let mut b = r.x.square(cs, params)?;
        proof {
            lemma_g2_extend(*r, old(cs), cs);
            lemma_chain2(a, a, cs, cs);
        }
        let ghost cs_b = *cs;
        proof {
            lemma_chain2(a, a, &cs_b, &cs_b);
        }
        let b_tmp = b;
        b.mul_assign_by_base_field_constant(cs, *two_inv);
        proof {
            lemma_g2_extend(*r, old(cs), cs);
            lemma_chain2(a, b_tmp, &cs_b, cs);
        }
        let b2 = b.add(cs, &b_tmp);
        proof {
            lemma_g2_extend(*r, old(cs), cs);
            lemma_chain2(a, b2, cs, cs);
        }
        let c = a.mul(cs, &b2, params);
        proof {
            lemma_g2_extend(*r, old(cs), cs);
            lemma_chain2(c, c, cs, cs);
        }
        let d = r.x.double(cs)?;
        proof {
            lemma_g2_extend(*r, old(cs), cs);
            lemma_chain2(c, d, cs, cs);
        }
        let c_sq = c.square(cs, params)?;
        proof {
            lemma_g2_extend(*r, old(cs), cs);
            lemma_chain2(c, d, cs, cs);
            lemma_chain2(c_sq, d, cs, cs);
        }
        let x3 = c_sq.sub(cs, &d);
        proof {
            lemma_g2_extend(*r, old(cs), cs);
            lemma_chain2(c, x3, cs, cs);
        }
        let cx = c.mul(cs, &r.x, params);
        proof {
            lemma_g2_extend(*r, old(cs), cs);
            lemma_chain2(cx, x3, cs, cs);
            lemma_chain2(c, x3, cs, cs);
        }
        let e = cx.sub(cs, &r.y);
        proof {
            lemma_g2_extend(*r, old(cs), cs);
            lemma_chain2(c, x3, cs, cs);
            lemma_chain2(e, x3, cs, cs);
        }
        let c_x3 = c.mul(cs, &x3, params);
        proof {
            lemma_g2_extend(*r, old(cs), cs);
            lemma_chain2(e, c_x3, cs, cs);
            lemma_chain2(c, x3, cs, cs);
        }
        let y3 = e.sub(cs, &c_x3);
        proof {
            lemma_g2_extend(*r, old(cs), cs);
            lemma_chain2(e, c, cs, cs);
            lemma_chain2(x3, y3, cs, cs);
        }
        let mut f = c;
        let fr = f.negate_in_place(cs);
        proof {
            lemma_g2_extend(*r, old(cs), cs);
            lemma_chain2(e, f, cs, cs);
            lemma_chain2(x3, y3, cs, cs);
        }
        match fr {
            Ok(_) => {},
            Err(e2) => {
                return Err(e2);
            },
        }
        r.x = x3;
        r.y = y3;
        match params.twist_type {
            TwistType::M => Ok((e, f)),
            TwistType::D => Ok((f, e)),
        }
    }

    /// One addition step of the Miller loop against the fixed original
    /// point: the chord slope through one field inversion, the new
    /// accumulator coordinates, and one emitted coefficient pair.
    #[verifier::rlimit(100)]
    fn add_step(
        cs: &mut ConstraintSystem,
        r: &mut G2AffineVar,
        q: &G2AffineVar,
        params: &Bls12Params,
    ) -> (res: Result<(Fp2Var, Fp2Var), SynthesisError>)
        requires
            old(cs).wf(),
            old(r).wf(old(cs)),
            q.wf(old(cs)),
            params.valid(),
        ensures
            final(cs).wf(),
            final(cs).extends(old(cs)),
            final(r).wf(final(cs)),
            res matches Ok(p) && p.0.wf(final(cs)) && p.1.wf(final(cs)),
            (old(r).x.has_value() && old(r).y.has_value() && q.x.has_value()
                && q.y.has_value()) ==> ({
                let rx = old(r).x.vals();
                let ry = old(r).y.vals();
                let qx = q.x.vals();
                let qy = q.y.vals();
                let nr = params.nonresidue@;
                &&& final(r).x.has_value() && final(r).x.vals() == add_output_x(
                    rx,
                    ry,
                    qx,
                    qy,
                    nr,
                )
                &&& final(r).y.has_value() && final(r).y.vals() == add_output_y(
                    rx,
                    ry,
                    qx,
                    qy,
                    nr,
                )
                &&& final(r).infinity == old(r).infinity
                &&& res matches Ok(p) && p.0.has_value() && p.1.has_value() && (
                if params.twist_type == TwistType::M {
                    p.0.vals() == add_coeff_g(rx, ry, qx, qy, nr) && p.1.vals() == p2_neg(
                        add_lambda(rx, ry, qx, qy, nr),
                    )
                } else {
                    p.0.vals() == p2_neg(add_lambda(rx, ry, qx, qy, nr)) && p.1.vals()
                        == add_coeff_g(rx, ry, qx, qy, nr)
                })
            }),
    {
        let dx = q.x.sub(cs, &r.x);
        proof {
            lemma_g2_extend(*r, old(cs), cs);
            lemma_g2_extend(*q, old(cs), cs);
        }
        let a = dx.inverse(cs, params)?;
        proof {
            lemma_g2_extend(*r, old(cs), cs);
            lemma_g2_extend(*q, old(cs), cs);
        }
        let b = q.y.sub(cs, &r.y);
        proof {
            lemma_g2_extend(*r, old(cs), cs);
            lemma_g2_extend(*q, old(cs), cs);
            lemma_chain2(a, b, cs, cs);
        }
        let c = a.mul(cs, &b, params);
        proof {
            lemma_g2_extend(*r, old(cs), cs);
            lemma_g2_extend(*q, old(cs), cs);
            lemma_chain2(c, c, cs, cs);
        }
        let d = r.x.add(cs, &q.x);
        proof {
            lemma_g2_extend(*r, old(cs), cs);
            lemma_g2_extend(*q, old(cs), cs);
            lemma_chain2(c, d, cs, cs);
        }
        let c_sq = c.square(cs, params)?;
        proof {
            lemma_g2_extend(*r, old(cs), cs);
            lemma_g2_extend(*q, old(cs), cs);
            lemma_chain2(c, d, cs, cs);
            lemma_chain2(c_sq, d, cs, cs);
        }
        let x3 = c_sq.sub(cs, &d);
        proof {
            lemma_g2_extend(*r, old(cs), cs);
            lemma_g2_extend(*q, old(cs), cs);
            lemma_chain2(c, x3, cs, cs);
        }
        let rx_minus_x3 = r.x.sub(cs, &x3);
        proof {
            lemma_g2_extend(*r, old(cs), cs);
            lemma_g2_extend(*q, old(cs), cs);
            lemma_chain2(c, x3, cs, cs);
            lemma_chain2(rx_minus_x3, x3, cs, cs);
        }
        let e = rx_minus_x3.mul(cs, &c, params);
        proof {
            lemma_g2_extend(*r, old(cs), cs);
            lemma_g2_extend(*q, old(cs), cs);
            lemma_chain2(c, x3, cs, cs);
            lemma_chain2(e, x3, cs, cs);
        }
        let y3 = e.sub(cs, &r.y);
        proof {
            lemma_g2_extend(*r, old(cs), cs);
            lemma_g2_extend(*q, old(cs), cs);
            lemma_chain2(c, x3, cs, cs);
            lemma_chain2(y3, x3, cs, cs);
        }
        let cx = c.mul(cs, &r.x, params);
        proof {
            lemma_g2_extend(*r, old(cs), cs);
            lemma_chain2(c, x3, cs, cs);
            lemma_chain2(cx, y3, cs, cs);
        }
        let g = cx.sub(cs, &r.y);
        proof {
            lemma_chain2(c, x3, cs, cs);
            lemma_chain2(g, y3, cs, cs);
        }
        let mut f = c;
        let fr = f.negate_in_place(cs);
        proof {
            lemma_chain2(g, f, cs, cs);
            lemma_chain2(x3, y3, cs, cs);
        }
        match fr {
            Ok(_) => {},
            Err(e2) => {
                return Err(e2);
            },
        }
        r.x = x3;
        r.y = y3;
        match params.twist_type {
            TwistType::M => Ok((g, f)),
            TwistType::D => Ok((f, g)),
        }
    }

    /// Runs the Miller-loop double-and-add scan over the curve's fixed
    /// loop parameter and collects the ordered line-coefficient sequence.
    ///
    /// The input point must not be the identity; the generated constraint
    /// forcing its infinity flag to zero makes a violation unsatisfiable
    /// rather than a panic.  The sequence holds one pair per scanned bit
    /// position plus one per set scanned bit: `63 + weight` pairs, where
    /// `weight` counts the set bits below the skipped leading position.
    pub fn from_group_var(
        cs: &mut ConstraintSystem,
        q: &G2AffineVar,
        params: &Bls12Params,
    ) -> (r: Result<G2PreparedVar, SynthesisError>)
        requires
            old(cs).wf(),
            q.wf(old(cs)),
            params.valid(),
        ensures
            final(cs).wf(),
            final(cs).extends(old(cs)),
            r matches Ok(p) && p.wf(final(cs)) && p.ell_coeffs@.len() == 63 + bits_weight(
                params.x as nat,
                63,
            ) && ((q.x.has_value() && q.y.has_value()) ==> (forall|k: int|
                0 <= k < p.ell_coeffs@.len() ==> (#[trigger] p.ell_coeffs@[k]).0.has_value()
                    && p.ell_coeffs@[k].1.has_value())),
            (q.infinity.assigned(old(cs)) && q.infinity.spec_value())
                ==> !final(cs).spec_satisfied(),
    {
        let two_inv = Fp::new(2).inv_fp();
        // The point at infinity has no affine form: enforce that the
        // input is not the identity.
        let inf_lc = q.infinity.lc();
        proof {
            q.infinity.lemma_lc_terms_wf(old(cs));
        }
        let one = Fp::one();
        let one_lc = LinComb { terms: vec![(one, Variable::One)] };
        let zero_lc = LinComb { terms: Vec::new() };
        cs.enforce_constraint(inf_lc, one_lc, zero_lc);
        let ghost cs0 = *cs;
        proof {
            lemma_g2_extend(*q, old(cs), &cs0);
            assert(cs0.constraints@.last().a@ == q.infinity.lc_terms());
            assert(cs0.constraints@.last().b@ == seq![(one, Variable::One)]);
            assert(cs0.constraints@.last().c@.len() == 0);
        }
        // Precompute the scanned bits of the loop parameter,
        // least-significant first.
        let mut xbits: Vec<bool> = Vec::new();
        let mut rem: u64 = params.x;
        let mut bi: usize = 0;
        proof {
            vstd::arithmetic::div_mod::lemma_div_basics(params.x as int);
        }
        while bi < 63
            invariant
                bi <= 63,
                rem as nat == (params.x as nat) / crate::bits::two_pow(bi as nat),
                xbits@.len() == bi,
                forall|j: int| 0 <= j < bi ==> xbits@[j] == nth_bit(params.x as nat, j as nat),
            decreases 63 - bi,
        {
            let ghost old_bits = xbits@;
            xbits.push(rem % 2 == 1);
            proof {
                assert forall|j: int|
                    0 <= j < xbits@.len() implies xbits@[j] == nth_bit(params.x as nat, j as nat) by {
                    if j < old_bits.len() {
                        assert(xbits@[j] == old_bits[j]);
                    }
                };
                crate::bits::lemma_two_pow_pos(bi as nat);
                vstd::arithmetic::div_mod::lemma_div_denominator(
                    params.x as int,
                    crate::bits::two_pow(bi as nat) as int,
                    2,
                );
                assert(crate::bits::two_pow((bi + 1) as nat) == crate::bits::two_pow(bi as nat)
                    * 2) by {
                    vstd::arithmetic::mul::lemma_mul_is_commutative(
                        2,
                        crate::bits::two_pow(bi as nat) as int,
                    );
                };
            }
            rem = rem / 2;
            bi += 1;
        }
        let mut ell_coeffs: Vec<(Fp2Var, Fp2Var)> = Vec::new();
        let mut acc = *q;
        let mut j: usize = 63;
        while j > 0
            invariant
                j <= 63,
                cs.wf(),
                cs.extends(&cs0),
                cs0.wf(),
                acc.wf(cs),
                q.wf(&cs0),
                params.valid(),
                two_inv.valid(),
                xbits@.len() == 63,
                forall|k: int| 0 <= k < 63 ==> xbits@[k] == nth_bit(params.x as nat, k as nat),
                ell_coeffs@.len() as int == (63 - j) + bits_weight(params.x as nat, 63)
                    - bits_weight(params.x as nat, j as nat),
                forall|k: int|
                    0 <= k < ell_coeffs@.len() ==> (#[trigger] ell_coeffs@[k]).0.wf(cs)
                        && ell_coeffs@[k].1.wf(cs),
                (q.x.has_value() && q.y.has_value()) ==> acc.x.has_value() && acc.y.has_value()
                    && (forall|k: int|
                    0 <= k < ell_coeffs@.len() ==> (#[trigger] ell_coeffs@[k]).0.has_value()
                        && ell_coeffs@[k].1.has_value()),
            decreases j,
        {
            j -= 1;
            let ghost before = *cs;
            let ghost old_ell = ell_coeffs@;
            let dc = Self::double_step(cs, &mut acc, &two_inv, params)?;
            ell_coeffs.push(dc);
            proof {
                crate::cs::lemma_extends_trans(cs, &before, &cs0);
                lemma_g2_extend(*q, &cs0, cs);
                lemma_ell_extend(old_ell, &before, cs);
                assert forall|k: int|
                    0 <= k < ell_coeffs@.len() implies (#[trigger] ell_coeffs@[k]).0.wf(cs)
                    && ell_coeffs@[k].1.wf(cs) by {
                    if k < old_ell.len() {
                        assert(ell_coeffs@[k] == old_ell[k]);
                    } else {
                        assert(ell_coeffs@[k] == dc);
                    }
                };
                if q.x.has_value() && q.y.has_value() {
                    assert forall|k: int|
                        0 <= k < ell_coeffs@.len() implies (#[trigger] ell_coeffs@[k]).0.has_value()
                        && ell_coeffs@[k].1.has_value() by {
                        if k < old_ell.len() {
                            assert(ell_coeffs@[k] == old_ell[k]);
                        } else {
                            assert(ell_coeffs@[k] == dc);
                        }
                    };
                }
            }
            if xbits[j] {
                let ghost before2 = *cs;
                let ghost old_ell2 = ell_coeffs@;
                let ac = Self::add_step(cs, &mut acc, q, params)?;
                ell_coeffs.push(ac);
                proof {
                    crate::cs::lemma_extends_trans(cs, &before2, &cs0);
                    lemma_g2_extend(*q, &cs0, cs);
                    lemma_ell_extend(old_ell2, &before2, cs);
                    assert forall|k: int|
                        0 <= k < ell_coeffs@.len() implies (#[trigger] ell_coeffs@[k]).0.wf(cs)
                        && ell_coeffs@[k].1.wf(cs) by {
                        if k < old_ell2.len() {
                            assert(ell_coeffs@[k] == old_ell2[k]);
                        } else {
                            assert(ell_coeffs@[k] == ac);
                        }
                    };
                    if q.x.has_value() && q.y.has_value() {
                        assert forall|k: int|
                            0 <= k < ell_coeffs@.len() implies (
                        #[trigger] ell_coeffs@[k]).0.has_value()
                            && ell_coeffs@[k].1.has_value() by {
                            if k < old_ell2.len() {
                                assert(ell_coeffs@[k] == old_ell2[k]);
                            } else {
                                assert(ell_coeffs@[k] == ac);
                            }
                        };
                    }
                }
            }
            proof {
                assert(bits_weight(params.x as nat, (j + 1) as nat) == bits_weight(
                    params.x as nat,
                    j as nat,
                ) + crate::boolean::bool_to_nat(nth_bit(params.x as nat, j as nat)));
            }
        }
        proof {
            crate::cs::lemma_extends_trans(final(cs), &cs0, old(cs));
            if q.infinity.assigned(old(cs)) && q.infinity.spec_value() {
                let t2 = final(cs).lc_table@;
                let fw = final(cs).wit_vals();
                let fi = final(cs).inst_vals();
                let con = final(cs).constraints@[old(cs).nc() as int];
                assert(con == cs0.constraints@.last());
                crate::boolean::lemma_boolean_tracks_extend(q.infinity, old(cs), final(cs));
                q.infinity.lemma_field_val_assigned(final(cs));
                q.infinity.lemma_lc_terms_val(t2, fw, fi);
                crate::fp_var::lemma_one_term_val(t2, fw, fi, one, Variable::One, t2.len() as nat);
                vstd::arithmetic::div_mod::lemma_small_mod(1, MODULUS as nat);
                vstd::arithmetic::div_mod::lemma_small_mod(0, MODULUS as nat);
                assert(!crate::cs::constraint_sat(t2, fw, fi, con));
                assert(!final(cs).spec_satisfied()) by {
                    assert(final(cs).constraints@[old(cs).nc() as int] == con);
                };
            }
        }
        Ok(G2PreparedVar { ell_coeffs })
    }
}

/// The Miller-loop length law: for a loop parameter whose leading storage
/// bit is clear, the emitted coefficient sequence has exactly
/// `(64 - 1) + weight` pairs, where `weight` is the parameter's Hamming
/// weight.
pub proof fn lemma_precompute_length(x: u64, emitted: nat)
    requires
        x < 0x8000_0000_0000_0000,
        emitted == 63 + bits_weight(x as nat, 63),
    ensures
        emitted == (64 - 1) + bits_weight(x as nat, 64),
{
    assert(bits_weight(x as nat, 64) == bits_weight(x as nat, 63) + crate::boolean::bool_to_nat(
        nth_bit(x as nat, 63),
    ));
    assert(!nth_bit(x as nat, 63)) by {
        crate::bits::lemma_two_pow_63();
        assert((x as nat) / crate::bits::two_pow(63) == 0) by {
            vstd::arithmetic::div_mod::lemma_basic_div(x as int, crate::bits::two_pow(63) as int);
        };
    };
}

/// A point's parts stay well-formed as the arena grows.
proof fn lemma_g2_extend(p: G2AffineVar, cs1: &ConstraintSystem, cs2: &ConstraintSystem)
    requires
        p.wf(cs1),
        cs2.extends(cs1),
    ensures
        p.wf(cs2),
{
}

/// Two extension elements stay well-formed as the arena grows.
proof fn lemma_chain2(a: Fp2Var, b: Fp2Var, cs1: &ConstraintSystem, cs2: &ConstraintSystem)
    requires
        a.wf(cs1),
        b.wf(cs1),
        cs2.extends(cs1),
    ensures
        a.wf(cs2),
        b.wf(cs2),
{
}

/// Stored coefficient pairs stay well-formed as the arena grows.
proof fn lemma_ell_extend(
    ell: Seq<(Fp2Var, Fp2Var)>,
    cs1: &ConstraintSystem,
    cs2: &ConstraintSystem,
)
    requires
        forall|k: int| 0 <= k < ell.len() ==> (#[trigger] ell[k]).0.wf(cs1) && ell[k].1.wf(cs1),
        cs2.extends(cs1),
    ensures
        forall|k: int| 0 <= k < ell.len() ==> (#[trigger] ell[k]).0.wf(cs2) && ell[k].1.wf(cs2),
{
    assert forall|k: int|
        0 <= k < ell.len() implies (#[trigger] ell[k]).0.wf(cs2) && ell[k].1.wf(cs2) by {
        assert(ell[k].0.wf(cs1) && ell[k].1.wf(cs1));
    };
}

/// A well-formed element's value is a reduced residue.
proof fn lemma_fpvar_value_bound(e: FpVar, cs: &ConstraintSystem)
    requires
        e.wf(cs),
    ensures
        e.value_nat() < MODULUS as nat,
{
}

} // verus!
