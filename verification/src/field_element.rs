//! The field-element union: a compile-time constant or an allocated
//! symbolic value.
//!
//! Arithmetic dispatches three ways.  Two constants fold for free and
//! never touch the arena; a constant beside a variable rides the free
//! linear paths of the symbolic layer; only two true variables pay for a
//! multiplication gate.

use vstd::prelude::*;
use vstd::arithmetic::div_mod::lemma_small_mod;
use crate::boolean::Boolean;
use crate::cs::ConstraintSystem;
use crate::field::{
    fmod,
    f_add, f_inv, f_mul, f_neg, f_sub, fp_of, lemma_f_inv_property, lemma_fp_of, Fp, MODULUS,
};
use crate::fp_var::{lemma_fp_eq, wit_add, wit_mul, AllocatedFp};
use crate::SynthesisError;

verus! {

/// A symbolic field element: a known constant or an allocated variable.
#[derive(Clone, Copy, Debug)]
pub enum FpVar {
    /// A compile-time constant, never entering the constraint system.
    Constant(Fp),
    /// An allocated symbolic value.
    Var(AllocatedFp),
}

impl FpVar {
    /// The element is well-formed for the arena.
    pub open spec fn wf(&self, cs: &ConstraintSystem) -> bool {
        match self {
            FpVar::Constant(c) => c.valid(),
            FpVar::Var(v) => v.wf(cs),
        }
    }

    /// Whether the element is a compile-time constant.
    pub open spec fn spec_is_constant(&self) -> bool {
        self matches FpVar::Constant(_)
    }

    /// The concrete value is known.
    pub open spec fn has_value(&self) -> bool {
        match self {
            FpVar::Constant(_) => true,
            FpVar::Var(v) => v.witness is Some,
        }
    }

    /// The concrete value as a residue.
    pub open spec fn value_nat(&self) -> nat {
        match self {
            FpVar::Constant(c) => c@,
            FpVar::Var(v) => v.wit_nat(),
        }
    }

    /// The witness agrees with the stored assignment.
    pub open spec fn tracks(&self, cs: &ConstraintSystem) -> bool {
        match self {
            FpVar::Constant(_) => true,
            FpVar::Var(v) => v.tracks(cs),
        }
    }

    /// The element carries a value that agrees with the stored assignment.
    pub open spec fn assigned(&self, cs: &ConstraintSystem) -> bool {
        self.has_value() && self.tracks(cs)
    }

    /// Whether the element is a compile-time constant.
    pub fn is_constant(&self) -> (r: bool)
        ensures
            r == self.spec_is_constant(),
    {
        match self {
            FpVar::Constant(_) => true,
            FpVar::Var(_) => false,
        }
    }

    /// Wraps a known constant.
    pub fn constant(f: Fp) -> (r: FpVar)
        ensures
            r == FpVar::Constant(f),
    {
        FpVar::Constant(f)
    }

    /// The additive identity, as a constant.
    pub fn zero() -> (r: FpVar)
        ensures
            r.spec_is_constant() && r.value_nat() == 0 && r.has_value(),
            forall|cs: &ConstraintSystem| #[trigger] r.wf(cs),
    {
        FpVar::Constant(Fp::zero())
    }

    /// The multiplicative identity, as a constant.
    pub fn one() -> (r: FpVar)
        ensures
            r.spec_is_constant() && r.value_nat() == 1 && r.has_value(),
            forall|cs: &ConstraintSystem| #[trigger] r.wf(cs),
    {
        FpVar::Constant(Fp::one())
    }

    /// Reads the concrete value.
    pub fn value(&self) -> (r: Result<Fp, SynthesisError>)
        ensures
            self.has_value() ==> (r matches Ok(w) && w@ == self.value_nat()),
            !self.has_value() ==> r == Err::<Fp, SynthesisError>(SynthesisError::MissingWitness),
    {
        match self {
            FpVar::Constant(c) => Ok(*c),
            FpVar::Var(v) => v.value(),
        }
    }

    /// Allocates a fresh element in the given mode; `constant` wraps the
    /// value without touching the arena, the other modes allocate a base
    /// variable.
    pub fn new_variable(
        cs: &mut ConstraintSystem,
        value: Option<Fp>,
        mode: AllocationMode,
    ) -> (r: Result<FpVar, SynthesisError>)
        requires
            old(cs).wf(),
            crate::fp_var::opt_valid(value),
        ensures
            final(cs).wf(),
            final(cs).extends(old(cs)),
            final(cs).nc() == old(cs).nc(),
            final(cs).nl() == old(cs).nl(),
            mode == AllocationMode::Constant ==> *final(cs) == *old(cs) && (match value {
                Option::Some(w) => r == Ok::<FpVar, SynthesisError>(FpVar::Constant(w)),
                Option::None => r == Err::<FpVar, SynthesisError>(SynthesisError::MissingWitness),
            }),
            mode != AllocationMode::Constant ==> (r matches Ok(e) && {
                &&& e matches FpVar::Var(v) && v.witness == value
                &&& e.wf(final(cs))
                &&& e.tracks(final(cs))
            }),
            mode == AllocationMode::Witness ==> final(cs).nw() == old(cs).nw() + 1
                && final(cs).ni() == old(cs).ni(),
            mode == AllocationMode::Input ==> final(cs).ni() == old(cs).ni() + 1
                && final(cs).nw() == old(cs).nw(),
            mode == AllocationMode::Constant ==> final(cs).is_complete() == old(cs).is_complete(),
            mode != AllocationMode::Constant ==> final(cs).is_complete() == (
            old(cs).is_complete() && value is Some),
            final(cs).spec_satisfied() == old(cs).spec_satisfied(),
    {
        match mode {
            AllocationMode::Constant => match value {
                Option::Some(w) => Ok(FpVar::Constant(w)),
                Option::None => Err(SynthesisError::MissingWitness),
            },
            AllocationMode::Input => Ok(FpVar::Var(AllocatedFp::new_input(cs, value))),
            AllocationMode::Witness => Ok(FpVar::Var(AllocatedFp::new_witness(cs, value))),
        }
    }

    /// Builds an element from a boolean: zero for false, one for true.
    pub fn from(cs: &mut ConstraintSystem, other: Boolean) -> (r: FpVar)
        requires
            old(cs).wf(),
            other.wf(old(cs)),
        ensures
            final(cs).wf(),
            final(cs).extends(old(cs)),
            final(cs).nc() == old(cs).nc(),
            final(cs).nw() == old(cs).nw(),
            final(cs).ni() == old(cs).ni(),
            final(cs).is_complete() == old(cs).is_complete(),
            final(cs).spec_satisfied() == old(cs).spec_satisfied(),
            other.has_value() ==> r.has_value() && r.value_nat() == crate::boolean::bool_to_nat(
                other.spec_value(),
            ),
            r.wf(final(cs)),
            other matches Boolean::Constant(_) ==> *final(cs) == *old(cs),
    {
        match other {
            Boolean::Constant(b) => FpVar::Constant(crate::boolean::bool_to_fp(b)),
            _ => FpVar::Var(AllocatedFp::from(cs, other)),
        }
    }

    /// Outputs `self + other`: constants fold for free, otherwise the free
    /// linear paths are used; never a constraint.
    pub fn add(&self, cs: &mut ConstraintSystem, other: &FpVar) -> (r: FpVar)
        requires
            old(cs).wf(),
            self.wf(old(cs)),
            other.wf(old(cs)),
        ensures
            final(cs).wf(),
            final(cs).extends(old(cs)),
            final(cs).nc() == old(cs).nc(),
            final(cs).nw() == old(cs).nw(),
            final(cs).ni() == old(cs).ni(),
            final(cs).nl() <= old(cs).nl() + 1,
            final(cs).constraints == old(cs).constraints,
            final(cs).is_complete() == old(cs).is_complete(),
            final(cs).spec_satisfied() == old(cs).spec_satisfied(),
            self.spec_is_constant() && other.spec_is_constant() ==> *final(cs) == *old(cs)
                && r.spec_is_constant(),
            r.wf(final(cs)),
            r.has_value() == (self.has_value() && other.has_value()),
            r.has_value() ==> r.value_nat() == f_add(self.value_nat(), other.value_nat()),
            self.tracks(old(cs)) && other.tracks(old(cs)) ==> r.tracks(final(cs)),
    {
        let r = match (self, other) {
            (FpVar::Constant(c1), FpVar::Constant(c2)) => {
                let s = c1.add_fp(c2);
                FpVar::Constant(s)
            },
            (FpVar::Constant(c), FpVar::Var(v)) => FpVar::Var(v.add_constant(cs, *c)),
            (FpVar::Var(v), FpVar::Constant(c)) => FpVar::Var(v.add_constant(cs, *c)),
            (FpVar::Var(v1), FpVar::Var(v2)) => FpVar::Var(v1.add(cs, v2)),
        };
        proof {
            crate::field::lemma_f_ops_bounded(self.value_nat(), other.value_nat());
            crate::field::lemma_fp_of_small(f_add(self.value_nat(), other.value_nat()));
            if let (FpVar::Constant(c), FpVar::Var(v)) = (self, other) {
                crate::fp_var::lemma_f_add_comm(c@, v.wit_nat());
                crate::field::lemma_f_ops_bounded(v.wit_nat(), c@);
                crate::field::lemma_fp_of_small(f_add(v.wit_nat(), c@));
            }
        }
        r
    }

    /// Outputs `self - other`: never a constraint.
    pub fn sub(&self, cs: &mut ConstraintSystem, other: &FpVar) -> (r: FpVar)
        requires
            old(cs).wf(),
            self.wf(old(cs)),
            other.wf(old(cs)),
        ensures
            final(cs).wf(),
            final(cs).extends(old(cs)),
            final(cs).nc() == old(cs).nc(),
            final(cs).nw() == old(cs).nw(),
            final(cs).ni() == old(cs).ni(),
            final(cs).constraints == old(cs).constraints,
            final(cs).is_complete() == old(cs).is_complete(),
            final(cs).spec_satisfied() == old(cs).spec_satisfied(),
            self.spec_is_constant() && other.spec_is_constant() ==> *final(cs) == *old(cs)
                && r.spec_is_constant(),
            r.wf(final(cs)),
            r.has_value() == (self.has_value() && other.has_value()),
            r.has_value() ==> r.value_nat() == f_sub(self.value_nat(), other.value_nat()),
            self.tracks(old(cs)) && other.tracks(old(cs)) ==> r.tracks(final(cs)),
    {
        let r = match (self, other) {
            (FpVar::Constant(c1), FpVar::Constant(c2)) => FpVar::Constant(c1.sub_fp(c2)),
            (FpVar::Var(v), FpVar::Constant(c)) => FpVar::Var(v.sub_constant(cs, *c)),
            (FpVar::Constant(c), FpVar::Var(v)) => {
                let d = v.sub_constant(cs, *c);
                FpVar::Var(d.negate(cs))
            },
            (FpVar::Var(v1), FpVar::Var(v2)) => FpVar::Var(v1.sub(cs, v2)),
        };
        proof {
            crate::field::lemma_f_ops_bounded(self.value_nat(), other.value_nat());
            crate::field::lemma_fp_of_small(f_sub(self.value_nat(), other.value_nat()));
            match (self, other) {
                (FpVar::Constant(c), FpVar::Var(v)) => {
                    crate::field::lemma_f_ops_bounded(c@, 0);
                    crate::field::lemma_fp_of_small(f_neg(c@));
                    crate::fp_var::lemma_add_neg_is_sub(v.wit_nat(), c@);
                    crate::field::lemma_f_ops_bounded(v.wit_nat(), c@);
                    crate::field::lemma_fp_of_small(f_sub(v.wit_nat(), c@));
                    crate::fp_var::lemma_f_neg_sub(v.wit_nat(), c@);
                    crate::field::lemma_fp_of_small(f_neg(f_sub(v.wit_nat(), c@)));
                },
                (FpVar::Var(v), FpVar::Constant(c)) => {
                    crate::field::lemma_f_ops_bounded(c@, 0);
                    crate::field::lemma_fp_of_small(f_neg(c@));
                    crate::fp_var::lemma_add_neg_is_sub(v.wit_nat(), c@);
                },
                _ => {},
            }
        }
        r
    }

    /// Outputs `self * other`: constants fold for free; a constant beside
    /// a variable costs no constraint; two true variables cost exactly one
    /// multiplication constraint.
    pub fn mul(&self, cs: &mut ConstraintSystem, other: &FpVar) -> (r: FpVar)
        requires
            old(cs).wf(),
            self.wf(old(cs)),
            other.wf(old(cs)),
        ensures
            final(cs).wf(),
            final(cs).extends(old(cs)),
            final(cs).ni() == old(cs).ni(),
            self.spec_is_constant() && other.spec_is_constant() ==> *final(cs) == *old(cs)
                && r.spec_is_constant(),
            (self.spec_is_constant() || other.spec_is_constant()) ==> final(cs).nc()
                == old(cs).nc() && final(cs).nw() == old(cs).nw(),
            (!self.spec_is_constant() && !other.spec_is_constant()) ==> final(cs).nc()
                == old(cs).nc() + 1 && final(cs).nw() == old(cs).nw() + 1,
            r.spec_is_constant() == (self.spec_is_constant() && other.spec_is_constant()),
            (old(cs).is_complete() && self.has_value() && other.has_value())
                ==> final(cs).is_complete(),
            (old(cs).spec_satisfied() && self.assigned(old(cs)) && other.assigned(old(cs)))
                ==> final(cs).spec_satisfied(),
            r.wf(final(cs)),
            r.has_value() == (self.has_value() && other.has_value()),
            r.has_value() ==> r.value_nat() == f_mul(self.value_nat(), other.value_nat()),
            self.tracks(old(cs)) && other.tracks(old(cs)) ==> r.tracks(final(cs)),
    {
        let r = match (self, other) {
            (FpVar::Constant(c1), FpVar::Constant(c2)) => FpVar::Constant(c1.mul_fp(c2)),
            (FpVar::Constant(c), FpVar::Var(v)) => FpVar::Var(v.mul_constant(cs, *c)),
            (FpVar::Var(v), FpVar::Constant(c)) => FpVar::Var(v.mul_constant(cs, *c)),
            (FpVar::Var(v1), FpVar::Var(v2)) => FpVar::Var(v1.mul(cs, v2)),
        };
        proof {
            crate::field::lemma_f_ops_bounded(self.value_nat(), other.value_nat());
            crate::field::lemma_fp_of_small(f_mul(self.value_nat(), other.value_nat()));
            if let (FpVar::Constant(c), FpVar::Var(v)) = (self, other) {
                crate::fp_var::lemma_f_mul_comm(c@, v.wit_nat());
                crate::field::lemma_f_ops_bounded(v.wit_nat(), c@);
                crate::field::lemma_fp_of_small(f_mul(v.wit_nat(), c@));
            }
        }
        r
    }

    /// Outputs `self + self`: never a constraint.
    pub fn double(&self, cs: &mut ConstraintSystem) -> (r: Result<FpVar, SynthesisError>)
        requires
            old(cs).wf(),
            self.wf(old(cs)),
        ensures
            final(cs).wf(),
            final(cs).extends(old(cs)),
            final(cs).nc() == old(cs).nc(),
            final(cs).nw() == old(cs).nw(),
            final(cs).ni() == old(cs).ni(),
            final(cs).is_complete() == old(cs).is_complete(),
            final(cs).spec_satisfied() == old(cs).spec_satisfied(),
            self.spec_is_constant() ==> *final(cs) == *old(cs),
            r matches Ok(d) && {
                &&& d.wf(final(cs))
                &&& d.has_value() == self.has_value()
                &&& d.has_value() ==> d.value_nat() == f_add(self.value_nat(), self.value_nat())
            },
    {
        proof {
            crate::field::lemma_f_ops_bounded(self.value_nat(), self.value_nat());
            crate::field::lemma_fp_of_small(f_add(self.value_nat(), self.value_nat()));
        }
        match self {
            FpVar::Constant(c) => Ok(FpVar::Constant(c.double_fp())),
            FpVar::Var(v) => {
                let d = v.double(cs)?;
                Ok(FpVar::Var(d))
            },
        }
    }

    /// Outputs `-self`: never a constraint.
    pub fn negate(&self, cs: &mut ConstraintSystem) -> (r: Result<FpVar, SynthesisError>)
        requires
            old(cs).wf(),
            self.wf(old(cs)),
        ensures
            final(cs).wf(),
            final(cs).extends(old(cs)),
            final(cs).nc() == old(cs).nc(),
            final(cs).nw() == old(cs).nw(),
            final(cs).ni() == old(cs).ni(),
            final(cs).is_complete() == old(cs).is_complete(),
            final(cs).spec_satisfied() == old(cs).spec_satisfied(),
            self.spec_is_constant() ==> *final(cs) == *old(cs),
            r matches Ok(n) && {
                &&& n.wf(final(cs))
                &&& n.has_value() == self.has_value()
                &&& n.has_value() ==> n.value_nat() == f_neg(self.value_nat())
            },
    {
        proof {
            crate::field::lemma_f_ops_bounded(self.value_nat(), 0);
            crate::field::lemma_fp_of_small(f_neg(self.value_nat()));
        }
        match self {
            FpVar::Constant(c) => Ok(FpVar::Constant(c.neg_fp())),
            FpVar::Var(v) => Ok(FpVar::Var(v.negate(cs))),
        }
    }

    /// Outputs `self * self`: one constraint for a true variable, free for
    /// a constant.
    pub fn square(&self, cs: &mut ConstraintSystem) -> (r: Result<FpVar, SynthesisError>)
        requires
            old(cs).wf(),
            self.wf(old(cs)),
        ensures
            final(cs).wf(),
            final(cs).extends(old(cs)),
            final(cs).ni() == old(cs).ni(),
            self.spec_is_constant() ==> *final(cs) == *old(cs),
            !self.spec_is_constant() ==> final(cs).nc() == old(cs).nc() + 1 && final(cs).nw()
                == old(cs).nw() + 1,
            (old(cs).is_complete() && self.has_value()) ==> final(cs).is_complete(),
            (old(cs).spec_satisfied() && self.assigned(old(cs))) ==> final(cs).spec_satisfied(),
            r matches Ok(s) && {
                &&& s.wf(final(cs))
                &&& s.has_value() == self.has_value()
                &&& s.has_value() ==> s.value_nat() == f_mul(self.value_nat(), self.value_nat())
            },
    {
        proof {
            crate::field::lemma_f_ops_bounded(self.value_nat(), self.value_nat());
            crate::field::lemma_fp_of_small(f_mul(self.value_nat(), self.value_nat()));
        }
        match self {
            FpVar::Constant(c) => Ok(FpVar::Constant(c.mul_fp(c))),
            FpVar::Var(v) => {
                let s = v.square(cs)?;
                Ok(FpVar::Var(s))
            },
        }
    }

    /// Outputs the multiplicative inverse.  For a constant this folds, and
    /// the additive identity is rejected with a missing-value error; for a
    /// variable it costs one constraint, and inverting a zero value
    /// encodes an unsatisfiable relation instead of failing here.
    pub fn inverse(&self, cs: &mut ConstraintSystem) -> (r: Result<FpVar, SynthesisError>)
        requires
            old(cs).wf(),
            self.wf(old(cs)),
        ensures
            final(cs).wf(),
            final(cs).extends(old(cs)),
            final(cs).ni() == old(cs).ni(),
            self.spec_is_constant() ==> *final(cs) == *old(cs) && (match self {
                FpVar::Constant(c) => if c@ == 0 {
                    r == Err::<FpVar, SynthesisError>(SynthesisError::MissingWitness)
                } else {
                    r == Ok::<FpVar, SynthesisError>(FpVar::Constant(fp_of(f_inv(c@))))
                },
                FpVar::Var(_) => false,
            }),
            !self.spec_is_constant() ==> final(cs).nc() == old(cs).nc() + 1 && final(cs).nw()
                == old(cs).nw() + 1 && (r matches Ok(i) && {
                &&& i.wf(final(cs))
                &&& i.has_value() == self.has_value()
                &&& i.has_value() ==> i.value_nat() == f_inv(self.value_nat())
            }),
            (old(cs).is_complete() && self.has_value()) ==> final(cs).is_complete(),
            (old(cs).spec_satisfied() && self.assigned(old(cs)) && self.value_nat() != 0)
                ==> final(cs).spec_satisfied(),
            (!self.spec_is_constant() && self.assigned(old(cs)) && self.value_nat() == 0)
                ==> !final(cs).spec_satisfied(),
    {
        match self {
            FpVar::Constant(c) => {
                if c.is_zero() {
                    Err(SynthesisError::MissingWitness)
                } else {
                    let i = c.inv_fp();
                    proof {
                        lemma_fp_eq(i, f_inv(c@));
                    }
                    Ok(FpVar::Constant(i))
                }
            },
            FpVar::Var(v) => {
                let i = v.inverse(cs)?;
                proof {
                    if let Option::Some(x) = v.witness {
                        lemma_fp_of(f_inv(x@));
                        if x@ != 0 {
                            lemma_f_inv_property(x@);
                            lemma_small_mod(f_inv(x@), MODULUS as nat);
                        } else {
                            lemma_small_mod(0, MODULUS as nat);
                        }
                    }
                }
                Ok(FpVar::Var(i))
            },
        }
    }

    /// The Frobenius endomorphism: the identity on a prime field.
    pub fn frobenius_map(&self, _power: usize) -> (r: Result<FpVar, SynthesisError>)
        ensures
            r == Ok::<FpVar, SynthesisError>(*self),
    {
        Ok(*self)
    }

    /// Rebinds `self` to its Frobenius image: the identity here.
    pub fn frobenius_map_in_place(&mut self, power: usize) -> (r: Result<(), SynthesisError>)
        ensures
            *final(self) == *old(self),
            r is Ok,
    {
        let next = self.frobenius_map(power)?;
        *self = next;
        Ok(())
    }
}

/// Whether every element of the batch has a known value.
pub open spec fn all_have_value(s: Seq<FpVar>) -> bool {
    forall|k: int| 0 <= k < s.len() ==> (#[trigger] s[k]).has_value()
}

/// Every element of the batch is well-formed for the arena.
pub open spec fn all_elems_wf(s: Seq<FpVar>, cs: &ConstraintSystem) -> bool {
    forall|k: int| 0 <= k < s.len() ==> (#[trigger] s[k]).wf(cs)
}

/// Every element of the batch is a compile-time constant.
pub open spec fn all_constant(s: Seq<FpVar>) -> bool {
    forall|k: int| 0 <= k < s.len() ==> (#[trigger] s[k]).spec_is_constant()
}

/// Every element of the batch has a known value that agrees with the
/// stored assignment.
pub open spec fn all_elems_tracked(s: Seq<FpVar>, cs: &ConstraintSystem) -> bool {
    forall|k: int|
        0 <= k < s.len() ==> (#[trigger] s[k]).has_value() && s[k].tracks(cs)
}

/// The field sum of the batch's values.
pub open spec fn fpvar_sum_nat(s: Seq<FpVar>) -> nat
    decreases s.len(),
{
    if s.len() == 0 {
        0
    } else {
        f_add(fpvar_sum_nat(s.drop_last()), s.last().value_nat())
    }
}

/// The field inner product of two batches' values.
pub open spec fn fpvar_dot_nat(a: Seq<FpVar>, b: Seq<FpVar>) -> nat
    decreases a.len(),
{
    if a.len() == 0 {
        0
    } else {
        f_add(
            fpvar_dot_nat(a.drop_last(), b.drop_last()),
            f_mul(a.last().value_nat(), b.last().value_nat()),
        )
    }
}

/// The number of pairs in which both sides are true variables — the pairs
/// that cost a multiplication constraint in an inner product.
pub open spec fn count_var_pairs(a: Seq<FpVar>, b: Seq<FpVar>) -> nat
    decreases a.len(),
{
    if a.len() == 0 {
        0
    } else {
        count_var_pairs(a.drop_last(), b.drop_last()) + (if !a.last().spec_is_constant()
            && !b.last().spec_is_constant() {
            1nat
        } else {
            0nat
        })
    }
}

impl FpVar {
    /// Enforces `self == other` whenever the selector is true.  Two
    /// constants are compared at compile time for free — and, as a
    /// deliberate property of the dispatch, never checked against each
    /// other; otherwise one constraint is paid, materializing a constant
    /// operand as a registered combination where needed.
    pub fn conditional_enforce_equal(
        &self,
        cs: &mut ConstraintSystem,
        other: &FpVar,
        should_enforce: &Boolean,
    ) -> (r: Result<(), SynthesisError>)
        requires
            old(cs).wf(),
            self.wf(old(cs)),
            other.wf(old(cs)),
            should_enforce.wf(old(cs)),
        ensures
            final(cs).wf(),
            final(cs).extends(old(cs)),
            final(cs).nw() == old(cs).nw(),
            final(cs).ni() == old(cs).ni(),
            r is Ok,
            final(cs).is_complete() == old(cs).is_complete(),
            self.spec_is_constant() && other.spec_is_constant() ==> *final(cs) == *old(cs),
            !(self.spec_is_constant() && other.spec_is_constant()) ==> final(cs).nc() == old(
                cs,
            ).nc() + 1,
            (old(cs).spec_satisfied() && self.assigned(old(cs)) && other.assigned(old(cs))
                && should_enforce.assigned(old(cs)) && (!should_enforce.spec_value()
                || self.value_nat() == other.value_nat())) ==> final(cs).spec_satisfied(),
    {
        match (self, other) {
            (FpVar::Constant(_), FpVar::Constant(_)) => Ok(()),
            (FpVar::Constant(c), FpVar::Var(v)) => {
                let cv = AllocatedFp::new_constant(cs, *c);
                let ghost mid = *cs;
                proof {
                    lemma_enforce_setup(*should_enforce, *v, old(cs), &mid);
                }
                let r = cv.conditional_enforce_equal(cs, v, should_enforce);
                proof {
                    crate::cs::lemma_extends_trans(final(cs), &mid, old(cs));
                }
                r
            },
            (FpVar::Var(v), FpVar::Constant(c)) => {
                let cv = AllocatedFp::new_constant(cs, *c);
                let ghost mid = *cs;
                proof {
                    lemma_enforce_setup(*should_enforce, *v, old(cs), &mid);
                }
                let r = cv.conditional_enforce_equal(cs, v, should_enforce);
                proof {
                    crate::cs::lemma_extends_trans(final(cs), &mid, old(cs));
                }
                r
            },
            (FpVar::Var(v1), FpVar::Var(v2)) => v1.conditional_enforce_equal(
                cs,
                v2,
                should_enforce,
            ),
        }
    }

    /// Enforces `self == other` unconditionally: free for two constants,
    /// one constraint otherwise.
    pub fn enforce_equal(&self, cs: &mut ConstraintSystem, other: &FpVar) -> (r: Result<
        (),
        SynthesisError,
    >)
        requires
            old(cs).wf(),
            self.wf(old(cs)),
            other.wf(old(cs)),
        ensures
            final(cs).wf(),
            final(cs).extends(old(cs)),
            final(cs).nw() == old(cs).nw(),
            final(cs).ni() == old(cs).ni(),
            r is Ok,
            final(cs).is_complete() == old(cs).is_complete(),
            self.spec_is_constant() && other.spec_is_constant() ==> *final(cs) == *old(cs),
            !(self.spec_is_constant() && other.spec_is_constant()) ==> final(cs).nc() == old(
                cs,
            ).nc() + 1,
            (old(cs).spec_satisfied() && self.assigned(old(cs)) && other.assigned(old(cs))
                && self.value_nat() == other.value_nat()) ==> final(cs).spec_satisfied(),
    {
        self.conditional_enforce_equal(cs, other, &Boolean::Constant(true))
    }

    /// Enforces `self != other` whenever the selector is true: free for
    /// two constants, one constraint and one fresh multiplier witness
    /// otherwise.
    pub fn conditional_enforce_not_equal(
        &self,
        cs: &mut ConstraintSystem,
        other: &FpVar,
        should_enforce: &Boolean,
    ) -> (r: Result<(), SynthesisError>)
        requires
            old(cs).wf(),
            self.wf(old(cs)),
            other.wf(old(cs)),
            should_enforce.wf(old(cs)),
        ensures
            final(cs).wf(),
            final(cs).extends(old(cs)),
            final(cs).ni() == old(cs).ni(),
            r is Ok,
            self.spec_is_constant() && other.spec_is_constant() ==> *final(cs) == *old(cs),
            !(self.spec_is_constant() && other.spec_is_constant()) ==> final(cs).nc() == old(
                cs,
            ).nc() + 1 && final(cs).nw() == old(cs).nw() + 1,
    {
        match (self, other) {
            (FpVar::Constant(_), FpVar::Constant(_)) => Ok(()),
            (FpVar::Constant(c), FpVar::Var(v)) => {
                let cv = AllocatedFp::new_constant(cs, *c);
                let ghost mid = *cs;
                let r = cv.conditional_enforce_not_equal(cs, v, should_enforce);
                proof {
                    crate::cs::lemma_extends_trans(final(cs), &mid, old(cs));
                }
                r
            },
            (FpVar::Var(v), FpVar::Constant(c)) => {
                let cv = AllocatedFp::new_constant(cs, *c);
                let ghost mid = *cs;
                let r = cv.conditional_enforce_not_equal(cs, v, should_enforce);
                proof {
                    crate::cs::lemma_extends_trans(final(cs), &mid, old(cs));
                }
                r
            },
            (FpVar::Var(v1), FpVar::Var(v2)) => v1.conditional_enforce_not_equal(
                cs,
                v2,
                should_enforce,
            ),
        }
    }

    /// Outputs the bit `self == other`: free for two constants, two
    /// constraints otherwise.
    pub fn is_eq(&self, cs: &mut ConstraintSystem, other: &FpVar) -> (r: Result<
        Boolean,
        SynthesisError,
    >)
        requires
            old(cs).wf(),
            self.wf(old(cs)),
            other.wf(old(cs)),
        ensures
            final(cs).wf(),
            final(cs).extends(old(cs)),
            final(cs).ni() == old(cs).ni(),
            self.spec_is_constant() && other.spec_is_constant() ==> *final(cs) == *old(cs),
            !(self.spec_is_constant() && other.spec_is_constant()) ==> final(cs).nc() == old(
                cs,
            ).nc() + 2 && final(cs).nw() == old(cs).nw() + 2,
            (old(cs).is_complete() && self.has_value() && other.has_value())
                ==> final(cs).is_complete(),
            (old(cs).spec_satisfied() && self.assigned(old(cs)) && other.assigned(old(cs)))
                ==> final(cs).spec_satisfied(),
            r matches Ok(b) && {
                &&& b.wf(final(cs))
                &&& b.has_value() == (self.has_value() && other.has_value())
                &&& (self.has_value() && other.has_value()) ==> b.spec_value() == (
                self.value_nat() == other.value_nat())
                &&& self.spec_is_constant() && other.spec_is_constant() ==> b matches
                    Boolean::Constant(_)
            },
    {
        match (self, other) {
            (FpVar::Constant(c1), FpVar::Constant(c2)) => {
                proof {
                    if c1@ == c2@ {
                        crate::field::lemma_fp_view_injective(*c1, *c2);
                    }
                }
                Ok(Boolean::Constant(c1.as_u64() == c2.as_u64()))
            },
            (FpVar::Constant(c), FpVar::Var(v)) => {
                let cv = AllocatedFp::new_constant(cs, *c);
                let ghost mid = *cs;
                proof {
                    lemma_enforce_setup(Boolean::Constant(true), *v, old(cs), &mid);
                }
                let r = cv.is_eq(cs, v)?;
                proof {
                    crate::cs::lemma_extends_trans(final(cs), &mid, old(cs));
                }
                Ok(r)
            },
            (FpVar::Var(v), FpVar::Constant(c)) => {
                let cv = AllocatedFp::new_constant(cs, *c);
                let ghost mid = *cs;
                proof {
                    lemma_enforce_setup(Boolean::Constant(true), *v, old(cs), &mid);
                }
                let r = cv.is_eq(cs, v)?;
                proof {
                    crate::cs::lemma_extends_trans(final(cs), &mid, old(cs));
                }
                Ok(r)
            },
            (FpVar::Var(v1), FpVar::Var(v2)) => v1.is_eq(cs, v2),
        }
    }

    /// Enforces `self * other = result`.  All-constant triples are free —
    /// and deliberately unchecked; a product involving a constant is
    /// folded and enforced as a linear equality; only a product of two
    /// true variables pays the multiplication gate directly.
    pub fn mul_equals(&self, cs: &mut ConstraintSystem, other: &FpVar, result: &FpVar) -> (r:
        Result<(), SynthesisError>)
        requires
            old(cs).wf(),
            self.wf(old(cs)),
            other.wf(old(cs)),
            result.wf(old(cs)),
        ensures
            final(cs).wf(),
            final(cs).extends(old(cs)),
            final(cs).ni() == old(cs).ni(),
            r is Ok,
            self.spec_is_constant() && other.spec_is_constant() && result.spec_is_constant()
                ==> *final(cs) == *old(cs),
            !(self.spec_is_constant() && other.spec_is_constant() && result.spec_is_constant())
                ==> final(cs).nc() == old(cs).nc() + 1,
            (old(cs).spec_satisfied() && self.assigned(old(cs)) && other.assigned(old(cs))
                && result.assigned(old(cs)) && f_mul(self.value_nat(), other.value_nat())
                == result.value_nat()) ==> final(cs).spec_satisfied(),
    {
        match (self, other, result) {
            (FpVar::Constant(_), FpVar::Constant(_), FpVar::Constant(_)) => Ok(()),
            (FpVar::Var(v1), FpVar::Var(v2), FpVar::Var(v3)) => v1.mul_equals(cs, v2, v3),
            (FpVar::Var(v1), FpVar::Var(v2), FpVar::Constant(f)) => {
                let v3 = AllocatedFp::new_constant(cs, *f);
                let ghost mid = *cs;
                proof {
                    lemma_enforce_setup(Boolean::Constant(true), *v1, old(cs), &mid);
                    lemma_enforce_setup(Boolean::Constant(true), *v2, old(cs), &mid);
                }
                let r = v1.mul_equals(cs, v2, &v3);
                proof {
                    crate::cs::lemma_extends_trans(final(cs), &mid, old(cs));
                }
                r
            },
            _ => {
                let product = self.mul(cs, other);
                let ghost mid = *cs;
                proof {
                    if old(cs).spec_satisfied() && self.assigned(old(cs)) && other.assigned(
                        old(cs),
                    ) && result.assigned(old(cs)) && f_mul(self.value_nat(), other.value_nat())
                        == result.value_nat() {
                        if let FpVar::Var(rv) = result {
                            lemma_enforce_setup(Boolean::Constant(true), *rv, old(cs), &mid);
                        }
                        assert(result.assigned(&mid));
                        assert(product.assigned(&mid));
                    }
                }
                let r = result.enforce_equal(cs, &product);
                proof {
                    crate::cs::lemma_extends_trans(final(cs), &mid, old(cs));
                }
                r
            },
        }
    }

    /// Enforces `self * self = result`: one constraint unless everything
    /// is constant; a constant side is first carried into a fresh witness.
    pub fn square_equals(&self, cs: &mut ConstraintSystem, result: &FpVar) -> (r: Result<
        (),
        SynthesisError,
    >)
        requires
            old(cs).wf(),
            self.wf(old(cs)),
            result.wf(old(cs)),
        ensures
            final(cs).wf(),
            final(cs).extends(old(cs)),
            final(cs).ni() == old(cs).ni(),
            r is Ok,
            self.spec_is_constant() && result.spec_is_constant() ==> *final(cs) == *old(cs),
            !(self.spec_is_constant() && result.spec_is_constant()) ==> final(cs).nc() == old(
                cs,
            ).nc() + 1,
            (old(cs).spec_satisfied() && self.assigned(old(cs)) && result.assigned(old(cs))
                && f_mul(self.value_nat(), self.value_nat()) == result.value_nat())
                ==> final(cs).spec_satisfied(),
    {
        match (self, result) {
            (FpVar::Constant(_), FpVar::Constant(_)) => Ok(()),
            (FpVar::Constant(f), FpVar::Var(rv)) => {
                let v = AllocatedFp::new_witness(cs, Option::Some(*f));
                let ghost mid = *cs;
                proof {
                    lemma_enforce_setup(Boolean::Constant(true), *rv, old(cs), &mid);
                }
                let r = v.square_equals(cs, rv);
                proof {
                    crate::cs::lemma_extends_trans(final(cs), &mid, old(cs));
                }
                r
            },
            (FpVar::Var(v), FpVar::Constant(f)) => {
                let rv = AllocatedFp::new_witness(cs, Option::Some(*f));
                let ghost mid = *cs;
                proof {
                    lemma_enforce_setup(Boolean::Constant(true), *v, old(cs), &mid);
                }
                let r = v.square_equals(cs, &rv);
                proof {
                    crate::cs::lemma_extends_trans(final(cs), &mid, old(cs));
                }
                r
            },
            (FpVar::Var(v1), FpVar::Var(v2)) => v1.square_equals(cs, v2),
        }
    }

    /// Sums a batch of elements: constants fold into one scalar, the
    /// variables batch into a single linear combination; never a
    /// constraint.
    pub fn sum(cs: &mut ConstraintSystem, elems: &[FpVar]) -> (r: FpVar)
        requires
            old(cs).wf(),
            all_elems_wf(elems@, old(cs)),
        ensures
            final(cs).wf(),
            final(cs).extends(old(cs)),
            final(cs).nc() == old(cs).nc(),
            final(cs).nw() == old(cs).nw(),
            final(cs).ni() == old(cs).ni(),
            final(cs).nl() <= old(cs).nl() + 2,
            final(cs).is_complete() == old(cs).is_complete(),
            final(cs).spec_satisfied() == old(cs).spec_satisfied(),
            all_constant(elems@) ==> *final(cs) == *old(cs) && r.spec_is_constant(),
            r.wf(final(cs)),
            r.has_value() == all_have_value(elems@),
            r.has_value() ==> r.value_nat() == fpvar_sum_nat(elems@),
            all_elems_tracked(elems@, old(cs)) ==> r.tracks(final(cs)),
    {
        let mut sum_constants = Fp::zero();
        let mut vars: Vec<AllocatedFp> = Vec::new();
        let mut i: usize = 0;
        while i < elems.len()
            invariant
                i <= elems@.len(),
                old(cs).wf(),
                all_elems_wf(elems@, old(cs)),
                sum_constants.valid(),
                crate::fp_var::all_wf(vars@, old(cs)),
                all_have_value(elems@.subrange(0, i as int)) == crate::fp_var::all_have_witness(
                    vars@,
                ),
                all_have_value(elems@.subrange(0, i as int)) ==> f_add(
                    crate::fp_var::wit_sum_nat(vars@),
                    sum_constants@,
                ) == fpvar_sum_nat(elems@.subrange(0, i as int)),
                all_elems_tracked(elems@, old(cs)) ==> crate::fp_var::all_tracked(
                    vars@,
                    old(cs),
                ),
                all_constant(elems@.subrange(0, i as int)) ==> vars@.len() == 0,
            decreases elems@.len() - i,
        {
            let e = elems[i];
            let ghost pre = elems@.subrange(0, i as int);
            let ghost post = elems@.subrange(0, i as int + 1);
            let ghost old_vars = vars@;
            let ghost old_const = sum_constants@;
            proof {
                assert(post.drop_last() =~= pre);
                assert(post.last() == elems@[i as int]);
            }
            match e {
                FpVar::Constant(c) => {
                    sum_constants = sum_constants.add_fp(&c);
                },
                FpVar::Var(v) => {
                    vars.push(v);
                    proof {
                        assert(vars@.drop_last() =~= old_vars);
                        assert(vars@.last() == v);
                    }
                },
            }
            proof {
                assert forall|k: int|
                    0 <= k < vars@.len() implies (#[trigger] vars@[k]).wf(old(cs)) by {
                    if k < old_vars.len() {
                        assert(vars@[k] == old_vars[k]);
                    }
                };
                if all_elems_tracked(elems@, old(cs)) {
                    assert(elems@[i as int].has_value() && elems@[i as int].tracks(old(cs)));
                    assert forall|k: int|
                        0 <= k < vars@.len() implies (#[trigger] vars@[k]).witness is Some
                        && vars@[k].tracks(old(cs)) by {
                        if k < old_vars.len() {
                            assert(vars@[k] == old_vars[k]);
                            assert(old_vars[k].witness is Some && old_vars[k].tracks(old(cs)));
                        }
                    };
                }
                lemma_sum_step(e, pre, post, old_vars, vars@, old_const, sum_constants@);
            }
            i += 1;
        }
        proof {
            assert(elems@.subrange(0, elems@.len() as int) =~= elems@);
        }
        if vars.len() == 0 {
            proof {
                if all_have_value(elems@) {
                    crate::field::lemma_f_add_zero(sum_constants@);
                }
            }
            return FpVar::Constant(sum_constants);
        }
        let summed = AllocatedFp::add_many(cs, vars.as_slice());
        let ghost mid = *cs;
        match summed {
            Option::Some(s) => {
                let r = FpVar::Var(s).add(cs, &FpVar::Constant(sum_constants));
                proof {
                    crate::cs::lemma_extends_trans(final(cs), &mid, old(cs));
                    if all_have_value(elems@) {
                        crate::field::lemma_f_ops_bounded(
                            crate::fp_var::wit_sum_nat(vars@),
                            sum_constants@,
                        );
                        crate::field::lemma_fp_of_small(crate::fp_var::wit_sum_nat(vars@));
                    }
                }
                r
            },
            Option::None => {
                proof {
                    assert(false);
                }
                FpVar::Constant(sum_constants)
            },
        }
    }
}

impl FpVar {
    /// The inner product of two equal-length batches, paying a
    /// multiplication gate only where both sides are true variables.
    ///
    /// Pairs are split three ways: two constants fold into a scalar; a
    /// constant beside a variable folds into one shared linear
    /// combination; only variable pairs enter one shared multiplication
    /// batch.  Batches of unequal length are rejected as unsatisfiable.
    #[verifier::rlimit(100)]
    pub fn inner_product(cs: &mut ConstraintSystem, this: &[FpVar], other: &[FpVar]) -> (r:
        Result<FpVar, SynthesisError>)
        requires
            old(cs).wf(),
            all_elems_wf(this@, old(cs)),
            all_elems_wf(other@, old(cs)),
        ensures
            final(cs).wf(),
            final(cs).extends(old(cs)),
            final(cs).ni() == old(cs).ni(),
            (old(cs).is_complete() && all_have_value(this@) && all_have_value(other@))
                ==> final(cs).is_complete(),
            (old(cs).spec_satisfied() && all_elems_tracked(this@, old(cs)) && all_elems_tracked(
                other@,
                old(cs),
            )) ==> final(cs).spec_satisfied(),
            this@.len() != other@.len() ==> r == Err::<FpVar, SynthesisError>(
                SynthesisError::Unsatisfiable,
            ) && *final(cs) == *old(cs),
            this@.len() == other@.len() ==> {
                &&& final(cs).nc() == old(cs).nc() + count_var_pairs(this@, other@)
                &&& (all_constant(this@) && all_constant(other@)) ==> *final(cs) == *old(cs)
                &&& r matches Ok(p) && {
                    &&& p.wf(final(cs))
                    &&& p.has_value() == (all_have_value(this@) && all_have_value(other@))
                    &&& p.has_value() ==> p.value_nat() == fpvar_dot_nat(this@, other@)
                    &&& (all_elems_tracked(this@, old(cs)) && all_elems_tracked(other@, old(cs)))
                        ==> p.tracks(final(cs))
                    &&& (all_constant(this@) && all_constant(other@)) ==> p.spec_is_constant()
                }
            },
    {
        if this.len() != other.len() {
            return Err(SynthesisError::Unsatisfiable);
        }
        let mut sum_constants = Fp::zero();
        let mut lc_coeffs: Vec<Fp> = Vec::new();
        let mut lc_vars: Vec<AllocatedFp> = Vec::new();
        let mut vars_left: Vec<AllocatedFp> = Vec::new();
        let mut vars_right: Vec<AllocatedFp> = Vec::new();
        let mut i: usize = 0;
        while i < this.len()
            invariant
                i <= this@.len(),
                this@.len() == other@.len(),
                old(cs).wf(),
                all_elems_wf(this@, old(cs)),
                all_elems_wf(other@, old(cs)),
                sum_constants.valid(),
                lc_coeffs@.len() == lc_vars@.len(),
                vars_left@.len() == vars_right@.len(),
                vars_left@.len() == count_var_pairs(
                    this@.subrange(0, i as int),
                    other@.subrange(0, i as int),
                ),
                forall|k: int| 0 <= k < lc_coeffs@.len() ==> (#[trigger] lc_coeffs@[k]).valid(),
                crate::fp_var::all_wf(lc_vars@, old(cs)),
                crate::fp_var::all_wf(vars_left@, old(cs)),
                crate::fp_var::all_wf(vars_right@, old(cs)),
                (all_have_value(this@.subrange(0, i as int)) && all_have_value(
                    other@.subrange(0, i as int),
                )) == (crate::fp_var::all_have_witness(lc_vars@)
                    && crate::fp_var::all_have_witness(vars_left@)
                    && crate::fp_var::all_have_witness(vars_right@)),
                (all_have_value(this@.subrange(0, i as int)) && all_have_value(
                    other@.subrange(0, i as int),
                )) ==> crate::field::fmod(
                    (sum_constants@ + crate::fp_var::wit_lincomb_nat(lc_coeffs@, lc_vars@)
                        + crate::fp_var::wit_dot_nat(vars_left@, vars_right@)) as int,
                ) == fpvar_dot_nat(this@.subrange(0, i as int), other@.subrange(0, i as int)),
                (all_elems_tracked(this@, old(cs)) && all_elems_tracked(other@, old(cs))) ==> (
                crate::fp_var::all_tracked(lc_vars@, old(cs)) && crate::fp_var::all_tracked(
                    vars_left@,
                    old(cs),
                ) && crate::fp_var::all_tracked(vars_right@, old(cs))),
                (all_constant(this@.subrange(0, i as int)) && all_constant(
                    other@.subrange(0, i as int),
                )) ==> lc_vars@.len() == 0 && vars_left@.len() == 0,
            decreases this@.len() - i,
        {
            let x = this[i];
            let y = other[i];
            let ghost pre_t = this@.subrange(0, i as int);
            let ghost pre_o = other@.subrange(0, i as int);
            let ghost post_t = this@.subrange(0, i as int + 1);
            let ghost post_o = other@.subrange(0, i as int + 1);
            let ghost s0 = sum_constants@;
            let ghost lc0 = lc_coeffs@;
            let ghost lv0 = lc_vars@;
            let ghost vl0 = vars_left@;
            let ghost vr0 = vars_right@;
            proof {
                assert(post_t.drop_last() =~= pre_t);
                assert(post_o.drop_last() =~= pre_o);
                assert(post_t.last() == this@[i as int]);
                assert(post_o.last() == other@[i as int]);
            }
            match (x, y) {
                (FpVar::Constant(cx), FpVar::Constant(cy)) => {
                    let prod = cx.mul_fp(&cy);
                    sum_constants = sum_constants.add_fp(&prod);
                },
                (FpVar::Constant(cx), FpVar::Var(vy)) => {
                    lc_coeffs.push(cx);
                    lc_vars.push(vy);
                },
                (FpVar::Var(vx), FpVar::Constant(cy)) => {
                    lc_coeffs.push(cy);
                    lc_vars.push(vx);
                },
                (FpVar::Var(vx), FpVar::Var(vy)) => {
                    vars_left.push(vx);
                    vars_right.push(vy);
                },
            }
            proof {
                lemma_dot_partition_step(
                    x,
                    y,
                    pre_t,
                    pre_o,
                    post_t,
                    post_o,
                    s0,
                    lc0,
                    lv0,
                    vl0,
                    vr0,
                    sum_constants@,
                    lc_coeffs@,
                    lc_vars@,
                    vars_left@,
                    vars_right@,
                );
                assert forall|k: int|
                    0 <= k < lc_vars@.len() implies (#[trigger] lc_vars@[k]).wf(old(cs)) by {
                    if k < lv0.len() {
                        assert(lc_vars@[k] == lv0[k]);
                    }
                };
                assert forall|k: int|
                    0 <= k < vars_left@.len() implies (#[trigger] vars_left@[k]).wf(old(cs)) by {
                    if k < vl0.len() {
                        assert(vars_left@[k] == vl0[k]);
                    }
                };
                assert forall|k: int|
                    0 <= k < vars_right@.len() implies (#[trigger] vars_right@[k]).wf(old(cs)) by {
                    if k < vr0.len() {
                        assert(vars_right@[k] == vr0[k]);
                    }
                };
                assert forall|k: int|
                    0 <= k < lc_coeffs@.len() implies (#[trigger] lc_coeffs@[k]).valid() by {
                    if k < lc0.len() {
                        assert(lc_coeffs@[k] == lc0[k]);
                    }
                };
                if all_elems_tracked(this@, old(cs)) && all_elems_tracked(other@, old(cs)) {
                    assert(this@[i as int].has_value() && this@[i as int].tracks(old(cs)));
                    assert(other@[i as int].has_value() && other@[i as int].tracks(old(cs)));
                    match (x, y) {
                        (FpVar::Constant(_), FpVar::Constant(_)) => {},
                        (FpVar::Constant(_), FpVar::Var(vy)) => {
                            assert(lc_vars@.drop_last() =~= lv0);
                            assert(vy.witness is Some && vy.tracks(old(cs)));
                        },
                        (FpVar::Var(vx), FpVar::Constant(_)) => {
                            assert(lc_vars@.drop_last() =~= lv0);
                            assert(vx.witness is Some && vx.tracks(old(cs)));
                        },
                        (FpVar::Var(vx), FpVar::Var(vy)) => {
                            assert(vars_left@.drop_last() =~= vl0);
                            assert(vars_right@.drop_last() =~= vr0);
                            assert(vx.witness is Some && vx.tracks(old(cs)));
                            assert(vy.witness is Some && vy.tracks(old(cs)));
                        },
                    }
                    lemma_tracked_push(lv0, lc_vars@, old(cs));
                    lemma_tracked_push(vl0, vars_left@, old(cs));
                    lemma_tracked_push(vr0, vars_right@, old(cs));
                }
            }
            i += 1;
        }
        proof {
            assert(this@.subrange(0, this@.len() as int) =~= this@);
            assert(other@.subrange(0, other@.len() as int) =~= other@);
        }
        let ghost tracked_inputs = all_elems_tracked(this@, old(cs)) && all_elems_tracked(
            other@,
            old(cs),
        );
        let sum_lc = AllocatedFp::linear_combination(cs, lc_coeffs.as_slice(), lc_vars.as_slice());
        let ghost cs1 = *cs;
        proof {
            crate::fp_var::lemma_all_wf_extend(vars_left@, old(cs), &cs1);
            crate::fp_var::lemma_all_wf_extend(vars_right@, old(cs), &cs1);
            if tracked_inputs {
                crate::fp_var::lemma_all_tracked_extend(vars_left@, old(cs), &cs1);
                crate::fp_var::lemma_all_tracked_extend(vars_right@, old(cs), &cs1);
            }
        }
        let sum_vars = AllocatedFp::inner_product(cs, vars_left.as_slice(), vars_right.as_slice());
        let ghost cs2 = *cs;
        proof {
            crate::cs::lemma_extends_trans(&cs2, &cs1, old(cs));
            if tracked_inputs {
                if let Option::Some(a0) = sum_lc {
                    assert(a0.tracks(&cs1));
                    assert(a0.wf(&cs1));
                    crate::cs::lemma_val_extends(&cs1, &cs2, a0.variable);
                }
            }
        }
        let ghost wl = crate::fp_var::wit_lincomb_nat(lc_coeffs@, lc_vars@);
        let ghost wv = crate::fp_var::wit_dot_nat(vars_left@, vars_right@);
        proof {
            crate::field::lemma_f_ops_bounded(wl, wv);
            crate::field::lemma_fp_of_small(wl);
            crate::field::lemma_fp_of_small(wv);
            crate::field::lemma_f_add_unfold(wl, wv, sum_constants@);
            crate::field::lemma_f_add_unfold(wl, sum_constants@, 0);
            crate::field::lemma_f_add_unfold(wv, sum_constants@, 0);
            crate::field::lemma_f_add_zero(sum_constants@);
            crate::field::lemma_fmod_small(sum_constants@);
        }
        let r = match (sum_lc, sum_vars) {
            (Option::Some(a), Option::Some(b)) => {
                proof {
                    if tracked_inputs {
                        assert(FpVar::Var(a).tracks(&cs2));
                        assert(FpVar::Var(b).tracks(&cs2));
                    }
                }
                let partial = FpVar::Var(a).add(cs, &FpVar::Var(b));
                let ghost cs3 = *cs;
                let total = partial.add(cs, &FpVar::Constant(sum_constants));
                proof {
                    crate::cs::lemma_extends_trans(&cs3, &cs2, old(cs));
                    crate::cs::lemma_extends_trans(final(cs), &cs3, old(cs));
                }
                total
            },
            (Option::Some(a), Option::None) => {
                proof {
                    if tracked_inputs {
                        assert(FpVar::Var(a).tracks(&cs2));
                    }
                }
                let total = FpVar::Var(a).add(cs, &FpVar::Constant(sum_constants));
                proof {
                    crate::cs::lemma_extends_trans(final(cs), &cs2, old(cs));
                }
                total
            },
            (Option::None, Option::Some(b)) => {
                proof {
                    if tracked_inputs {
                        assert(FpVar::Var(b).tracks(&cs2));
                    }
                }
                let total = FpVar::Var(b).add(cs, &FpVar::Constant(sum_constants));
                proof {
                    crate::cs::lemma_extends_trans(final(cs), &cs2, old(cs));
                }
                total
            },
            (Option::None, Option::None) => FpVar::Constant(sum_constants),
        };
        Ok(r)
    }
}

/// One step of the inner-product partition keeps the three-bucket fold
/// and the presence bookkeeping.
/// Before a mixed-operand enforcement, the selector and the variable
/// operand stay assigned once the constant side is materialized.
proof fn lemma_enforce_setup(
    b: Boolean,
    v: AllocatedFp,
    cs1: &ConstraintSystem,
    cs2: &ConstraintSystem,
)
    requires
        cs1.wf(),
        cs2.extends(cs1),
        b.wf(cs1),
        v.wf(cs1),
    ensures
        b.tracks(cs1) && b.has_value() ==> b.assigned(cs2),
        v.witness is Some && v.tracks(cs1) ==> v.assigned(cs2),
{
    if b.tracks(cs1) && b.has_value() {
        crate::boolean::lemma_boolean_tracks_extend(b, cs1, cs2);
    }
    if v.witness is Some && v.tracks(cs1) {
        crate::cs::lemma_val_extends(cs1, cs2, v.variable);
    }
}

/// A batch that grew by at most one tracked element from a tracked batch
/// is tracked.
proof fn lemma_tracked_push(s0: Seq<AllocatedFp>, s1: Seq<AllocatedFp>, cs: &ConstraintSystem)
    requires
        crate::fp_var::all_tracked(s0, cs),
        s1 == s0 || (s1.len() == s0.len() + 1 && s1.drop_last() == s0 && s1.last().witness
            is Some && s1.last().tracks(cs)),
    ensures
        crate::fp_var::all_tracked(s1, cs),
{
    if s1 != s0 {
        assert forall|k: int|
            0 <= k < s1.len() implies (#[trigger] s1[k]).witness is Some && s1[k].tracks(cs) by {
            if k < s0.len() {
                assert(s1[k] == s0[k]);
                assert(s0[k].witness is Some && s0[k].tracks(cs));
            } else {
                assert(s1[k] == s1.last());
            }
        };
    }
}

/// Reduction of a three-bucket fold absorbs one more term, whichever
/// bucket it lands in.
proof fn lemma_fold_bucket_step(s: nat, a: nat, b: nat, m: nat, total: nat)
    requires
        fmod((s + a + b) as int) == total,
    ensures
        fmod((f_add(m, s) + a + b) as int) == f_add(total, m),
        fmod((s + f_add(a, m) + b) as int) == f_add(total, m),
        fmod((s + a + f_add(b, m)) as int) == f_add(total, m),
{
    crate::field::lemma_f_add_fmod_left((m + s) as int, (a + b) as nat);
    crate::field::lemma_f_add_fmod_left((a + m) as int, (s + b) as nat);
    crate::field::lemma_f_add_fmod_left((b + m) as int, (s + a) as nat);
    crate::field::lemma_f_add_fmod_left((s + a + b) as int, m);
    assert(f_add(m, s) == fmod((m + s) as int));
    assert(f_add(a, m) == fmod((a + m) as int));
    assert(f_add(b, m) == fmod((b + m) as int));
    assert(fmod((fmod((m + s) as int) + (a + b)) as int) == fmod((m + s + a + b) as int));
    assert(fmod((fmod((a + m) as int) + (s + b)) as int) == fmod((a + m + s + b) as int));
    assert(fmod((fmod((b + m) as int) + (s + a)) as int) == fmod((b + m + s + a) as int));
    assert(f_add(total, m) == fmod((fmod((s + a + b) as int) + m) as int));
    assert(fmod((fmod((s + a + b) as int) + m) as int) == fmod((s + a + b + m) as int));
}

/// One step of the inner-product partition keeps the three-bucket fold
/// and the presence bookkeeping.
proof fn lemma_dot_partition_step(
    x: FpVar,
    y: FpVar,
    pre_t: Seq<FpVar>,
    pre_o: Seq<FpVar>,
    post_t: Seq<FpVar>,
    post_o: Seq<FpVar>,
    s0: nat,
    lc0: Seq<Fp>,
    lv0: Seq<AllocatedFp>,
    vl0: Seq<AllocatedFp>,
    vr0: Seq<AllocatedFp>,
    s1: nat,
    lc1: Seq<Fp>,
    lv1: Seq<AllocatedFp>,
    vl1: Seq<AllocatedFp>,
    vr1: Seq<AllocatedFp>,
)
    requires
        post_t.drop_last() == pre_t,
        post_o.drop_last() == pre_o,
        post_t.last() == x,
        post_o.last() == y,
        post_t.len() == pre_t.len() + 1,
        post_o.len() == pre_o.len() + 1,
        pre_t.len() == pre_o.len(),
        s0 < MODULUS as nat,
        s1 < MODULUS as nat,
        lc0.len() == lv0.len(),
        vl0.len() == vr0.len(),
        match (x, y) {
            (FpVar::Constant(cx), FpVar::Constant(cy)) => s1 == f_add(f_mul(cx@, cy@), s0)
                && lc1 == lc0 && lv1 == lv0 && vl1 == vl0 && vr1 == vr0,
            (FpVar::Constant(cx), FpVar::Var(vy)) => s1 == s0 && lc1 == lc0.push(cx) && lv1
                == lv0.push(vy) && vl1 == vl0 && vr1 == vr0,
            (FpVar::Var(vx), FpVar::Constant(cy)) => s1 == s0 && lc1 == lc0.push(cy) && lv1
                == lv0.push(vx) && vl1 == vl0 && vr1 == vr0,
            (FpVar::Var(vx), FpVar::Var(vy)) => s1 == s0 && lc1 == lc0 && lv1 == lv0 && vl1
                == vl0.push(vx) && vr1 == vr0.push(vy),
        },
        vl0.len() == count_var_pairs(pre_t, pre_o),
        (all_have_value(pre_t) && all_have_value(pre_o)) == (crate::fp_var::all_have_witness(lv0)
            && crate::fp_var::all_have_witness(vl0) && crate::fp_var::all_have_witness(vr0)),
        (all_have_value(pre_t) && all_have_value(pre_o)) ==> crate::field::fmod(
            (s0 + crate::fp_var::wit_lincomb_nat(lc0, lv0) + crate::fp_var::wit_dot_nat(
                vl0,
                vr0,
            )) as int,
        ) == fpvar_dot_nat(pre_t, pre_o),
    ensures
        vl1.len() == count_var_pairs(post_t, post_o),
        (all_have_value(post_t) && all_have_value(post_o)) == (crate::fp_var::all_have_witness(
            lv1,
        ) && crate::fp_var::all_have_witness(vl1) && crate::fp_var::all_have_witness(vr1)),
        (all_have_value(post_t) && all_have_value(post_o)) ==> crate::field::fmod(
            (s1 + crate::fp_var::wit_lincomb_nat(lc1, lv1) + crate::fp_var::wit_dot_nat(
                vl1,
                vr1,
            )) as int,
        ) == fpvar_dot_nat(post_t, post_o),
{
    let wl0 = crate::fp_var::wit_lincomb_nat(lc0, lv0);
    let wv0 = crate::fp_var::wit_dot_nat(vl0, vr0);
    let m = f_mul(x.value_nat(), y.value_nat());
    let d0 = fpvar_dot_nat(pre_t, pre_o);
    assert(fpvar_dot_nat(post_t, post_o) == f_add(d0, m));
    lemma_all_have_push(pre_t, post_t);
    lemma_all_have_push(pre_o, post_o);
    match (x, y) {
        (FpVar::Constant(cx), FpVar::Constant(cy)) => {
            if all_have_value(post_t) && all_have_value(post_o) {
                lemma_fold_bucket_step(s0, wl0, wv0, m, d0);
            }
        },
        (FpVar::Var(vx), FpVar::Var(vy)) => {
            lemma_wit_push_eq(vl0, vl1, vx);
            lemma_wit_push_eq(vr0, vr1, vy);
            if all_have_value(post_t) && all_have_value(post_o) {
                assert(crate::fp_var::wit_dot_nat(vl1, vr1) == f_add(wv0, m)) by {
                    assert(vl1.drop_last() =~= vl0);
                    assert(vr1.drop_last() =~= vr0);
                    assert(vl1.last() == vx);
                    assert(vr1.last() == vy);
                };
                lemma_fold_bucket_step(s0, wl0, wv0, m, d0);
            }
        },
        (FpVar::Constant(cx), FpVar::Var(vy)) => {
            lemma_wit_push_eq(lv0, lv1, vy);
            if all_have_value(post_t) && all_have_value(post_o) {
                assert(crate::fp_var::wit_lincomb_nat(lc1, lv1) == f_add(
                    wl0,
                    f_mul(cx@, vy.wit_nat()),
                )) by {
                    assert(lc1.drop_last() =~= lc0);
                    assert(lv1.drop_last() =~= lv0);
                    assert(lc1.last() == cx);
                    assert(lv1.last() == vy);
                };
                lemma_fold_bucket_step(s0, wl0, wv0, m, d0);
            }
        },
        (FpVar::Var(vx), FpVar::Constant(cy)) => {
            lemma_wit_push_eq(lv0, lv1, vx);
            if all_have_value(post_t) && all_have_value(post_o) {
                assert(crate::fp_var::wit_lincomb_nat(lc1, lv1) == f_add(
                    wl0,
                    f_mul(cy@, vx.wit_nat()),
                )) by {
                    assert(lc1.drop_last() =~= lc0);
                    assert(lv1.drop_last() =~= lv0);
                    assert(lc1.last() == cy);
                    assert(lv1.last() == vx);
                };
                assert(f_mul(cy@, vx.wit_nat()) == m) by {
                    crate::fp_var::lemma_f_mul_comm(cy@, vx.wit_nat());
                };
                lemma_fold_bucket_step(s0, wl0, wv0, m, d0);
            }
        },
    }
}

/// Pushing onto a batch relates its presence to the old batch's.
proof fn lemma_all_have_push(pre: Seq<FpVar>, post: Seq<FpVar>)
    requires
        post.drop_last() == pre,
        post.len() == pre.len() + 1,
    ensures
        all_have_value(post) == (all_have_value(pre) && post.last().has_value()),
{
    if all_have_value(post) {
        assert forall|k: int| 0 <= k < pre.len() implies (#[trigger] pre[k]).has_value() by {
            assert(pre[k] == post[k]);
        };
        assert(post[post.len() - 1].has_value());
    }
    if all_have_value(pre) && post.last().has_value() {
        assert forall|k: int| 0 <= k < post.len() implies (#[trigger] post[k]).has_value() by {
            if k < pre.len() {
                assert(post[k] == pre[k]);
            }
        };
    }
}

/// Pushing onto a witness batch relates its presence to the old batch's.
proof fn lemma_wit_push_eq(s0: Seq<AllocatedFp>, s1: Seq<AllocatedFp>, v: AllocatedFp)
    requires
        s1 == s0.push(v),
    ensures
        crate::fp_var::all_have_witness(s1) == (crate::fp_var::all_have_witness(s0) && v.witness
            is Some),
{
    if crate::fp_var::all_have_witness(s1) {
        assert forall|k: int| 0 <= k < s0.len() implies (#[trigger] s0[k]).witness is Some by {
            assert(s0[k] == s1[k]);
        };
        assert(s1[s1.len() - 1].witness is Some);
    }
    if crate::fp_var::all_have_witness(s0) && v.witness is Some {
        assert forall|k: int| 0 <= k < s1.len() implies (#[trigger] s1[k]).witness is Some by {
            if k < s0.len() {
                assert(s1[k] == s0[k]);
            }
        };
    }
}

/// One step of the sum partition keeps the fold and the presence
/// bookkeeping.
proof fn lemma_sum_step(
    e: FpVar,
    pre: Seq<FpVar>,
    post: Seq<FpVar>,
    old_vars: Seq<AllocatedFp>,
    new_vars: Seq<AllocatedFp>,
    old_const: nat,
    new_const: nat,
)
    requires
        post.drop_last() == pre,
        post.last() == e,
        post.len() == pre.len() + 1,
        old_const < MODULUS as nat,
        new_const < MODULUS as nat,
        match e {
            FpVar::Constant(c) => new_vars == old_vars && new_const == f_add(old_const, c@),
            FpVar::Var(v) => new_vars == old_vars.push(v) && new_const == old_const,
        },
        all_have_value(pre) == crate::fp_var::all_have_witness(old_vars),
        all_have_value(pre) ==> f_add(crate::fp_var::wit_sum_nat(old_vars), old_const)
            == fpvar_sum_nat(pre),
    ensures
        all_have_value(post) == crate::fp_var::all_have_witness(new_vars),
        all_have_value(post) ==> f_add(crate::fp_var::wit_sum_nat(new_vars), new_const)
            == fpvar_sum_nat(post),
{
    let ws = crate::fp_var::wit_sum_nat(old_vars);
    assert(fpvar_sum_nat(post) == f_add(fpvar_sum_nat(pre), e.value_nat()));
    assert(all_have_value(post) == (all_have_value(pre) && e.has_value())) by {
        if all_have_value(post) {
            assert forall|k: int| 0 <= k < pre.len() implies (#[trigger] pre[k]).has_value() by {
                assert(pre[k] == post[k]);
            };
            assert(post[post.len() - 1].has_value());
        }
        if all_have_value(pre) && e.has_value() {
            assert forall|k: int| 0 <= k < post.len() implies (#[trigger] post[k]).has_value() by {
                if k < pre.len() {
                    assert(post[k] == pre[k]);
                }
            };
        }
    };
    match e {
        FpVar::Constant(c) => {
            if all_have_value(post) {
                crate::field::lemma_f_add_unfold(ws, old_const, c@);
                crate::field::lemma_f_add_unfold(ws, c@, old_const);
                assert(f_add(ws, f_add(old_const, c@)) == f_add(f_add(ws, old_const), c@)) by {
                    crate::field::lemma_f_add_assoc(ws, old_const, c@);
                };
            }
        },
        FpVar::Var(v) => {
            assert(crate::fp_var::all_have_witness(new_vars) == (crate::fp_var::all_have_witness(
                old_vars,
            ) && v.witness is Some)) by {
                if crate::fp_var::all_have_witness(new_vars) {
                    assert forall|k: int|
                        0 <= k < old_vars.len() implies (#[trigger] old_vars[k]).witness
                        is Some by {
                        assert(old_vars[k] == new_vars[k]);
                    };
                    assert(new_vars[new_vars.len() - 1].witness is Some);
                }
                if crate::fp_var::all_have_witness(old_vars) && v.witness is Some {
                    assert forall|k: int|
                        0 <= k < new_vars.len() implies (#[trigger] new_vars[k]).witness
                        is Some by {
                        if k < old_vars.len() {
                            assert(new_vars[k] == old_vars[k]);
                        }
                    };
                }
            };
            if all_have_value(post) {
                assert(crate::fp_var::wit_sum_nat(new_vars) == f_add(ws, v.wit_nat())) by {
                    assert(new_vars.drop_last() =~= old_vars);
                    assert(new_vars.last() == v);
                };
                crate::field::lemma_f_add_unfold(ws, v.wit_nat(), old_const);
                crate::field::lemma_f_add_unfold(ws, old_const, v.wit_nat());
            }
        },
    }
}

impl FpVar {
    /// Represents the element over the constraint field: itself.
    pub fn to_constraint_field(&self) -> (r: Vec<FpVar>)
        ensures
            r@.len() == 1,
            r@[0] == *self,
    {
        let mut out: Vec<FpVar> = Vec::new();
        out.push(*self);
        out
    }
}

/// The allocation modes for new elements.
#[derive(Clone, Copy, Debug, PartialEq, Eq, Structural)]
pub enum AllocationMode {
    /// A known constant, free of the arena.
    Constant,
    /// A public-input variable.
    Input,
    /// A witness variable.
    Witness,
}

} // verus!
