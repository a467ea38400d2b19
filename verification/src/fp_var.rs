//! The symbolic field value: one variable handle plus an optional witness.
//!
//! Every operation takes the constraint-system arena explicitly.  Linear
//! work (addition, subtraction, scaling, batching) registers a single
//! linear combination and no constraint; only a product of two true
//! variables allocates a multiplication gate.  The witness of a result is
//! present exactly when every input witness is present; absence is the
//! ordinary state during setup-only compilation, not an error.

use vstd::prelude::*;
use vstd::arithmetic::div_mod::{lemma_add_mod_noop, lemma_mod_twice, lemma_small_mod};
use crate::cs::{
    constraint_sat, lemma_lcs_wf_refs, lemma_var_val_grow, lcs_wf, terms_val, terms_wf, var_val,
    var_wf, vval, ConstraintSystem, LinComb, Variable,
};
use crate::field::{
    f_add, f_inv, f_mul, f_neg, f_sub, fmod, fp_of, lemma_fp_of, lemma_fp_view_injective, Fp,
    MODULUS,
};
use crate::boolean::Boolean;
use crate::SynthesisError;

verus! {

/// The witness of a sum, when both inputs carry one.
pub open spec fn wit_add(a: Option<Fp>, b: Option<Fp>) -> Option<Fp> {
    match (a, b) {
        (Option::Some(x), Option::Some(y)) => Option::Some(fp_of(f_add(x@, y@))),
        _ => Option::None,
    }
}

/// The witness of a difference, when both inputs carry one.
pub open spec fn wit_sub(a: Option<Fp>, b: Option<Fp>) -> Option<Fp> {
    match (a, b) {
        (Option::Some(x), Option::Some(y)) => Option::Some(fp_of(f_sub(x@, y@))),
        _ => Option::None,
    }
}

/// The witness of a product, when both inputs carry one.
pub open spec fn wit_mul(a: Option<Fp>, b: Option<Fp>) -> Option<Fp> {
    match (a, b) {
        (Option::Some(x), Option::Some(y)) => Option::Some(fp_of(f_mul(x@, y@))),
        _ => Option::None,
    }
}

/// The witness of a negation.
pub open spec fn wit_neg(a: Option<Fp>) -> Option<Fp> {
    match a {
        Option::Some(x) => Option::Some(fp_of(f_neg(x@))),
        Option::None => Option::None,
    }
}

/// The present witness is a reduced residue.
pub open spec fn opt_valid(a: Option<Fp>) -> bool {
    match a {
        Option::Some(x) => x.valid(),
        Option::None => true,
    }
}

/// An element with this residue, packaged for equality reasoning.
pub proof fn lemma_fp_eq(x: Fp, n: nat)
    requires
        x@ == n,
        n < MODULUS as nat,
    ensures
        x == fp_of(n),
{
    lemma_fp_of(n);
    lemma_small_mod(n, MODULUS as nat);
    lemma_fp_view_injective(x, fp_of(n));
}

/// The value of a one-term list at any bound.
pub proof fn lemma_one_term_val(
    table: Seq<LinComb>,
    wit: Seq<nat>,
    inst: Seq<nat>,
    c: Fp,
    v: Variable,
    bound: nat,
)
    ensures
        terms_val(table, wit, inst, seq![(c, v)], bound) == (c@ as int) * var_val(
            table,
            wit,
            inst,
            v,
            bound,
        ),
{
    let s = seq![(c, v)];
    assert(s.len() == 1);
    assert(terms_val(table, wit, inst, s, bound) == terms_val(table, wit, inst, s.drop_last(), bound)
        + (s.last().0@ as int) * var_val(table, wit, inst, s.last().1, bound));
    assert(s.drop_last() =~= Seq::<(Fp, Variable)>::empty());
    assert(terms_val(table, wit, inst, Seq::<(Fp, Variable)>::empty(), bound) == 0);
    assert(s.last() == (c, v));
}

/// A table extended past a well-formed prefix gives every variable of the
/// prefix the same value, at the full bound of either table.
pub proof fn lemma_vval_lift(
    t1: Seq<LinComb>,
    t2: Seq<LinComb>,
    wit: Seq<nat>,
    inst: Seq<nat>,
    v: Variable,
    ni: nat,
    nw: nat,
)
    requires
        lcs_wf(t1, ni, nw),
        t1.len() <= t2.len(),
        forall|i: int| 0 <= i < t1.len() ==> t1[i] == t2[i],
        var_wf(v, ni, nw, t1.len() as nat),
    ensures
        var_val(t2, wit, inst, v, t2.len() as nat) == var_val(t1, wit, inst, v, t1.len() as nat),
        vval(t2, wit, inst, v) == vval(t1, wit, inst, v),
        forall|b: nat|
            t1.len() <= b <= t2.len() ==> #[trigger] var_val(t2, wit, inst, v, b) == var_val(
                t1,
                wit,
                inst,
                v,
                t1.len() as nat,
            ),
{
    lemma_lcs_wf_refs(t1, ni, nw, t1.len() as nat);
    assert forall|b: nat|
        t1.len() <= b <= t2.len() implies #[trigger] var_val(t2, wit, inst, v, b) == var_val(
        t1,
        wit,
        inst,
        v,
        t1.len() as nat,
    ) by {
        lemma_var_val_grow(t1, t2, wit, inst, v, t1.len() as nat, b);
    };
    lemma_var_val_grow(t1, t2, wit, inst, v, t1.len() as nat, t2.len() as nat);
}

/// A field element bound to one variable of the arena, with an optional
/// witness.
#[derive(Clone, Copy, Debug)]
pub struct AllocatedFp {
    /// The concrete value, present only in witness-generation mode.
    pub witness: Option<Fp>,
    /// The variable carrying the element.
    pub variable: Variable,
}

impl AllocatedFp {
    /// The handle is valid for the arena and the witness is reduced.
    pub open spec fn wf(&self, cs: &ConstraintSystem) -> bool {
        var_wf(self.variable, cs.ni(), cs.nw(), cs.nl()) && opt_valid(self.witness)
    }

    /// The witness residue, defaulting to zero when absent.
    pub open spec fn wit_nat(&self) -> nat {
        match self.witness {
            Option::Some(w) => w@,
            Option::None => 0,
        }
    }

    /// The witness agrees with the variable's value under the stored
    /// assignment.
    pub open spec fn tracks(&self, cs: &ConstraintSystem) -> bool {
        self.witness matches Option::Some(w) ==> cs.val(self.variable) == w@
    }

    /// The value carries a witness that agrees with the stored assignment.
    pub open spec fn assigned(&self, cs: &ConstraintSystem) -> bool {
        self.witness is Some && self.tracks(cs)
    }

    /// Constructs a symbolic value from an optional witness and a
    /// variable handle.
    pub fn new(value: Option<Fp>, variable: Variable) -> (r: Self)
        ensures
            r.witness == value,
            r.variable == variable,
    {
        Self { witness: value, variable }
    }

    /// Reads the concrete witness, if one was assigned.
    pub fn value(&self) -> (r: Result<Fp, SynthesisError>)
        ensures
            self.witness matches Option::Some(w) ==> r == Ok::<Fp, SynthesisError>(w),
            self.witness is None ==> r == Err::<Fp, SynthesisError>(
                SynthesisError::MissingWitness,
            ),
    {
        match self.witness {
            Option::Some(w) => Ok(w),
            Option::None => Err(SynthesisError::MissingWitness),
        }
    }

    /// Allocates a fresh witness variable carrying the given value.
    pub fn new_witness(cs: &mut ConstraintSystem, value: Option<Fp>) -> (r: Self)
        requires
            old(cs).wf(),
            opt_valid(value),
        ensures
            final(cs).wf(),
            final(cs).extends(old(cs)),
            final(cs).nw() == old(cs).nw() + 1,
            final(cs).ni() == old(cs).ni(),
            final(cs).lc_table == old(cs).lc_table,
            final(cs).constraints == old(cs).constraints,
            final(cs).witness_assignment@ == old(cs).witness_assignment@.push(value),
            final(cs).is_complete() == (old(cs).is_complete() && value is Some),
            final(cs).spec_satisfied() == old(cs).spec_satisfied(),
            r.witness == value,
            r.variable == Variable::Witness(old(cs).nw() as usize),
            r.wf(final(cs)),
            r.tracks(final(cs)),
    {
        let variable = cs.new_witness_variable(value);
        proof {
            crate::cs::lemma_spec_satisfied_frame_eq(old(cs), final(cs));
            if let Option::Some(w) = value {
                let i = old(cs).nw() as int;
                assert(final(cs).witness_assignment@[i] == value);
                assert(final(cs).wit_vals()[i] == w@);
                assert(final(cs).witness_assignment.len() == final(cs).nw());
                assert(var_val(
                    final(cs).lc_table@,
                    final(cs).wit_vals(),
                    final(cs).inst_vals(),
                    variable,
                    final(cs).lc_table@.len() as nat,
                ) == w@ as int);
                lemma_small_mod(w@, MODULUS as nat);
            }
        }
        Self { witness: value, variable }
    }

    /// Allocates a fresh public-input variable carrying the given value.
    pub fn new_input(cs: &mut ConstraintSystem, value: Option<Fp>) -> (r: Self)
        requires
            old(cs).wf(),
            opt_valid(value),
        ensures
            final(cs).wf(),
            final(cs).extends(old(cs)),
            final(cs).ni() == old(cs).ni() + 1,
            final(cs).nw() == old(cs).nw(),
            final(cs).lc_table == old(cs).lc_table,
            final(cs).constraints == old(cs).constraints,
            final(cs).is_complete() == (old(cs).is_complete() && value is Some),
            final(cs).spec_satisfied() == old(cs).spec_satisfied(),
            r.witness == value,
            r.variable == Variable::Instance(old(cs).ni() as usize),
            r.wf(final(cs)),
            r.tracks(final(cs)),
    {
        let variable = cs.new_input_variable(value);
        proof {
            crate::cs::lemma_spec_satisfied_frame_eq(old(cs), final(cs));
            if let Option::Some(w) = value {
                let i = old(cs).ni() as int;
                assert(final(cs).instance_assignment@[i] == value);
                assert(final(cs).inst_vals()[i] == w@);
                assert(final(cs).instance_assignment.len() == final(cs).ni());
                assert(var_val(
                    final(cs).lc_table@,
                    final(cs).wit_vals(),
                    final(cs).inst_vals(),
                    variable,
                    final(cs).lc_table@.len() as nat,
                ) == w@ as int);
                lemma_small_mod(w@, MODULUS as nat);
            }
        }
        Self { witness: value, variable }
    }

    /// Allocates the constant `value` as a registered combination
    /// `value * One`: no constraint, one combination.
    pub fn new_constant(cs: &mut ConstraintSystem, value: Fp) -> (r: Self)
        requires
            old(cs).wf(),
            value.valid(),
        ensures
            final(cs).wf(),
            final(cs).extends(old(cs)),
            final(cs).nc() == old(cs).nc(),
            final(cs).nl() == old(cs).nl() + 1,
            final(cs).nw() == old(cs).nw(),
            final(cs).ni() == old(cs).ni(),
            final(cs).constraints == old(cs).constraints,
            final(cs).witness_assignment == old(cs).witness_assignment,
            final(cs).instance_assignment == old(cs).instance_assignment,
            final(cs).is_complete() == old(cs).is_complete(),
            final(cs).spec_satisfied() == old(cs).spec_satisfied(),
            r.witness == Option::Some(value),
            r.wf(final(cs)),
            r.tracks(final(cs)),
            forall|wit: Seq<nat>, inst: Seq<nat>|
                #[trigger] vval(final(cs).lc_table@, wit, inst, r.variable) == value@,
    {
        let terms = vec![(value, Variable::One)];
        proof {
            assert(terms_wf(terms@, old(cs).ni(), old(cs).nw(), old(cs).nl()));
        }
        let variable = cs.new_lc(terms);
        proof {
            crate::cs::lemma_spec_satisfied_frame_eq(old(cs), final(cs));
            let t2 = final(cs).lc_table@;
            assert forall|wit: Seq<nat>, inst: Seq<nat>|
                #[trigger] vval(t2, wit, inst, variable) == value@ by {
                assert(vval(t2, wit, inst, variable) == fmod(
                    terms_val(t2, wit, inst, terms@, old(cs).nl()),
                ));
                assert(terms@ =~= seq![(value, Variable::One)]);
                lemma_one_term_val(t2, wit, inst, value, Variable::One, old(cs).nl());
                assert((value@ as int) * var_val(t2, wit, inst, Variable::One, old(cs).nl())
                    == value@ as int);
                lemma_small_mod(value@, MODULUS as nat);
            };
        }
        Self { witness: Option::Some(value), variable }
    }

    /// Outputs `self + other`: no constraint, one combination.
    pub fn add(&self, cs: &mut ConstraintSystem, other: &Self) -> (r: Self)
        requires
            old(cs).wf(),
            self.wf(old(cs)),
            other.wf(old(cs)),
        ensures
            final(cs).wf(),
            final(cs).extends(old(cs)),
            final(cs).nc() == old(cs).nc(),
            final(cs).nl() == old(cs).nl() + 1,
            final(cs).nw() == old(cs).nw(),
            final(cs).ni() == old(cs).ni(),
            final(cs).constraints == old(cs).constraints,
            final(cs).witness_assignment == old(cs).witness_assignment,
            final(cs).instance_assignment == old(cs).instance_assignment,
            final(cs).is_complete() == old(cs).is_complete(),
            final(cs).spec_satisfied() == old(cs).spec_satisfied(),
            r.witness == wit_add(self.witness, other.witness),
            r.wf(final(cs)),
            forall|wit: Seq<nat>, inst: Seq<nat>|
                #[trigger] vval(final(cs).lc_table@, wit, inst, r.variable) == f_add(
                    vval(final(cs).lc_table@, wit, inst, self.variable),
                    vval(final(cs).lc_table@, wit, inst, other.variable),
                ),
            self.tracks(old(cs)) && other.tracks(old(cs)) ==> r.tracks(final(cs)),
    {
        let value = match (self.witness, other.witness) {
            (Option::Some(x), Option::Some(y)) => {
                let s = x.add_fp(&y);
                proof {
                    lemma_fp_eq(s, f_add(x@, y@));
                }
                Option::Some(s)
            },
            _ => Option::None,
        };
        let one = Fp::one();
        let terms = vec![(one, self.variable), (one, other.variable)];
        let variable = cs.new_lc(terms);
        let r = Self { witness: value, variable };
        proof {
            crate::cs::lemma_spec_satisfied_frame_eq(old(cs), final(cs));
            lemma_pair_lc_semantics(
                old(cs),
                final(cs),
                one,
                self.variable,
                one,
                other.variable,
                variable,
            );
            let t2 = final(cs).lc_table@;
            assert forall|wit: Seq<nat>, inst: Seq<nat>|
                #[trigger] vval(t2, wit, inst, variable) == f_add(
                vval(t2, wit, inst, self.variable),
                vval(t2, wit, inst, other.variable),
            ) by {
                let va = var_val(t2, wit, inst, self.variable, t2.len() as nat);
                let vb = var_val(t2, wit, inst, other.variable, t2.len() as nat);
                assert(vval(t2, wit, inst, variable) == fmod(1 * va + 1 * vb));
                lemma_add_mod_noop(va, vb, MODULUS as int);
            };
            assert(self.tracks(old(cs)) && other.tracks(old(cs)) ==> r.tracks(final(cs))) by {
                if self.tracks(old(cs)) && other.tracks(old(cs)) && r.witness is Some {
                    crate::cs::lemma_val_extends(old(cs), final(cs), self.variable);
                    crate::cs::lemma_val_extends(old(cs), final(cs), other.variable);
                    lemma_fp_of(f_add(self.wit_nat(), other.wit_nat()));
                    lemma_small_mod(f_add(self.wit_nat(), other.wit_nat()), MODULUS as nat);
                }
            };
        }
        r
    }

    /// Outputs `self - other`: no constraint, one combination.
    pub fn sub(&self, cs: &mut ConstraintSystem, other: &Self) -> (r: Self)
        requires
            old(cs).wf(),
            self.wf(old(cs)),
            other.wf(old(cs)),
        ensures
            final(cs).wf(),
            final(cs).extends(old(cs)),
            final(cs).nc() == old(cs).nc(),
            final(cs).nl() == old(cs).nl() + 1,
            final(cs).nw() == old(cs).nw(),
            final(cs).ni() == old(cs).ni(),
            final(cs).constraints == old(cs).constraints,
            final(cs).witness_assignment == old(cs).witness_assignment,
            final(cs).instance_assignment == old(cs).instance_assignment,
            final(cs).is_complete() == old(cs).is_complete(),
            final(cs).spec_satisfied() == old(cs).spec_satisfied(),
            r.witness == wit_sub(self.witness, other.witness),
            r.wf(final(cs)),
            forall|wit: Seq<nat>, inst: Seq<nat>|
                #[trigger] vval(final(cs).lc_table@, wit, inst, r.variable) == f_sub(
                    vval(final(cs).lc_table@, wit, inst, self.variable),
                    vval(final(cs).lc_table@, wit, inst, other.variable),
                ),
            self.tracks(old(cs)) && other.tracks(old(cs)) ==> r.tracks(final(cs)),
    {
        let value = match (self.witness, other.witness) {
            (Option::Some(x), Option::Some(y)) => {
                let s = x.sub_fp(&y);
                proof {
                    lemma_fp_eq(s, f_sub(x@, y@));
                }
                Option::Some(s)
            },
            _ => Option::None,
        };
        let one = Fp::one();
        let neg_one = one.neg_fp();
        let terms = vec![(one, self.variable), (neg_one, other.variable)];
        let variable = cs.new_lc(terms);
        let r = Self { witness: value, variable };
        proof {
            crate::cs::lemma_spec_satisfied_frame_eq(old(cs), final(cs));
            lemma_pair_lc_semantics(
                old(cs),
                final(cs),
                one,
                self.variable,
                neg_one,
                other.variable,
                variable,
            );
            let t2 = final(cs).lc_table@;
            assert forall|wit: Seq<nat>, inst: Seq<nat>|
                #[trigger] vval(t2, wit, inst, variable) == f_sub(
                vval(t2, wit, inst, self.variable),
                vval(t2, wit, inst, other.variable),
            ) by {
                let va = var_val(t2, wit, inst, self.variable, t2.len() as nat);
                let vb = var_val(t2, wit, inst, other.variable, t2.len() as nat);
                assert(vval(t2, wit, inst, variable) == fmod(1 * va + (neg_one@ as int) * vb));
                lemma_sub_semantics(va, vb);
            };
            assert(self.tracks(old(cs)) && other.tracks(old(cs)) ==> r.tracks(final(cs))) by {
                if self.tracks(old(cs)) && other.tracks(old(cs)) && r.witness is Some {
                    crate::cs::lemma_val_extends(old(cs), final(cs), self.variable);
                    crate::cs::lemma_val_extends(old(cs), final(cs), other.variable);
                    lemma_fp_of(f_sub(self.wit_nat(), other.wit_nat()));
                    lemma_small_mod(f_sub(self.wit_nat(), other.wit_nat()), MODULUS as nat);
                }
            };
        }
        r
    }

    /// Outputs `self * other`: one multiplication constraint and one fresh
    /// witness, no combination.
    pub fn mul(&self, cs: &mut ConstraintSystem, other: &Self) -> (r: Self)
        requires
            old(cs).wf(),
            self.wf(old(cs)),
            other.wf(old(cs)),
        ensures
            final(cs).wf(),
            final(cs).extends(old(cs)),
            final(cs).nc() == old(cs).nc() + 1,
            final(cs).nl() == old(cs).nl(),
            final(cs).nw() == old(cs).nw() + 1,
            final(cs).ni() == old(cs).ni(),
            final(cs).is_complete() == (old(cs).is_complete() && self.witness is Some
                && other.witness is Some),
            r.witness == wit_mul(self.witness, other.witness),
            r.variable == Variable::Witness(old(cs).nw() as usize),
            r.wf(final(cs)),
            forall|wit: Seq<nat>, inst: Seq<nat>|
                #[trigger] constraint_sat(
                    final(cs).lc_table@,
                    wit,
                    inst,
                    final(cs).constraints@.last(),
                ) <==> f_mul(
                    vval(final(cs).lc_table@, wit, inst, self.variable),
                    vval(final(cs).lc_table@, wit, inst, other.variable),
                ) == vval(final(cs).lc_table@, wit, inst, r.variable),
            self.tracks(old(cs)) && other.tracks(old(cs)) ==> r.tracks(final(cs)),
            (old(cs).spec_satisfied() && self.assigned(old(cs)) && other.assigned(old(cs)))
                ==> final(cs).spec_satisfied(),
    {
        let value = match (self.witness, other.witness) {
            (Option::Some(x), Option::Some(y)) => {
                let p = x.mul_fp(&y);
                proof {
                    lemma_fp_eq(p, f_mul(x@, y@));
                }
                Option::Some(p)
            },
            _ => Option::None,
        };
        let product = Self::new_witness(cs, value);
        let ghost mid = *cs;
        let one = Fp::one();
        let a_lc = LinComb { terms: vec![(one, self.variable)] };
        let b_lc = LinComb { terms: vec![(one, other.variable)] };
        let c_lc = LinComb { terms: vec![(one, product.variable)] };
        cs.enforce_constraint(a_lc, b_lc, c_lc);
        proof {
            let t2 = final(cs).lc_table@;
            let con = final(cs).constraints@.last();
            assert forall|wit: Seq<nat>, inst: Seq<nat>|
                #[trigger] constraint_sat(t2, wit, inst, con) <==> f_mul(
                vval(t2, wit, inst, self.variable),
                vval(t2, wit, inst, other.variable),
            ) == vval(t2, wit, inst, product.variable) by {
                assert(con.a@ == seq![(one, self.variable)]);
                assert(con.b@ == seq![(one, other.variable)]);
                assert(con.c@ == seq![(one, product.variable)]);
                lemma_one_term_val(t2, wit, inst, one, self.variable, t2.len() as nat);
                lemma_one_term_val(t2, wit, inst, one, other.variable, t2.len() as nat);
                lemma_one_term_val(t2, wit, inst, one, product.variable, t2.len() as nat);
            };
            assert(self.tracks(old(cs)) && other.tracks(old(cs)) ==> product.tracks(final(cs)))
                by {
                if self.tracks(old(cs)) && other.tracks(old(cs)) && product.witness is Some {
                    crate::cs::lemma_val_extends(&mid, final(cs), product.variable);
                }
            };
            if old(cs).spec_satisfied() && self.assigned(old(cs)) && other.assigned(old(cs)) {
                let fw = final(cs).wit_vals();
                let fi = final(cs).inst_vals();
                crate::cs::lemma_val_extends(old(cs), final(cs), self.variable);
                crate::cs::lemma_val_extends(old(cs), final(cs), other.variable);
                let x = self.witness.unwrap();
                let y = other.witness.unwrap();
                crate::field::lemma_f_ops_bounded(x@, y@);
                crate::field::lemma_fp_of_small(f_mul(x@, y@));
                assert(vval(t2, fw, fi, self.variable) == x@);
                assert(vval(t2, fw, fi, other.variable) == y@);
                assert(vval(t2, fw, fi, product.variable) == f_mul(x@, y@));
                assert(constraint_sat(t2, fw, fi, con));
                assert forall|k: int|
                    old(cs).nc() <= k < final(cs).nc() implies constraint_sat(
                    t2,
                    fw,
                    fi,
                    #[trigger] final(cs).constraints@[k],
                ) by {
                    assert(final(cs).constraints@[k] == con);
                };
                crate::cs::lemma_spec_satisfied_extend(old(cs), final(cs));
            }
        }
        product
    }

    /// Outputs `self * self`: one multiplication constraint.
    pub fn square(&self, cs: &mut ConstraintSystem) -> (r: Result<Self, SynthesisError>)
        requires
            old(cs).wf(),
            self.wf(old(cs)),
        ensures
            final(cs).wf(),
            final(cs).extends(old(cs)),
            final(cs).nc() == old(cs).nc() + 1,
            final(cs).nl() == old(cs).nl(),
            final(cs).nw() == old(cs).nw() + 1,
            final(cs).ni() == old(cs).ni(),
            final(cs).is_complete() == (old(cs).is_complete() && self.witness is Some),
            r matches Ok(sq) && sq.witness == wit_mul(self.witness, self.witness)
                && sq.variable == Variable::Witness(old(cs).nw() as usize) && sq.wf(final(cs)),
            self.tracks(old(cs)) ==> (r matches Ok(sq) && sq.tracks(final(cs))),
            (old(cs).spec_satisfied() && self.assigned(old(cs))) ==> final(cs).spec_satisfied(),
    {
        Ok(self.mul(cs, self))
    }
}

/// Whether every element of the batch carries a witness.
pub open spec fn all_have_witness(s: Seq<AllocatedFp>) -> bool {
    forall|k: int| 0 <= k < s.len() ==> (#[trigger] s[k]).witness is Some
}

/// Every element of the batch is well-formed for the arena.
pub open spec fn all_wf(s: Seq<AllocatedFp>, cs: &ConstraintSystem) -> bool {
    forall|k: int| 0 <= k < s.len() ==> (#[trigger] s[k]).wf(cs)
}

/// The field sum of the batch's witnesses.
pub open spec fn wit_sum_nat(s: Seq<AllocatedFp>) -> nat
    decreases s.len(),
{
    if s.len() == 0 {
        0
    } else {
        f_add(wit_sum_nat(s.drop_last()), s.last().wit_nat())
    }
}

/// The field value of the coefficient-weighted witness sum.
pub open spec fn wit_lincomb_nat(coeffs: Seq<Fp>, s: Seq<AllocatedFp>) -> nat
    decreases s.len(),
{
    if s.len() == 0 {
        0
    } else {
        f_add(
            wit_lincomb_nat(coeffs.drop_last(), s.drop_last()),
            f_mul(coeffs.last()@, s.last().wit_nat()),
        )
    }
}

/// The field value of the witness inner product of two batches.
pub open spec fn wit_dot_nat(a: Seq<AllocatedFp>, b: Seq<AllocatedFp>) -> nat
    decreases a.len(),
{
    if a.len() == 0 {
        0
    } else {
        f_add(
            wit_dot_nat(a.drop_last(), b.drop_last()),
            f_mul(a.last().wit_nat(), b.last().wit_nat()),
        )
    }
}

impl AllocatedFp {
    /// Outputs `self + other` for a constant `other`: no constraint, at
    /// most one combination (none when `other` is zero).
    pub fn add_constant(&self, cs: &mut ConstraintSystem, other: Fp) -> (r: Self)
        requires
            old(cs).wf(),
            self.wf(old(cs)),
            other.valid(),
        ensures
            final(cs).wf(),
            final(cs).extends(old(cs)),
            final(cs).nc() == old(cs).nc(),
            final(cs).nw() == old(cs).nw(),
            final(cs).ni() == old(cs).ni(),
            final(cs).constraints == old(cs).constraints,
            final(cs).witness_assignment == old(cs).witness_assignment,
            final(cs).instance_assignment == old(cs).instance_assignment,
            other@ == 0 ==> *final(cs) == *old(cs) && r == *self,
            other@ != 0 ==> final(cs).nl() == old(cs).nl() + 1,
            final(cs).is_complete() == old(cs).is_complete(),
            final(cs).spec_satisfied() == old(cs).spec_satisfied(),
            r.witness == wit_add(self.witness, Option::Some(other)),
            r.wf(final(cs)),
            forall|wit: Seq<nat>, inst: Seq<nat>|
                #[trigger] vval(final(cs).lc_table@, wit, inst, r.variable) == f_add(
                    vval(final(cs).lc_table@, wit, inst, self.variable),
                    other@,
                ),
            self.tracks(old(cs)) ==> r.tracks(final(cs)),
    {
        if other.is_zero() {
            proof {
                if let Option::Some(x) = self.witness {
                    lemma_fp_eq(x, f_add(x@, 0));
                }
                assert forall|wit: Seq<nat>, inst: Seq<nat>|
                    #[trigger] vval(final(cs).lc_table@, wit, inst, self.variable) == f_add(
                    vval(final(cs).lc_table@, wit, inst, self.variable),
                    other@,
                ) by {
                    lemma_small_mod(
                        vval(final(cs).lc_table@, wit, inst, self.variable),
                        MODULUS as nat,
                    );
                    vstd::arithmetic::div_mod::lemma_mod_bound(
                        var_val(
                            final(cs).lc_table@,
                            wit,
                            inst,
                            self.variable,
                            final(cs).lc_table@.len() as nat,
                        ),
                        MODULUS as int,
                    );
                };
            }
            *self
        } else {
            let value = match self.witness {
                Option::Some(x) => {
                    let s = x.add_fp(&other);
                    proof {
                        lemma_fp_eq(s, f_add(x@, other@));
                    }
                    Option::Some(s)
                },
                Option::None => Option::None,
            };
            let one = Fp::one();
            let terms = vec![(one, self.variable), (other, Variable::One)];
            let variable = cs.new_lc(terms);
            let r = Self { witness: value, variable };
            proof {
                crate::cs::lemma_spec_satisfied_frame_eq(old(cs), final(cs));
                lemma_pair_lc_semantics(
                    old(cs),
                    final(cs),
                    one,
                    self.variable,
                    other,
                    Variable::One,
                    variable,
                );
                let t2 = final(cs).lc_table@;
                assert forall|wit: Seq<nat>, inst: Seq<nat>|
                    #[trigger] vval(t2, wit, inst, variable) == f_add(
                    vval(t2, wit, inst, self.variable),
                    other@,
                ) by {
                    let va = var_val(t2, wit, inst, self.variable, t2.len() as nat);
                    assert(vval(t2, wit, inst, variable) == fmod(1 * va + (other@ as int) * 1));
                    lemma_add_mod_noop(va, other@ as int, MODULUS as int);
                    lemma_small_mod(other@, MODULUS as nat);
                };
                assert(self.tracks(old(cs)) ==> r.tracks(final(cs))) by {
                    if self.tracks(old(cs)) && r.witness is Some {
                        crate::cs::lemma_val_extends(old(cs), final(cs), self.variable);
                        lemma_fp_of(f_add(self.wit_nat(), other@));
                        lemma_small_mod(f_add(self.wit_nat(), other@), MODULUS as nat);
                    }
                };
            }
            r
        }
    }

    /// Outputs `self - other` for a constant `other`: no constraint.
    pub fn sub_constant(&self, cs: &mut ConstraintSystem, other: Fp) -> (r: Self)
        requires
            old(cs).wf(),
            self.wf(old(cs)),
            other.valid(),
        ensures
            final(cs).wf(),
            final(cs).extends(old(cs)),
            final(cs).nc() == old(cs).nc(),
            final(cs).nw() == old(cs).nw(),
            final(cs).ni() == old(cs).ni(),
            final(cs).constraints == old(cs).constraints,
            final(cs).witness_assignment == old(cs).witness_assignment,
            final(cs).instance_assignment == old(cs).instance_assignment,
            final(cs).is_complete() == old(cs).is_complete(),
            final(cs).spec_satisfied() == old(cs).spec_satisfied(),
            r.witness == wit_add(self.witness, Option::Some(fp_of(f_neg(other@)))),
            r.wf(final(cs)),
            forall|wit: Seq<nat>, inst: Seq<nat>|
                #[trigger] vval(final(cs).lc_table@, wit, inst, r.variable) == f_sub(
                    vval(final(cs).lc_table@, wit, inst, self.variable),
                    other@,
                ),
            self.tracks(old(cs)) ==> r.tracks(final(cs)),
    {
        let negated = other.neg_fp();
        proof {
            lemma_fp_eq(negated, f_neg(other@));
        }
        let r = self.add_constant(cs, negated);
        proof {
            let t2 = final(cs).lc_table@;
            assert forall|wit: Seq<nat>, inst: Seq<nat>|
                #[trigger] vval(t2, wit, inst, r.variable) == f_sub(
                vval(t2, wit, inst, self.variable),
                other@,
            ) by {
                let va = vval(t2, wit, inst, self.variable);
                assert(vval(t2, wit, inst, r.variable) == f_add(va, f_neg(other@)));
                lemma_add_neg_is_sub(va, other@);
            };
        }
        r
    }

    /// Outputs `self * other` for a constant `other`: no constraint, at
    /// most one combination (none when `other` is one).
    pub fn mul_constant(&self, cs: &mut ConstraintSystem, other: Fp) -> (r: Self)
        requires
            old(cs).wf(),
            self.wf(old(cs)),
            other.valid(),
        ensures
            final(cs).wf(),
            final(cs).extends(old(cs)),
            final(cs).nc() == old(cs).nc(),
            final(cs).nw() == old(cs).nw(),
            final(cs).ni() == old(cs).ni(),
            final(cs).constraints == old(cs).constraints,
            final(cs).witness_assignment == old(cs).witness_assignment,
            final(cs).instance_assignment == old(cs).instance_assignment,
            other@ == 1 ==> *final(cs) == *old(cs) && r == *self,
            other@ != 1 ==> final(cs).nl() == old(cs).nl() + 1,
            final(cs).is_complete() == old(cs).is_complete(),
            final(cs).spec_satisfied() == old(cs).spec_satisfied(),
            r.witness == wit_mul(self.witness, Option::Some(other)),
            r.wf(final(cs)),
            forall|wit: Seq<nat>, inst: Seq<nat>|
                #[trigger] vval(final(cs).lc_table@, wit, inst, r.variable) == f_mul(
                    vval(final(cs).lc_table@, wit, inst, self.variable),
                    other@,
                ),
            self.tracks(old(cs)) ==> r.tracks(final(cs)),
    {
        if other.is_one() {
            proof {
                if let Option::Some(x) = self.witness {
                    lemma_fp_eq(x, f_mul(x@, 1));
                }
                assert forall|wit: Seq<nat>, inst: Seq<nat>|
                    #[trigger] vval(final(cs).lc_table@, wit, inst, self.variable) == f_mul(
                    vval(final(cs).lc_table@, wit, inst, self.variable),
                    other@,
                ) by {
                    let vv = vval(final(cs).lc_table@, wit, inst, self.variable);
                    lemma_small_mod(vv, MODULUS as nat);
                };
            }
            *self
        } else {
            let value = match self.witness {
                Option::Some(x) => {
                    let s = x.mul_fp(&other);
                    proof {
                        lemma_fp_eq(s, f_mul(x@, other@));
                    }
                    Option::Some(s)
                },
                Option::None => Option::None,
            };
            let terms = vec![(other, self.variable)];
            let variable = cs.new_lc(terms);
            let r = Self { witness: value, variable };
            proof {
                crate::cs::lemma_spec_satisfied_frame_eq(old(cs), final(cs));
                let t1 = old(cs).lc_table@;
                let t2 = final(cs).lc_table@;
                assert forall|wit: Seq<nat>, inst: Seq<nat>|
                    #[trigger] vval(t2, wit, inst, variable) == f_mul(
                    vval(t2, wit, inst, self.variable),
                    other@,
                ) by {
                    assert(vval(t2, wit, inst, variable) == fmod(
                        terms_val(t2, wit, inst, terms@, old(cs).nl()),
                    ));
                    assert(terms@ =~= seq![(other, self.variable)]);
                    lemma_one_term_val(t2, wit, inst, other, self.variable, old(cs).nl());
                    lemma_vval_lift(t1, t2, wit, inst, self.variable, old(cs).ni(), old(cs).nw());
                    let va = var_val(t2, wit, inst, self.variable, t2.len() as nat);
                    lemma_mul_comm_mod(other@, va);
                };
                assert(self.tracks(old(cs)) ==> r.tracks(final(cs))) by {
                    if self.tracks(old(cs)) && r.witness is Some {
                        crate::cs::lemma_val_extends(old(cs), final(cs), self.variable);
                        lemma_fp_of(f_mul(self.wit_nat(), other@));
                        lemma_small_mod(f_mul(self.wit_nat(), other@), MODULUS as nat);
                    }
                };
            }
            r
        }
    }

    /// Outputs `self + self`: no constraint, one combination.
    pub fn double(&self, cs: &mut ConstraintSystem) -> (r: Result<Self, SynthesisError>)
        requires
            old(cs).wf(),
            self.wf(old(cs)),
        ensures
            final(cs).wf(),
            final(cs).extends(old(cs)),
            final(cs).nc() == old(cs).nc(),
            final(cs).nl() == old(cs).nl() + 1,
            final(cs).nw() == old(cs).nw(),
            final(cs).ni() == old(cs).ni(),
            final(cs).constraints == old(cs).constraints,
            final(cs).is_complete() == old(cs).is_complete(),
            final(cs).spec_satisfied() == old(cs).spec_satisfied(),
            r matches Ok(d) && d.witness == wit_add(self.witness, self.witness) && d.wf(final(cs))
                && (forall|wit: Seq<nat>, inst: Seq<nat>|
                #[trigger] vval(final(cs).lc_table@, wit, inst, d.variable) == f_add(
                    vval(final(cs).lc_table@, wit, inst, self.variable),
                    vval(final(cs).lc_table@, wit, inst, self.variable),
                )),
            self.tracks(old(cs)) ==> (r matches Ok(d) && d.tracks(final(cs))),
    {
        Ok(self.add(cs, self))
    }

    /// Outputs `-self`: no constraint, one combination.
    pub fn negate(&self, cs: &mut ConstraintSystem) -> (r: Self)
        requires
            old(cs).wf(),
            self.wf(old(cs)),
        ensures
            final(cs).wf(),
            final(cs).extends(old(cs)),
            final(cs).nc() == old(cs).nc(),
            final(cs).nl() == old(cs).nl() + 1,
            final(cs).nw() == old(cs).nw(),
            final(cs).ni() == old(cs).ni(),
            final(cs).constraints == old(cs).constraints,
            final(cs).is_complete() == old(cs).is_complete(),
            final(cs).spec_satisfied() == old(cs).spec_satisfied(),
            r.witness == wit_neg(self.witness),
            r.wf(final(cs)),
            forall|wit: Seq<nat>, inst: Seq<nat>|
                #[trigger] vval(final(cs).lc_table@, wit, inst, r.variable) == f_neg(
                    vval(final(cs).lc_table@, wit, inst, self.variable),
                ),
            self.tracks(old(cs)) ==> r.tracks(final(cs)),
    {
        let mut result = *self;
        result.negate_in_place(cs);
        result
    }

    /// Rebinds `self` to `-self`: no constraint, one combination.
    pub fn negate_in_place(&mut self, cs: &mut ConstraintSystem)
        requires
            old(cs).wf(),
            old(self).wf(old(cs)),
        ensures
            final(cs).wf(),
            final(cs).extends(old(cs)),
            final(cs).nc() == old(cs).nc(),
            final(cs).nl() == old(cs).nl() + 1,
            final(cs).nw() == old(cs).nw(),
            final(cs).ni() == old(cs).ni(),
            final(cs).constraints == old(cs).constraints,
            final(cs).is_complete() == old(cs).is_complete(),
            final(cs).spec_satisfied() == old(cs).spec_satisfied(),
            final(self).witness == wit_neg(old(self).witness),
            final(self).wf(final(cs)),
            forall|wit: Seq<nat>, inst: Seq<nat>|
                #[trigger] vval(final(cs).lc_table@, wit, inst, final(self).variable) == f_neg(
                    vval(final(cs).lc_table@, wit, inst, old(self).variable),
                ),
            old(self).tracks(old(cs)) ==> final(self).tracks(final(cs)),
    {
        let value = match self.witness {
            Option::Some(x) => {
                let s = x.neg_fp();
                proof {
                    lemma_fp_eq(s, f_neg(x@));
                }
                Option::Some(s)
            },
            Option::None => Option::None,
        };
        let neg_one = Fp::one().neg_fp();
        let terms = vec![(neg_one, self.variable)];
        let ghost sv = self.variable;
        let variable = cs.new_lc(terms);
        self.witness = value;
        self.variable = variable;
        proof {
            crate::cs::lemma_spec_satisfied_frame_eq(old(cs), final(cs));
            let t1 = old(cs).lc_table@;
            let t2 = final(cs).lc_table@;
            assert(neg_one@ == (MODULUS - 1) as nat);
            assert forall|wit: Seq<nat>, inst: Seq<nat>|
                #[trigger] vval(t2, wit, inst, variable) == f_neg(vval(t2, wit, inst, sv)) by {
                assert(vval(t2, wit, inst, variable) == fmod(
                    terms_val(t2, wit, inst, terms@, old(cs).nl()),
                ));
                assert(terms@ =~= seq![(neg_one, sv)]);
                lemma_one_term_val(t2, wit, inst, neg_one, sv, old(cs).nl());
                lemma_vval_lift(t1, t2, wit, inst, sv, old(cs).ni(), old(cs).nw());
                let va = var_val(t2, wit, inst, sv, t2.len() as nat);
                lemma_neg_semantics(va);
            };
            assert(old(self).tracks(old(cs)) ==> final(self).tracks(final(cs))) by {
                if old(self).tracks(old(cs)) && final(self).witness is Some {
                    crate::cs::lemma_val_extends(old(cs), final(cs), sv);
                    lemma_fp_of(f_neg(old(self).wit_nat()));
                    lemma_small_mod(f_neg(old(self).wit_nat()), MODULUS as nat);
                }
            };
        }
    }

    /// Outputs `result` with `self * result = 1` enforced: one
    /// multiplication constraint and one fresh witness.
    ///
    /// The allocated witness is the modular inverse of the input's
    /// witness, or the additive identity when no inverse exists; inverting
    /// a zero value therefore encodes the unsatisfiable relation
    /// `0 * 0 = 1`, detected when satisfiability is later checked.
    pub fn inverse(&self, cs: &mut ConstraintSystem) -> (r: Result<Self, SynthesisError>)
        requires
            old(cs).wf(),
            self.wf(old(cs)),
        ensures
            final(cs).wf(),
            final(cs).extends(old(cs)),
            final(cs).nc() == old(cs).nc() + 1,
            final(cs).nl() == old(cs).nl(),
            final(cs).nw() == old(cs).nw() + 1,
            final(cs).ni() == old(cs).ni(),
            final(cs).is_complete() == (old(cs).is_complete() && self.witness is Some),
            r matches Ok(inv) && {
                &&& inv.witness == (match self.witness {
                    Option::Some(x) => Option::Some(fp_of(f_inv(x@))),
                    Option::None => Option::None::<Fp>,
                })
                &&& inv.variable == Variable::Witness(old(cs).nw() as usize)
                &&& inv.wf(final(cs))
                &&& inv.witness is Some ==> inv.tracks(final(cs))
                &&& forall|wit: Seq<nat>, inst: Seq<nat>|
                    #[trigger] constraint_sat(
                        final(cs).lc_table@,
                        wit,
                        inst,
                        final(cs).constraints@.last(),
                    ) <==> f_mul(
                        vval(final(cs).lc_table@, wit, inst, self.variable),
                        vval(final(cs).lc_table@, wit, inst, inv.variable),
                    ) == 1
            },
            (old(cs).spec_satisfied() && self.assigned(old(cs)) && self.wit_nat() != 0)
                ==> final(cs).spec_satisfied(),
            (self.assigned(old(cs)) && self.wit_nat() == 0) ==> !final(cs).spec_satisfied(),
    {
        let value = match self.witness {
            Option::Some(x) => {
                let s = x.inv_fp();
                proof {
                    lemma_fp_eq(s, f_inv(x@));
                }
                Option::Some(s)
            },
            Option::None => Option::None,
        };
        let inv = Self::new_witness(cs, value);
        let ghost mid = *cs;
        let one = Fp::one();
        let a_lc = LinComb { terms: vec![(one, self.variable)] };
        let b_lc = LinComb { terms: vec![(one, inv.variable)] };
        let c_lc = LinComb { terms: vec![(one, Variable::One)] };
        cs.enforce_constraint(a_lc, b_lc, c_lc);
        proof {
            let t2 = final(cs).lc_table@;
            let con = final(cs).constraints@.last();
            assert forall|wit: Seq<nat>, inst: Seq<nat>|
                #[trigger] constraint_sat(t2, wit, inst, con) <==> f_mul(
                vval(t2, wit, inst, self.variable),
                vval(t2, wit, inst, inv.variable),
            ) == 1 by {
                assert(con.a@ == seq![(one, self.variable)]);
                assert(con.b@ == seq![(one, inv.variable)]);
                assert(con.c@ == seq![(one, Variable::One)]);
                lemma_one_term_val(t2, wit, inst, one, self.variable, t2.len() as nat);
                lemma_one_term_val(t2, wit, inst, one, inv.variable, t2.len() as nat);
                lemma_one_term_val(t2, wit, inst, one, Variable::One, t2.len() as nat);
                lemma_small_mod(1, MODULUS as nat);
            };
            assert(inv.witness is Some ==> inv.tracks(final(cs))) by {
                if inv.witness is Some {
                    crate::cs::lemma_val_extends(&mid, final(cs), inv.variable);
                }
            };
            if self.assigned(old(cs)) {
                let fw = final(cs).wit_vals();
                let fi = final(cs).inst_vals();
                let w = self.witness.unwrap();
                crate::cs::lemma_val_extends(old(cs), final(cs), self.variable);
                assert(vval(t2, fw, fi, self.variable) == w@);
                crate::field::lemma_f_ops_bounded(w@, 0);
                crate::field::lemma_fp_of_small(f_inv(w@));
                assert(vval(t2, fw, fi, inv.variable) == f_inv(w@));
                if w@ != 0 {
                    crate::field::lemma_f_inv_property(w@);
                    assert(constraint_sat(t2, fw, fi, con));
                    if old(cs).spec_satisfied() {
                        assert forall|k: int|
                            old(cs).nc() <= k < final(cs).nc() implies constraint_sat(
                            t2,
                            fw,
                            fi,
                            #[trigger] final(cs).constraints@[k],
                        ) by {
                            assert(final(cs).constraints@[k] == con);
                        };
                        crate::cs::lemma_spec_satisfied_extend(old(cs), final(cs));
                    }
                } else {
                    assert(f_inv(0) == 0) by {
                        lemma_small_mod(0, MODULUS as nat);
                    };
                    assert(f_mul(0, vval(t2, fw, fi, inv.variable)) != 1) by {
                        lemma_small_mod(0, MODULUS as nat);
                    };
                    assert(!constraint_sat(t2, fw, fi, con));
                    assert(!final(cs).spec_satisfied()) by {
                        assert(final(cs).constraints@[old(cs).nc() as int] == con);
                    };
                }
            }
        }
        Ok(inv)
    }

    /// The Frobenius endomorphism: the identity on a prime field.
    pub fn frobenius_map(&self, _power: usize) -> (r: Result<Self, SynthesisError>)
        ensures
            r == Ok::<Self, SynthesisError>(*self),
    {
        Ok(*self)
    }

    /// Enforces `self * other = result`: one constraint, nothing else.
    pub fn mul_equals(&self, cs: &mut ConstraintSystem, other: &Self, result: &Self) -> (r:
        Result<(), SynthesisError>)
        requires
            old(cs).wf(),
            self.wf(old(cs)),
            other.wf(old(cs)),
            result.wf(old(cs)),
        ensures
            final(cs).wf(),
            final(cs).extends(old(cs)),
            final(cs).nc() == old(cs).nc() + 1,
            final(cs).nl() == old(cs).nl(),
            final(cs).nw() == old(cs).nw(),
            final(cs).ni() == old(cs).ni(),
            final(cs).witness_assignment == old(cs).witness_assignment,
            final(cs).instance_assignment == old(cs).instance_assignment,
            final(cs).lc_table == old(cs).lc_table,
            final(cs).is_complete() == old(cs).is_complete(),
            r is Ok,
            forall|wit: Seq<nat>, inst: Seq<nat>|
                #[trigger] constraint_sat(
                    final(cs).lc_table@,
                    wit,
                    inst,
                    final(cs).constraints@.last(),
                ) <==> f_mul(
                    vval(final(cs).lc_table@, wit, inst, self.variable),
                    vval(final(cs).lc_table@, wit, inst, other.variable),
                ) == vval(final(cs).lc_table@, wit, inst, result.variable),
            (old(cs).spec_satisfied() && self.assigned(old(cs)) && other.assigned(old(cs))
                && result.assigned(old(cs)) && f_mul(self.wit_nat(), other.wit_nat())
                == result.wit_nat()) ==> final(cs).spec_satisfied(),
    {
        let one = Fp::one();
        let a_lc = LinComb { terms: vec![(one, self.variable)] };
        let b_lc = LinComb { terms: vec![(one, other.variable)] };
        let c_lc = LinComb { terms: vec![(one, result.variable)] };
        cs.enforce_constraint(a_lc, b_lc, c_lc);
        proof {
            let t2 = final(cs).lc_table@;
            let con = final(cs).constraints@.last();
            assert forall|wit: Seq<nat>, inst: Seq<nat>|
                #[trigger] constraint_sat(t2, wit, inst, con) <==> f_mul(
                vval(t2, wit, inst, self.variable),
                vval(t2, wit, inst, other.variable),
            ) == vval(t2, wit, inst, result.variable) by {
                assert(con.a@ == seq![(one, self.variable)]);
                assert(con.b@ == seq![(one, other.variable)]);
                assert(con.c@ == seq![(one, result.variable)]);
                lemma_one_term_val(t2, wit, inst, one, self.variable, t2.len() as nat);
                lemma_one_term_val(t2, wit, inst, one, other.variable, t2.len() as nat);
                lemma_one_term_val(t2, wit, inst, one, result.variable, t2.len() as nat);
            };
            if old(cs).spec_satisfied() && self.assigned(old(cs)) && other.assigned(old(cs))
                && result.assigned(old(cs)) && f_mul(self.wit_nat(), other.wit_nat())
                == result.wit_nat() {
                let fw = final(cs).wit_vals();
                let fi = final(cs).inst_vals();
                crate::cs::lemma_val_extends(old(cs), final(cs), self.variable);
                crate::cs::lemma_val_extends(old(cs), final(cs), other.variable);
                crate::cs::lemma_val_extends(old(cs), final(cs), result.variable);
                assert(constraint_sat(t2, fw, fi, con));
                assert forall|k: int|
                    old(cs).nc() <= k < final(cs).nc() implies constraint_sat(
                    t2,
                    fw,
                    fi,
                    #[trigger] final(cs).constraints@[k],
                ) by {
                    assert(final(cs).constraints@[k] == con);
                };
                crate::cs::lemma_spec_satisfied_extend(old(cs), final(cs));
            }
        }
        Ok(())
    }

    /// Enforces `self * self = result`: one constraint.
    pub fn square_equals(&self, cs: &mut ConstraintSystem, result: &Self) -> (r: Result<
        (),
        SynthesisError,
    >)
        requires
            old(cs).wf(),
            self.wf(old(cs)),
            result.wf(old(cs)),
        ensures
            final(cs).wf(),
            final(cs).extends(old(cs)),
            final(cs).nc() == old(cs).nc() + 1,
            final(cs).nl() == old(cs).nl(),
            final(cs).nw() == old(cs).nw(),
            final(cs).ni() == old(cs).ni(),
            final(cs).lc_table == old(cs).lc_table,
            final(cs).is_complete() == old(cs).is_complete(),
            r is Ok,
            forall|wit: Seq<nat>, inst: Seq<nat>|
                #[trigger] constraint_sat(
                    final(cs).lc_table@,
                    wit,
                    inst,
                    final(cs).constraints@.last(),
                ) <==> f_mul(
                    vval(final(cs).lc_table@, wit, inst, self.variable),
                    vval(final(cs).lc_table@, wit, inst, self.variable),
                ) == vval(final(cs).lc_table@, wit, inst, result.variable),
            (old(cs).spec_satisfied() && self.assigned(old(cs)) && result.assigned(old(cs))
                && f_mul(self.wit_nat(), self.wit_nat()) == result.wit_nat())
                ==> final(cs).spec_satisfied(),
    {
        self.mul_equals(cs, self, result)
    }
}

/// The field sum of a batch's variable values under an assignment.
pub open spec fn vval_sum(
    table: Seq<LinComb>,
    wit: Seq<nat>,
    inst: Seq<nat>,
    s: Seq<AllocatedFp>,
) -> nat
    decreases s.len(),
{
    if s.len() == 0 {
        0
    } else {
        f_add(
            vval_sum(table, wit, inst, s.drop_last()),
            vval(table, wit, inst, s.last().variable),
        )
    }
}

/// The coefficient-weighted field sum of a batch's variable values under
/// an assignment.
pub open spec fn vval_lincomb(
    table: Seq<LinComb>,
    wit: Seq<nat>,
    inst: Seq<nat>,
    coeffs: Seq<Fp>,
    s: Seq<AllocatedFp>,
) -> nat
    decreases s.len(),
{
    if s.len() == 0 {
        0
    } else {
        f_add(
            vval_lincomb(table, wit, inst, coeffs.drop_last(), s.drop_last()),
            f_mul(coeffs.last()@, vval(table, wit, inst, s.last().variable)),
        )
    }
}

/// A term list pairing each coefficient with the matching batch element's
/// variable evaluates to the weighted value sum.
proof fn lemma_lincomb_terms_val(
    t1: Seq<LinComb>,
    t2: Seq<LinComb>,
    wit: Seq<nat>,
    inst: Seq<nat>,
    coeffs: Seq<Fp>,
    elems: Seq<AllocatedFp>,
    terms: Seq<(Fp, Variable)>,
    ni: nat,
    nw: nat,
)
    requires
        lcs_wf(t1, ni, nw),
        t1.len() <= t2.len(),
        forall|i: int| 0 <= i < t1.len() ==> t1[i] == t2[i],
        terms.len() == elems.len(),
        coeffs.len() == elems.len(),
        forall|j: int| 0 <= j < terms.len() ==> #[trigger] terms[j] == (coeffs[j], elems[j].variable),
        forall|j: int| 0 <= j < elems.len() ==> var_wf((#[trigger] elems[j]).variable, ni, nw, t1.len() as nat),
    ensures
        fmod(terms_val(t2, wit, inst, terms, t1.len() as nat)) == vval_lincomb(
            t2,
            wit,
            inst,
            coeffs,
            elems,
        ),
    decreases elems.len(),
{
    if elems.len() == 0 {
        lemma_small_mod(0, MODULUS as nat);
    } else {
        let td = terms.drop_last();
        let ed = elems.drop_last();
        let cd = coeffs.drop_last();
        assert forall|j: int| 0 <= j < td.len() implies #[trigger] td[j] == (
        cd[j],
        ed[j].variable,
        ) by {
            assert(td[j] == terms[j]);
            assert(ed[j] == elems[j]);
            assert(cd[j] == coeffs[j]);
        };
        assert forall|j: int|
            0 <= j < ed.len() implies var_wf((#[trigger] ed[j]).variable, ni, nw, t1.len() as nat) by {
            assert(ed[j] == elems[j]);
        };
        lemma_lincomb_terms_val(t1, t2, wit, inst, cd, ed, td, ni, nw);
        assert(terms.last() == (coeffs.last(), elems.last().variable));
        let c = coeffs.last();
        let v = elems.last().variable;
        let vv = var_val(t2, wit, inst, v, t1.len() as nat);
        assert(terms_val(t2, wit, inst, terms, t1.len() as nat) == terms_val(
            t2,
            wit,
            inst,
            td,
            t1.len() as nat,
        ) + (c@ as int) * vv);
        lemma_vval_lift(t1, t2, wit, inst, v, ni, nw);
        let p = MODULUS as int;
        lemma_add_mod_noop(terms_val(t2, wit, inst, td, t1.len() as nat), (c@ as int) * vv, p);
        vstd::arithmetic::div_mod::lemma_mul_mod_noop_right(c@ as int, vv, p);
        lemma_mod_twice(vv, p);
        assert(fmod((c@ as int) * vv) == f_mul(c@, vval(t2, wit, inst, v)));
        lemma_add_mod_noop(
            fmod(terms_val(t2, wit, inst, td, t1.len() as nat)) as int,
            f_mul(c@, vval(t2, wit, inst, v)) as int,
            p,
        );
        lemma_mod_twice(fmod(terms_val(t2, wit, inst, td, t1.len() as nat)) as int, p);
        lemma_mod_twice(f_mul(c@, vval(t2, wit, inst, v)) as int, p);
    }
}

/// A term list pairing the unit coefficient with each batch element's
/// variable evaluates to the batch's value sum.
proof fn lemma_sum_terms_val(
    t1: Seq<LinComb>,
    t2: Seq<LinComb>,
    wit: Seq<nat>,
    inst: Seq<nat>,
    elems: Seq<AllocatedFp>,
    terms: Seq<(Fp, Variable)>,
    ni: nat,
    nw: nat,
)
    requires
        lcs_wf(t1, ni, nw),
        t1.len() <= t2.len(),
        forall|i: int| 0 <= i < t1.len() ==> t1[i] == t2[i],
        terms.len() == elems.len(),
        forall|j: int| 0 <= j < terms.len() ==> #[trigger] terms[j] == (fp_of(1), elems[j].variable),
        forall|j: int| 0 <= j < elems.len() ==> var_wf((#[trigger] elems[j]).variable, ni, nw, t1.len() as nat),
    ensures
        fmod(terms_val(t2, wit, inst, terms, t1.len() as nat)) == vval_sum(t2, wit, inst, elems),
    decreases elems.len(),
{
    lemma_fp_of(1);
    lemma_small_mod(1, MODULUS as nat);
    if elems.len() == 0 {
        lemma_small_mod(0, MODULUS as nat);
    } else {
        let td = terms.drop_last();
        let ed = elems.drop_last();
        assert forall|j: int| 0 <= j < td.len() implies #[trigger] td[j] == (
        fp_of(1),
        ed[j].variable,
        ) by {
            assert(td[j] == terms[j]);
            assert(ed[j] == elems[j]);
        };
        assert forall|j: int|
            0 <= j < ed.len() implies var_wf((#[trigger] ed[j]).variable, ni, nw, t1.len() as nat) by {
            assert(ed[j] == elems[j]);
        };
        lemma_sum_terms_val(t1, t2, wit, inst, ed, td, ni, nw);
        assert(terms.last() == (fp_of(1), elems.last().variable));
        let v = elems.last().variable;
        let vv = var_val(t2, wit, inst, v, t1.len() as nat);
        assert(terms_val(t2, wit, inst, terms, t1.len() as nat) == terms_val(
            t2,
            wit,
            inst,
            td,
            t1.len() as nat,
        ) + 1 * vv);
        lemma_vval_lift(t1, t2, wit, inst, v, ni, nw);
        lemma_add_mod_noop(terms_val(t2, wit, inst, td, t1.len() as nat), vv, MODULUS as int);
    }
}

/// Every element of the batch carries a witness that agrees with the
/// stored assignment.
pub open spec fn all_tracked(s: Seq<AllocatedFp>, cs: &ConstraintSystem) -> bool {
    forall|k: int|
        0 <= k < s.len() ==> (#[trigger] s[k]).witness is Some && s[k].tracks(cs)
}

/// Under the stored assignment, the value sum of a tracked batch is the
/// field sum of its witnesses.
proof fn lemma_vval_sum_tracked(cs: &ConstraintSystem, s: Seq<AllocatedFp>)
    requires
        all_tracked(s, cs),
    ensures
        vval_sum(cs.lc_table@, cs.wit_vals(), cs.inst_vals(), s) == wit_sum_nat(s),
    decreases s.len(),
{
    if s.len() > 0 {
        let sd = s.drop_last();
        assert forall|k: int|
            0 <= k < sd.len() implies (#[trigger] sd[k]).witness is Some && sd[k].tracks(cs) by {
            assert(sd[k] == s[k]);
        };
        lemma_vval_sum_tracked(cs, sd);
        assert(s[s.len() - 1].witness is Some && s[s.len() - 1].tracks(cs));
    }
}

/// Under the stored assignment, the weighted value sum of a tracked batch
/// is the weighted field sum of its witnesses.
proof fn lemma_vval_lincomb_tracked(cs: &ConstraintSystem, coeffs: Seq<Fp>, s: Seq<AllocatedFp>)
    requires
        all_tracked(s, cs),
        coeffs.len() == s.len(),
    ensures
        vval_lincomb(cs.lc_table@, cs.wit_vals(), cs.inst_vals(), coeffs, s) == wit_lincomb_nat(
            coeffs,
            s,
        ),
    decreases s.len(),
{
    if s.len() > 0 {
        let sd = s.drop_last();
        let cd = coeffs.drop_last();
        assert forall|k: int|
            0 <= k < sd.len() implies (#[trigger] sd[k]).witness is Some && sd[k].tracks(cs) by {
            assert(sd[k] == s[k]);
        };
        lemma_vval_lincomb_tracked(cs, cd, sd);
        assert(s[s.len() - 1].witness is Some && s[s.len() - 1].tracks(cs));
    }
}

/// The witness sum of the pairwise products is the witness inner product.
proof fn lemma_wit_sum_is_dot(prods: Seq<AllocatedFp>, a: Seq<AllocatedFp>, b: Seq<AllocatedFp>)
    requires
        prods.len() == a.len(),
        a.len() == b.len(),
        forall|k: int|
            0 <= k < prods.len() ==> (#[trigger] prods[k]).witness == Option::Some(
                fp_of(f_mul(a[k].wit_nat(), b[k].wit_nat())),
            ),
    ensures
        wit_sum_nat(prods) == wit_dot_nat(a, b),
    decreases prods.len(),
{
    if prods.len() > 0 {
        let pd = prods.drop_last();
        let ad = a.drop_last();
        let bd = b.drop_last();
        assert forall|k: int|
            0 <= k < pd.len() implies (#[trigger] pd[k]).witness == Option::Some(
            fp_of(f_mul(ad[k].wit_nat(), bd[k].wit_nat())),
        ) by {
            assert(pd[k] == prods[k]);
            assert(ad[k] == a[k]);
            assert(bd[k] == b[k]);
        };
        lemma_wit_sum_is_dot(pd, ad, bd);
        let m = f_mul(a.last().wit_nat(), b.last().wit_nat());
        assert(prods[prods.len() - 1].witness == Option::Some(fp_of(m)));
        crate::field::lemma_f_ops_bounded(a.last().wit_nat(), b.last().wit_nat());
        crate::field::lemma_fp_of_small(m);
    }
}

/// A tracked batch stays tracked as the arena grows.
pub proof fn lemma_all_tracked_extend(
    s: Seq<AllocatedFp>,
    cs1: &ConstraintSystem,
    cs2: &ConstraintSystem,
)
    requires
        all_tracked(s, cs1),
        all_wf(s, cs1),
        cs1.wf(),
        cs2.extends(cs1),
    ensures
        all_tracked(s, cs2),
{
    assert forall|k: int|
        0 <= k < s.len() implies (#[trigger] s[k]).witness is Some && s[k].tracks(cs2) by {
        assert(s[k].witness is Some && s[k].tracks(cs1) && s[k].wf(cs1));
        crate::cs::lemma_val_extends(cs1, cs2, s[k].variable);
    };
}

impl AllocatedFp {
    /// Adds a whole batch at once: no constraint and exactly one linear
    /// combination, however long the batch; `None` for an empty batch.
    ///
    /// The witness is computed only when every input has one; otherwise
    /// the result's witness is absent, which is the ordinary state during
    /// setup-only compilation.
    pub fn add_many(cs: &mut ConstraintSystem, elems: &[AllocatedFp]) -> (r: Option<AllocatedFp>)
        requires
            old(cs).wf(),
            all_wf(elems@, old(cs)),
        ensures
            final(cs).wf(),
            final(cs).extends(old(cs)),
            final(cs).nc() == old(cs).nc(),
            final(cs).nw() == old(cs).nw(),
            final(cs).ni() == old(cs).ni(),
            final(cs).constraints == old(cs).constraints,
            final(cs).witness_assignment == old(cs).witness_assignment,
            final(cs).is_complete() == old(cs).is_complete(),
            final(cs).spec_satisfied() == old(cs).spec_satisfied(),
            elems@.len() == 0 ==> r is None && *final(cs) == *old(cs),
            elems@.len() > 0 ==> final(cs).nl() == old(cs).nl() + 1 && (r matches Some(s) && {
                &&& s.witness == (if all_have_witness(elems@) {
                    Option::Some(fp_of(wit_sum_nat(elems@)))
                } else {
                    Option::None::<Fp>
                })
                &&& s.wf(final(cs))
                &&& forall|wit: Seq<nat>, inst: Seq<nat>|
                    #[trigger] vval(final(cs).lc_table@, wit, inst, s.variable) == vval_sum(
                        final(cs).lc_table@,
                        wit,
                        inst,
                        elems@,
                    )
                &&& all_tracked(elems@, old(cs)) ==> s.tracks(final(cs))
            }),
    {
        if elems.len() == 0 {
            return None;
        }
        let one = Fp::one();
        proof {
            lemma_fp_eq(one, 1);
        }
        let mut has = true;
        let mut acc = Fp::zero();
        let mut terms: Vec<(Fp, Variable)> = Vec::new();
        let mut i: usize = 0;
        while i < elems.len()
            invariant
                i <= elems@.len(),
                old(cs).wf(),
                all_wf(elems@, old(cs)),
                one == fp_of(1),
                one@ == 1,
                acc.valid(),
                has == (forall|j: int| 0 <= j < i ==> (#[trigger] elems@[j]).witness is Some),
                has ==> acc@ == wit_sum_nat(elems@.subrange(0, i as int)),
                terms@.len() == i,
                forall|j: int|
                    0 <= j < i ==> #[trigger] terms@[j] == (fp_of(1), elems@[j].variable),
            decreases elems@.len() - i,
        {
            let e = elems[i];
            proof {
                assert(elems@.subrange(0, i as int + 1).drop_last() =~= elems@.subrange(
                    0,
                    i as int,
                ));
                assert(elems@.subrange(0, i as int + 1).last() == elems@[i as int]);
            }
            match e.witness {
                Option::Some(w) => {
                    if has {
                        let next = acc.add_fp(&w);
                        proof {
                            assert(wit_sum_nat(elems@.subrange(0, i as int + 1)) == f_add(
                                wit_sum_nat(elems@.subrange(0, i as int)),
                                w@,
                            ));
                        }
                        acc = next;
                    }
                },
                Option::None => {
                    has = false;
                },
            }
            terms.push((one, e.variable));
            i += 1;
        }
        proof {
            assert(elems@.subrange(0, elems@.len() as int) =~= elems@);
            assert(terms_wf(terms@, old(cs).ni(), old(cs).nw(), old(cs).nl())) by {
                assert forall|k: int|
                    0 <= k < terms@.len() implies (#[trigger] terms@[k]).0.valid() && var_wf(
                    terms@[k].1,
                    old(cs).ni(),
                    old(cs).nw(),
                    old(cs).nl(),
                ) by {
                    lemma_fp_of(1);
                    assert(elems@[k].wf(old(cs)));
                };
            };
        }
        let value: Option<Fp> = if has {
            Option::Some(acc)
        } else {
            Option::None
        };
        let variable = cs.new_lc(terms);
        let r = AllocatedFp { witness: value, variable };
        proof {
            crate::cs::lemma_spec_satisfied_frame_eq(old(cs), final(cs));
            if has {
                lemma_fp_eq(acc, wit_sum_nat(elems@));
            }
            let t1 = old(cs).lc_table@;
            let t2 = final(cs).lc_table@;
            assert forall|wit: Seq<nat>, inst: Seq<nat>|
                #[trigger] vval(t2, wit, inst, variable) == vval_sum(t2, wit, inst, elems@) by {
                assert(vval(t2, wit, inst, variable) == fmod(
                    terms_val(t2, wit, inst, terms@, old(cs).nl()),
                ));
                assert forall|j: int|
                    0 <= j < elems@.len() implies var_wf(
                    (#[trigger] elems@[j]).variable,
                    old(cs).ni(),
                    old(cs).nw(),
                    t1.len() as nat,
                ) by {
                    assert(elems@[j].wf(old(cs)));
                };
                lemma_sum_terms_val(
                    t1,
                    t2,
                    wit,
                    inst,
                    elems@,
                    terms@,
                    old(cs).ni(),
                    old(cs).nw(),
                );
            };
            if all_tracked(elems@, old(cs)) {
                lemma_all_tracked_extend(elems@, old(cs), final(cs));
                lemma_vval_sum_tracked(final(cs), elems@);
                assert(all_have_witness(elems@)) by {
                    assert forall|k: int|
                        0 <= k < elems@.len() implies (#[trigger] elems@[k]).witness is Some by {
                        assert(elems@[k].witness is Some && elems@[k].tracks(old(cs)));
                    };
                };
                lemma_fp_of(wit_sum_nat(elems@));
                lemma_small_mod(wit_sum_nat(elems@), MODULUS as nat);
            }
        }
        Some(r)
    }

    /// Folds a coefficient-weighted batch into one linear combination: no
    /// constraint; `None` for an empty batch.
    pub fn linear_combination(
        cs: &mut ConstraintSystem,
        coeffs: &[Fp],
        elems: &[AllocatedFp],
    ) -> (r: Option<AllocatedFp>)
        requires
            old(cs).wf(),
            coeffs@.len() == elems@.len(),
            forall|k: int| 0 <= k < coeffs@.len() ==> (#[trigger] coeffs@[k]).valid(),
            all_wf(elems@, old(cs)),
        ensures
            final(cs).wf(),
            final(cs).extends(old(cs)),
            final(cs).nc() == old(cs).nc(),
            final(cs).nw() == old(cs).nw(),
            final(cs).ni() == old(cs).ni(),
            final(cs).constraints == old(cs).constraints,
            final(cs).witness_assignment == old(cs).witness_assignment,
            final(cs).is_complete() == old(cs).is_complete(),
            final(cs).spec_satisfied() == old(cs).spec_satisfied(),
            elems@.len() == 0 ==> r is None && *final(cs) == *old(cs),
            elems@.len() > 0 ==> final(cs).nl() == old(cs).nl() + 1 && (r matches Some(s) && {
                &&& s.witness == (if all_have_witness(elems@) {
                    Option::Some(fp_of(wit_lincomb_nat(coeffs@, elems@)))
                } else {
                    Option::None::<Fp>
                })
                &&& s.wf(final(cs))
                &&& forall|wit: Seq<nat>, inst: Seq<nat>|
                    #[trigger] vval(final(cs).lc_table@, wit, inst, s.variable) == vval_lincomb(
                        final(cs).lc_table@,
                        wit,
                        inst,
                        coeffs@,
                        elems@,
                    )
                &&& all_tracked(elems@, old(cs)) ==> s.tracks(final(cs))
            }),
    {
        if elems.len() == 0 {
            return None;
        }
        let mut has = true;
        let mut acc = Fp::zero();
        let mut terms: Vec<(Fp, Variable)> = Vec::new();
        let mut i: usize = 0;
        while i < elems.len()
            invariant
                i <= elems@.len(),
                coeffs@.len() == elems@.len(),
                old(cs).wf(),
                all_wf(elems@, old(cs)),
                forall|k: int| 0 <= k < coeffs@.len() ==> (#[trigger] coeffs@[k]).valid(),
                acc.valid(),
                has == (forall|j: int| 0 <= j < i ==> (#[trigger] elems@[j]).witness is Some),
                has ==> acc@ == wit_lincomb_nat(
                    coeffs@.subrange(0, i as int),
                    elems@.subrange(0, i as int),
                ),
                terms@.len() == i,
                forall|j: int|
                    0 <= j < i ==> #[trigger] terms@[j] == (coeffs@[j], elems@[j].variable),
            decreases elems@.len() - i,
        {
            let e = elems[i];
            let c = coeffs[i];
            proof {
                assert(elems@.subrange(0, i as int + 1).drop_last() =~= elems@.subrange(
                    0,
                    i as int,
                ));
                assert(coeffs@.subrange(0, i as int + 1).drop_last() =~= coeffs@.subrange(
                    0,
                    i as int,
                ));
                assert(elems@.subrange(0, i as int + 1).last() == elems@[i as int]);
                assert(coeffs@.subrange(0, i as int + 1).last() == coeffs@[i as int]);
            }
            match e.witness {
                Option::Some(w) => {
                    if has {
                        let prod = c.mul_fp(&w);
                        let next = acc.add_fp(&prod);
                        proof {
                            assert(wit_lincomb_nat(
                                coeffs@.subrange(0, i as int + 1),
                                elems@.subrange(0, i as int + 1),
                            ) == f_add(
                                wit_lincomb_nat(
                                    coeffs@.subrange(0, i as int),
                                    elems@.subrange(0, i as int),
                                ),
                                f_mul(c@, w@),
                            ));
                        }
                        acc = next;
                    }
                },
                Option::None => {
                    has = false;
                },
            }
            terms.push((c, e.variable));
            i += 1;
        }
        proof {
            assert(elems@.subrange(0, elems@.len() as int) =~= elems@);
            assert(coeffs@.subrange(0, coeffs@.len() as int) =~= coeffs@);
            assert(terms_wf(terms@, old(cs).ni(), old(cs).nw(), old(cs).nl())) by {
                assert forall|k: int|
                    0 <= k < terms@.len() implies (#[trigger] terms@[k]).0.valid() && var_wf(
                    terms@[k].1,
                    old(cs).ni(),
                    old(cs).nw(),
                    old(cs).nl(),
                ) by {
                    assert(elems@[k].wf(old(cs)));
                    assert(coeffs@[k].valid());
                };
            };
        }
        let value: Option<Fp> = if has {
            proof {
                lemma_fp_eq(acc, wit_lincomb_nat(coeffs@, elems@));
            }
            Option::Some(acc)
        } else {
            Option::None
        };
        let variable = cs.new_lc(terms);
        proof {
            crate::cs::lemma_spec_satisfied_frame_eq(old(cs), final(cs));
            let t1 = old(cs).lc_table@;
            let t2 = final(cs).lc_table@;
            assert forall|wit: Seq<nat>, inst: Seq<nat>|
                #[trigger] vval(t2, wit, inst, variable) == vval_lincomb(
                t2,
                wit,
                inst,
                coeffs@,
                elems@,
            ) by {
                assert(vval(t2, wit, inst, variable) == fmod(
                    terms_val(t2, wit, inst, terms@, old(cs).nl()),
                ));
                assert forall|j: int|
                    0 <= j < elems@.len() implies var_wf(
                    (#[trigger] elems@[j]).variable,
                    old(cs).ni(),
                    old(cs).nw(),
                    t1.len() as nat,
                ) by {
                    assert(elems@[j].wf(old(cs)));
                };
                lemma_lincomb_terms_val(
                    t1,
                    t2,
                    wit,
                    inst,
                    coeffs@,
                    elems@,
                    terms@,
                    old(cs).ni(),
                    old(cs).nw(),
                );
            };
            if all_tracked(elems@, old(cs)) {
                lemma_all_tracked_extend(elems@, old(cs), final(cs));
                lemma_vval_lincomb_tracked(final(cs), coeffs@, elems@);
                assert(all_have_witness(elems@)) by {
                    assert forall|k: int|
                        0 <= k < elems@.len() implies (#[trigger] elems@[k]).witness is Some by {
                        assert(elems@[k].witness is Some && elems@[k].tracks(old(cs)));
                    };
                };
                lemma_fp_of(wit_lincomb_nat(coeffs@, elems@));
                lemma_small_mod(wit_lincomb_nat(coeffs@, elems@), MODULUS as nat);
            }
        }
        Some(AllocatedFp { witness: value, variable })
    }

    /// The inner product of two equal-length batches: one multiplication
    /// constraint per pair and one final linear combination; `None` for
    /// empty batches.
    pub fn inner_product(
        cs: &mut ConstraintSystem,
        this: &[AllocatedFp],
        other: &[AllocatedFp],
    ) -> (r: Option<AllocatedFp>)
        requires
            old(cs).wf(),
            this@.len() == other@.len(),
            all_wf(this@, old(cs)),
            all_wf(other@, old(cs)),
        ensures
            final(cs).wf(),
            final(cs).extends(old(cs)),
            final(cs).ni() == old(cs).ni(),
            (old(cs).is_complete() && all_have_witness(this@) && all_have_witness(other@))
                ==> final(cs).is_complete(),
            (old(cs).spec_satisfied() && all_tracked(this@, old(cs)) && all_tracked(
                other@,
                old(cs),
            )) ==> final(cs).spec_satisfied(),
            this@.len() == 0 ==> r is None && *final(cs) == *old(cs),
            this@.len() > 0 ==> {
                &&& final(cs).nc() == old(cs).nc() + this@.len()
                &&& final(cs).nw() == old(cs).nw() + this@.len()
                &&& final(cs).nl() == old(cs).nl() + 1
                &&& r matches Some(s) && {
                    &&& s.witness == (if all_have_witness(this@) && all_have_witness(other@) {
                        Option::Some(fp_of(wit_dot_nat(this@, other@)))
                    } else {
                        Option::None::<Fp>
                    })
                    &&& s.wf(final(cs))
                    &&& (all_tracked(this@, old(cs)) && all_tracked(other@, old(cs))) ==> s.tracks(
                        final(cs),
                    )
                }
            },
    {
        if this.len() == 0 {
            return None;
        }
        let one = Fp::one();
        proof {
            lemma_fp_eq(one, 1);
        }
        let mut has = true;
        let mut acc = Fp::zero();
        let mut terms: Vec<(Fp, Variable)> = Vec::new();
        let ghost mut prods: Seq<AllocatedFp> = Seq::empty();
        let mut i: usize = 0;
        while i < this.len()
            invariant
                i <= this@.len(),
                this@.len() == other@.len(),
                old(cs).wf(),
                cs.wf(),
                cs.extends(old(cs)),
                cs.nc() == old(cs).nc() + i,
                cs.nw() == old(cs).nw() + i,
                cs.nl() == old(cs).nl(),
                cs.ni() == old(cs).ni(),
                all_wf(this@, old(cs)),
                all_wf(other@, old(cs)),
                all_wf(this@, cs),
                all_wf(other@, cs),
                one@ == 1,
                one == fp_of(1),
                acc.valid(),
                has == (all_have_witness(this@.subrange(0, i as int)) && all_have_witness(
                    other@.subrange(0, i as int),
                )),
                has ==> acc@ == wit_dot_nat(
                    this@.subrange(0, i as int),
                    other@.subrange(0, i as int),
                ),
                terms@.len() == i,
                terms_wf(terms@, cs.ni(), cs.nw(), cs.nl()),
                prods.len() == i,
                all_wf(prods, cs),
                (old(cs).is_complete() && all_have_witness(this@) && all_have_witness(other@))
                    ==> cs.is_complete(),
                (old(cs).spec_satisfied() && all_tracked(this@, old(cs)) && all_tracked(
                    other@,
                    old(cs),
                )) ==> cs.spec_satisfied(),
                forall|k: int| 0 <= k < i ==> #[trigger] terms@[k] == (fp_of(1), prods[k].variable),
                (all_tracked(this@, old(cs)) && all_tracked(other@, old(cs))) ==> (forall|k: int|
                    0 <= k < i ==> (#[trigger] prods[k]).witness == Option::Some(
                        fp_of(f_mul(this@[k].wit_nat(), other@[k].wit_nat())),
                    ) && prods[k].tracks(cs)),
            decreases this@.len() - i,
        {
            let a = this[i];
            let b = other[i];
            proof {
                assert(this@.subrange(0, i as int + 1).drop_last() =~= this@.subrange(0, i as int));
                assert(other@.subrange(0, i as int + 1).drop_last() =~= other@.subrange(
                    0,
                    i as int,
                ));
                assert(this@.subrange(0, i as int + 1).last() == this@[i as int]);
                assert(other@.subrange(0, i as int + 1).last() == other@[i as int]);
            }
            let ghost before = *cs;
            let ghost old_prods = prods;
            let product = a.mul(cs, &b);
            proof {
                prods = prods.push(product);
                lemma_all_wf_extend(this@, &before, cs);
                lemma_all_wf_extend(other@, &before, cs);
                lemma_all_wf_extend(old_prods, &before, cs);
                assert(all_wf(prods, cs)) by {
                    assert forall|k: int| 0 <= k < prods.len() implies (#[trigger] prods[k]).wf(
                        cs,
                    ) by {
                        if k < old_prods.len() {
                            assert(prods[k] == old_prods[k]);
                        } else {
                            assert(prods[k] == product);
                        }
                    };
                };
                assert(terms_wf(terms@, cs.ni(), cs.nw(), cs.nl())) by {
                    crate::cs::lemma_terms_wf_widen(
                        terms@,
                        before.ni(),
                        before.nw(),
                        before.nl(),
                        cs.ni(),
                        cs.nw(),
                        cs.nl(),
                    );
                };
                if old(cs).is_complete() && all_have_witness(this@) && all_have_witness(other@) {
                    assert(this@[i as int].witness is Some);
                    assert(other@[i as int].witness is Some);
                }
                if all_tracked(this@, old(cs)) && all_tracked(other@, old(cs)) {
                    assert(a.witness is Some && a.tracks(old(cs)));
                    assert(b.witness is Some && b.tracks(old(cs)));
                    crate::cs::lemma_val_extends(old(cs), &before, a.variable);
                    crate::cs::lemma_val_extends(old(cs), &before, b.variable);
                    assert(a.assigned(&before) && b.assigned(&before));
                    assert forall|k: int|
                        0 <= k < prods.len() implies (#[trigger] prods[k]).witness
                        == Option::Some(
                        fp_of(f_mul(this@[k].wit_nat(), other@[k].wit_nat())),
                    ) && prods[k].tracks(cs) by {
                        if k < old_prods.len() {
                            assert(prods[k] == old_prods[k]);
                            assert(old_prods[k].wf(&before));
                            crate::cs::lemma_val_extends(&before, cs, old_prods[k].variable);
                        } else {
                            assert(prods[k] == product);
                        }
                    };
                }
            }
            match product.witness {
                Option::Some(w) => {
                    if has {
                        let next = acc.add_fp(&w);
                        proof {
                            let aw = a.witness.unwrap();
                            let bw = b.witness.unwrap();
                            assert(w == fp_of(f_mul(aw@, bw@)));
                            lemma_fp_of(f_mul(aw@, bw@));
                            lemma_small_mod(f_mul(aw@, bw@), MODULUS as nat);
                            assert(wit_dot_nat(
                                this@.subrange(0, i as int + 1),
                                other@.subrange(0, i as int + 1),
                            ) == f_add(
                                wit_dot_nat(
                                    this@.subrange(0, i as int),
                                    other@.subrange(0, i as int),
                                ),
                                f_mul(aw@, bw@),
                            ));
                        }
                        acc = next;
                    }
                },
                Option::None => {
                    has = false;
                },
            }
            proof {
                let tp = this@.subrange(0, i as int + 1);
                let op = other@.subrange(0, i as int + 1);
                let tc = this@.subrange(0, i as int);
                let oc = other@.subrange(0, i as int);
                if a.witness is Some && b.witness is Some && all_have_witness(tc)
                    && all_have_witness(oc) {
                    assert forall|k: int| 0 <= k < tp.len() implies (#[trigger] tp[k]).witness
                        is Some by {
                        if k < i {
                            assert(tp[k] == tc[k]);
                        } else {
                            assert(tp[k] == a);
                        }
                    };
                    assert forall|k: int| 0 <= k < op.len() implies (#[trigger] op[k]).witness
                        is Some by {
                        if k < i {
                            assert(op[k] == oc[k]);
                        } else {
                            assert(op[k] == b);
                        }
                    };
                } else {
                    if a.witness is None {
                        assert(tp[i as int] == a);
                        assert(!all_have_witness(tp));
                    } else if b.witness is None {
                        assert(op[i as int] == b);
                        assert(!all_have_witness(op));
                    } else {
                        assert(!(all_have_witness(tc) && all_have_witness(oc)));
                        if !all_have_witness(tc) {
                            let k = choose|k: int|
                                !(0 <= k < tc.len() ==> (#[trigger] tc[k]).witness is Some);
                            assert(tp[k] == tc[k]);
                            assert(!all_have_witness(tp));
                        } else {
                            let k = choose|k: int|
                                !(0 <= k < oc.len() ==> (#[trigger] oc[k]).witness is Some);
                            assert(op[k] == oc[k]);
                            assert(!all_have_witness(op));
                        }
                    }
                }
            }
            terms.push((one, product.variable));
            proof {
                assert(terms_wf(terms@, cs.ni(), cs.nw(), cs.nl())) by {
                    assert forall|k: int|
                        0 <= k < terms@.len() implies (#[trigger] terms@[k]).0.valid() && var_wf(
                        terms@[k].1,
                        cs.ni(),
                        cs.nw(),
                        cs.nl(),
                    ) by {
                        if k < terms@.len() - 1 {
                            assert(terms_wf(terms@.drop_last(), cs.ni(), cs.nw(), cs.nl()));
                            assert(terms@.drop_last()[k] == terms@[k]);
                        } else {
                            assert(terms@[k] == (one, product.variable));
                            assert(product.wf(cs));
                            lemma_fp_of(1);
                        }
                    };
                };
            }
            i += 1;
        }
        proof {
            assert(this@.subrange(0, this@.len() as int) =~= this@);
            assert(other@.subrange(0, other@.len() as int) =~= other@);
        }
        let value: Option<Fp> = if has {
            proof {
                lemma_fp_eq(acc, wit_dot_nat(this@, other@));
            }
            Option::Some(acc)
        } else {
            Option::None
        };
        let ghost loop_end = *cs;
        let variable = cs.new_lc(terms);
        let r = AllocatedFp { witness: value, variable };
        proof {
            crate::cs::lemma_extends_trans(final(cs), &loop_end, old(cs));
            crate::cs::lemma_spec_satisfied_frame_eq(&loop_end, final(cs));
            if all_tracked(this@, old(cs)) && all_tracked(other@, old(cs)) {
                let t1 = loop_end.lc_table@;
                let t2 = final(cs).lc_table@;
                let fw = final(cs).wit_vals();
                let fi = final(cs).inst_vals();
                assert(all_have_witness(this@) && all_have_witness(other@)) by {
                    assert forall|k: int|
                        0 <= k < this@.len() implies (#[trigger] this@[k]).witness is Some by {
                        assert(this@[k].witness is Some && this@[k].tracks(old(cs)));
                    };
                    assert forall|k: int|
                        0 <= k < other@.len() implies (#[trigger] other@[k]).witness is Some by {
                        assert(other@[k].witness is Some && other@[k].tracks(old(cs)));
                    };
                };
                assert(vval(t2, fw, fi, variable) == fmod(
                    terms_val(t2, fw, fi, terms@, loop_end.nl()),
                ));
                assert forall|j: int|
                    0 <= j < prods.len() implies var_wf(
                    (#[trigger] prods[j]).variable,
                    loop_end.ni(),
                    loop_end.nw(),
                    t1.len() as nat,
                ) by {
                    assert(prods[j].wf(&loop_end));
                };
                lemma_sum_terms_val(
                    t1,
                    t2,
                    fw,
                    fi,
                    prods,
                    terms@,
                    loop_end.ni(),
                    loop_end.nw(),
                );
                assert(all_tracked(prods, final(cs))) by {
                    assert(all_tracked(prods, &loop_end)) by {
                        assert forall|k: int|
                            0 <= k < prods.len() implies (#[trigger] prods[k]).witness is Some
                            && prods[k].tracks(&loop_end) by {
                            assert(prods[k].witness == Option::Some(
                                fp_of(f_mul(this@[k].wit_nat(), other@[k].wit_nat())),
                            ) && prods[k].tracks(&loop_end));
                        };
                    };
                    lemma_all_tracked_extend(prods, &loop_end, final(cs));
                };
                lemma_vval_sum_tracked(final(cs), prods);
                lemma_wit_sum_is_dot(prods, this@, other@);
                lemma_fp_of(wit_dot_nat(this@, other@));
                lemma_small_mod(wit_dot_nat(this@, other@), MODULUS as nat);
            }
        }
        Some(r)
    }
}

impl AllocatedFp {
    /// Represents the value over the constraint field: itself, wrapped.
    pub fn to_constraint_field(&self) -> (r: Vec<crate::field_element::FpVar>)
        ensures
            r@.len() == 1,
            r@[0] == crate::field_element::FpVar::Var(*self),
    {
        let mut out: Vec<crate::field_element::FpVar> = Vec::new();
        out.push(crate::field_element::FpVar::Var(*self));
        out
    }
}

/// Batch well-formedness survives growing the arena.
pub proof fn lemma_all_wf_extend(
    s: Seq<AllocatedFp>,
    cs1: &ConstraintSystem,
    cs2: &ConstraintSystem,
)
    requires
        all_wf(s, cs1),
        cs2.extends(cs1),
    ensures
        all_wf(s, cs2),
{
    assert forall|k: int| 0 <= k < s.len() implies (#[trigger] s[k]).wf(cs2) by {
        assert(s[k].wf(cs1));
    };
}

/// The two-term difference list evaluates to the field difference of the
/// two variables' values.
pub proof fn lemma_diff_terms_val(
    table: Seq<LinComb>,
    wit: Seq<nat>,
    inst: Seq<nat>,
    c1: Fp,
    c2: Fp,
    v1: Variable,
    v2: Variable,
)
    requires
        c1@ == 1,
        c2@ == (MODULUS - 1) as nat,
    ensures
        fmod(terms_val(table, wit, inst, seq![(c1, v1), (c2, v2)], table.len() as nat)) == f_sub(
            vval(table, wit, inst, v1),
            vval(table, wit, inst, v2),
        ),
{
    let s = seq![(c1, v1), (c2, v2)];
    assert(s.drop_last() =~= seq![(c1, v1)]);
    assert(s.last() == (c2, v2));
    lemma_one_term_val(table, wit, inst, c1, v1, table.len() as nat);
    let va = var_val(table, wit, inst, v1, table.len() as nat);
    let vb = var_val(table, wit, inst, v2, table.len() as nat);
    assert(terms_val(table, wit, inst, s, table.len() as nat) == 1 * va + (c2@ as int) * vb);
    lemma_sub_semantics(va, vb);
    vstd::arithmetic::div_mod::lemma_mod_twice(va, MODULUS as int);
    vstd::arithmetic::div_mod::lemma_mod_twice(vb, MODULUS as int);
}

/// Field addition commutes.
pub proof fn lemma_f_add_comm(a: nat, b: nat)
    ensures
        f_add(a, b) == f_add(b, a),
{
}

/// Field multiplication commutes.
pub proof fn lemma_f_mul_comm(a: nat, b: nat)
    ensures
        f_mul(a, b) == f_mul(b, a),
{
    vstd::arithmetic::mul::lemma_mul_is_commutative(a as int, b as int);
}

/// Negating a difference swaps its sides.
pub proof fn lemma_f_neg_sub(a: nat, b: nat)
    ensures
        f_neg(f_sub(a, b)) == f_sub(b, a),
{
    let p = MODULUS as int;
    vstd::arithmetic::div_mod::lemma_sub_mod_noop_right(0, a - b, p);
}

impl AllocatedFp {
    /// Binds a boolean's linear-combination view to a fresh registered
    /// combination, yielding the element zero-or-one it denotes.
    pub fn from(cs: &mut ConstraintSystem, other: Boolean) -> (r: Self)
        requires
            old(cs).wf(),
            other.wf(old(cs)),
        ensures
            final(cs).wf(),
            final(cs).extends(old(cs)),
            final(cs).nc() == old(cs).nc(),
            final(cs).nl() == old(cs).nl() + 1,
            final(cs).nw() == old(cs).nw(),
            final(cs).ni() == old(cs).ni(),
            final(cs).constraints == old(cs).constraints,
            final(cs).is_complete() == old(cs).is_complete(),
            final(cs).spec_satisfied() == old(cs).spec_satisfied(),
            r.wf(final(cs)),
            other.has_value() ==> (r.witness matches Option::Some(w) && w@
                == crate::boolean::bool_to_nat(other.spec_value())),
            !other.has_value() ==> r.witness is None,
    {
        let value: Option<Fp> = match other.value() {
            Ok(b) => Option::Some(crate::boolean::bool_to_fp(b)),
            Err(_) => Option::None,
        };
        let lc = other.lc();
        proof {
            other.lemma_lc_terms_wf(old(cs));
        }
        let variable = cs.new_lc(lc.terms);
        proof {
            crate::cs::lemma_spec_satisfied_frame_eq(old(cs), final(cs));
        }
        Self { witness: value, variable }
    }
}

/// Adding the negation subtracts.
pub proof fn lemma_add_neg_is_sub(a: nat, b: nat)
    ensures
        f_add(a, f_neg(b)) == f_sub(a as int as nat, b),
{
    let p = MODULUS as int;
    vstd::arithmetic::div_mod::lemma_add_mod_noop_right(a as int, 0 - b as int, p);
    vstd::arithmetic::div_mod::lemma_sub_mod_noop_right(a as int, b as int, p);
    vstd::arithmetic::div_mod::lemma_mod_twice(0 - b as int, p);
}

/// Multiplication by a reduced scalar commutes through reduction.
proof fn lemma_mul_comm_mod(c: nat, x: int)
    ensures
        fmod((c as int) * x) == f_mul(fmod(x), c),
{
    let p = MODULUS as int;
    vstd::arithmetic::div_mod::lemma_mul_mod_noop_left(x, c as int, p);
    vstd::arithmetic::mul::lemma_mul_is_commutative(c as int, x);
}

/// Scaling by the negated unit coefficient negates.
pub proof fn lemma_neg_semantics(x: int)
    ensures
        fmod(((MODULUS - 1) as int) * x) == f_neg(fmod(x)),
{
    let p = MODULUS as int;
    assert((p - 1) * x == (0 - x) + p * x) by (nonlinear_arith);
    vstd::arithmetic::div_mod::lemma_mod_multiples_vanish(x, 0 - x, p);
    vstd::arithmetic::div_mod::lemma_sub_mod_noop_right(0, x, p);
    vstd::arithmetic::div_mod::lemma_mod_twice(x, p);
}

/// The registered combination `c1 * v1 + c2 * v2` evaluates to that
/// weighted sum of the two variables' values, under every assignment.
pub proof fn lemma_pair_lc_semantics(
    cs1: &ConstraintSystem,
    cs2: &ConstraintSystem,
    c1: Fp,
    v1: Variable,
    c2: Fp,
    v2: Variable,
    r: Variable,
)
    requires
        cs1.wf(),
        cs2.extends(cs1),
        var_wf(v1, cs1.ni(), cs1.nw(), cs1.nl()),
        var_wf(v2, cs1.ni(), cs1.nw(), cs1.nl()),
        forall|wit: Seq<nat>, inst: Seq<nat>|
            #[trigger] vval(cs2.lc_table@, wit, inst, r) == fmod(
                terms_val(cs2.lc_table@, wit, inst, seq![(c1, v1), (c2, v2)], cs1.nl()),
            ),
    ensures
        forall|wit: Seq<nat>, inst: Seq<nat>|
            #[trigger] vval(cs2.lc_table@, wit, inst, r) == fmod(
                (c1@ as int) * var_val(cs2.lc_table@, wit, inst, v1, cs2.lc_table@.len() as nat)
                    + (c2@ as int) * var_val(
                    cs2.lc_table@,
                    wit,
                    inst,
                    v2,
                    cs2.lc_table@.len() as nat,
                ),
            ),
{
    let t1 = cs1.lc_table@;
    let t2 = cs2.lc_table@;
    assert forall|wit: Seq<nat>, inst: Seq<nat>|
        #[trigger] vval(t2, wit, inst, r) == fmod(
        (c1@ as int) * var_val(t2, wit, inst, v1, t2.len() as nat) + (c2@ as int) * var_val(
            t2,
            wit,
            inst,
            v2,
            t2.len() as nat,
        ),
    ) by {
        let s = seq![(c1, v1), (c2, v2)];
        assert(vval(t2, wit, inst, r) == fmod(terms_val(t2, wit, inst, s, t1.len() as nat)));
        assert(s.drop_last() =~= seq![(c1, v1)]);
        assert(s.last() == (c2, v2));
        lemma_one_term_val(t2, wit, inst, c1, v1, t1.len() as nat);
        assert(terms_val(t2, wit, inst, s, t1.len() as nat) == (c1@ as int) * var_val(
            t2,
            wit,
            inst,
            v1,
            t1.len() as nat,
        ) + (c2@ as int) * var_val(t2, wit, inst, v2, t1.len() as nat));
        lemma_vval_lift(t1, t2, wit, inst, v1, cs1.ni(), cs1.nw());
        lemma_vval_lift(t1, t2, wit, inst, v2, cs1.ni(), cs1.nw());
    };
}

/// Subtracting via the negated coefficient is field subtraction.
pub proof fn lemma_sub_semantics(va: int, vb: int)
    ensures
        fmod(va + ((MODULUS - 1) as int) * vb) == f_sub(fmod(va), fmod(vb)),
{
    let p = MODULUS as int;
    assert(va + (p - 1) * vb == va - vb + p * vb) by (nonlinear_arith);
    vstd::arithmetic::div_mod::lemma_mod_multiples_vanish(vb, va - vb, p);
    vstd::arithmetic::div_mod::lemma_sub_mod_noop(va, vb, p);
}

} // verus!
