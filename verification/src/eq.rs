//! Equality and conditional-equality gadgets.
//!
//! Exact equality testing costs two constraints, built on an auxiliary
//! `multiplier` witness: the modular inverse of the difference when the
//! operands differ, and one otherwise.  The two constraints
//! `(a - b) * multiplier = ind` and `(a - b) * (1 - ind) = 0` pin the
//! indicator `ind` to exactly the truth value of `a != b`, with no
//! separate booleanity check; [`lemma_neq_gadget_sound`] and
//! [`lemma_neq_gadget_complete`] state that argument.

use vstd::prelude::*;
use vstd::arithmetic::div_mod::{lemma_mod_add_multiples_vanish, lemma_small_mod};
use crate::boolean::{AllocatedBool, Boolean};
use crate::cs::{constraint_sat, terms_val, var_val, vval, ConstraintSystem, LinComb, Variable};
use crate::field::{
    f_inv, f_mul, f_sub, fmod, fp_of, lemma_f_inv_property, lemma_fp_of, Fp, MODULUS,
};
use crate::fp_var::{lemma_fp_eq, lemma_one_term_val, AllocatedFp};
use crate::number_theory::lemma_zero_product;
use crate::SynthesisError;

verus! {

/// The difference of two distinct residues does not reduce to zero.
pub proof fn lemma_f_sub_nonzero(a: nat, b: nat)
    requires
        a < MODULUS as nat,
        b < MODULUS as nat,
        a != b,
    ensures
        f_sub(a, b) != 0,
{
    let p = MODULUS as int;
    if a > b {
        lemma_small_mod((a - b) as nat, MODULUS as nat);
    } else {
        lemma_mod_add_multiples_vanish(a - b, p);
        lemma_small_mod((a - b + p) as nat, MODULUS as nat);
    }
}

/// A product with the additive identity vanishes.
pub proof fn lemma_f_mul_zero(x: nat)
    ensures
        f_mul(0, x) == 0,
        f_mul(x, 0) == 0,
{
    lemma_small_mod(0, MODULUS as nat);
}

/// Soundness of the inequality gadget: any values satisfying both of its
/// constraints force the indicator to the exact truth value of
/// "the difference is nonzero" — in particular the indicator is boolean,
/// with no separate booleanity constraint.
pub proof fn lemma_neq_gadget_sound(d: nat, m: nat, ind: nat)
    requires
        d < MODULUS as nat,
        ind < MODULUS as nat,
        f_mul(d, m) == ind,
        f_mul(d, f_sub(1, ind)) == 0,
    ensures
        ind == (if d == 0 {
            0nat
        } else {
            1nat
        }),
{
    let p = MODULUS as nat;
    if d == 0 {
        lemma_f_mul_zero(m);
    } else {
        let y = f_sub(1, ind);
        assert((d * y) % p == 0);
        assert(d % p == d) by {
            lemma_small_mod(d, p);
        };
        lemma_zero_product(d, y);
        assert(y % p == y) by {
            lemma_small_mod(y, p);
        };
        assert(y == 0);
        if ind == 0 {
            assert(f_sub(1, 0) == 1) by {
                lemma_small_mod(1, p);
            };
        } else if ind != 1 {
            lemma_mod_add_multiples_vanish(1 - ind, p as int);
            lemma_small_mod((1 - ind + p) as nat, p);
        }
    }
}

/// Completeness of the inequality gadget: the witnesses the gadget
/// allocates satisfy both of its constraints, in the equal and the
/// unequal branch alike.
pub proof fn lemma_neq_gadget_complete(wa: nat, wb: nat)
    requires
        wa < MODULUS as nat,
        wb < MODULUS as nat,
    ensures
        ({
            let d = f_sub(wa, wb);
            let ind: nat = if wa != wb {
                1
            } else {
                0
            };
            let m: nat = if wa != wb {
                f_inv(d)
            } else {
                1
            };
            f_mul(d, m) == ind && f_mul(d, f_sub(1, ind)) == 0
        }),
{
    let p = MODULUS as nat;
    let d = f_sub(wa, wb);
    if wa == wb {
        assert(d == 0) by {
            lemma_small_mod(0, p);
        };
        lemma_f_mul_zero(1);
        lemma_f_mul_zero(f_sub(1, 0));
    } else {
        lemma_f_sub_nonzero(wa, wb);
        lemma_f_inv_property(d);
        assert(f_mul(d, f_inv(d)) == 1);
        assert(f_sub(1, 1) == 0) by {
            lemma_small_mod(0, p);
        };
        lemma_f_mul_zero(d);
    }
}

/// The inversion law for the additive identity: the relation
/// `x * inverse = 1` enforced by the inversion gadget is unsatisfied by
/// every assignment giving `x` the value zero, whatever the inverse
/// witness holds — inverting zero always encodes an unsatisfiable system.
pub proof fn lemma_inverse_of_zero_unsatisfiable(m: nat)
    ensures
        f_mul(0, m) != 1,
{
    lemma_f_mul_zero(m);
}

impl AllocatedFp {
    /// Outputs the bit `self != other`: two constraints, two fresh
    /// witnesses (the indicator and the auxiliary multiplier) and one
    /// registered combination for the difference.
    pub fn is_neq(&self, cs: &mut ConstraintSystem, other: &Self) -> (r: Result<
        Boolean,
        SynthesisError,
    >)
        requires
            old(cs).wf(),
            self.wf(old(cs)),
            other.wf(old(cs)),
        ensures
            final(cs).wf(),
            final(cs).extends(old(cs)),
            final(cs).nc() == old(cs).nc() + 2,
            final(cs).nl() == old(cs).nl() + 1,
            final(cs).nw() == old(cs).nw() + 2,
            final(cs).ni() == old(cs).ni(),
            r matches Ok(b) && (b matches Boolean::Is(ind) && {
                &&& ind.value == (match (self.witness, other.witness) {
                    (Option::Some(x), Option::Some(y)) => Option::Some(x@ != y@),
                    _ => Option::None::<bool>,
                })
                &&& ind.wf(final(cs))
                &&& forall|wit: Seq<nat>, inst: Seq<nat>|
                    #[trigger] constraint_sat(
                        final(cs).lc_table@,
                        wit,
                        inst,
                        final(cs).constraints@[old(cs).nc() as int],
                    ) <==> f_mul(
                        f_sub(
                            vval(final(cs).lc_table@, wit, inst, self.variable),
                            vval(final(cs).lc_table@, wit, inst, other.variable),
                        ),
                        vval(
                            final(cs).lc_table@,
                            wit,
                            inst,
                            Variable::Witness((old(cs).nw() + 1) as usize),
                        ),
                    ) == vval(final(cs).lc_table@, wit, inst, ind.variable)
                &&& forall|wit: Seq<nat>, inst: Seq<nat>|
                    #[trigger] constraint_sat(
                        final(cs).lc_table@,
                        wit,
                        inst,
                        final(cs).constraints@[old(cs).nc() as int + 1],
                    ) <==> f_mul(
                        f_sub(
                            vval(final(cs).lc_table@, wit, inst, self.variable),
                            vval(final(cs).lc_table@, wit, inst, other.variable),
                        ),
                        f_sub(1, vval(final(cs).lc_table@, wit, inst, ind.variable)),
                    ) == 0
                &&& (self.witness is Some && other.witness is Some && self.tracks(old(cs))
                    && other.tracks(old(cs))) ==> {
                    &&& ind.tracks(final(cs))
                    &&& constraint_sat(
                        final(cs).lc_table@,
                        final(cs).wit_vals(),
                        final(cs).inst_vals(),
                        final(cs).constraints@[old(cs).nc() as int],
                    )
                    &&& constraint_sat(
                        final(cs).lc_table@,
                        final(cs).wit_vals(),
                        final(cs).inst_vals(),
                        final(cs).constraints@[old(cs).nc() as int + 1],
                    )
                }
            }),
            final(cs).is_complete() == (old(cs).is_complete() && self.witness is Some
                && other.witness is Some),
            (old(cs).spec_satisfied() && self.assigned(old(cs)) && other.assigned(old(cs)))
                ==> final(cs).spec_satisfied(),
    {
        let ind_value: Option<bool> = match (self.witness, other.witness) {
            (Option::Some(x), Option::Some(y)) => Option::Some(x.as_u64() != y.as_u64()),
            _ => Option::None,
        };
        proof {
            if let (Option::Some(x), Option::Some(y)) = (self.witness, other.witness) {
                if x@ == y@ {
                    crate::field::lemma_fp_view_injective(x, y);
                }
            }
        }
        let ind = AllocatedBool::new_witness_without_booleanity_check(cs, ind_value);
        let mult_value: Option<Fp> = match (self.witness, other.witness) {
            (Option::Some(x), Option::Some(y)) => {
                if x.as_u64() != y.as_u64() {
                    let d = x.sub_fp(&y);
                    let m = d.inv_fp();
                    proof {
                        lemma_fp_eq(m, f_inv(f_sub(x@, y@)));
                    }
                    Option::Some(m)
                } else {
                    Option::Some(Fp::one())
                }
            },
            _ => Option::None,
        };
        let ghost cs0 = *old(cs);
        let ghost cs1 = *cs;
        let mult = AllocatedFp::new_witness(cs, mult_value);
        let ghost cs2 = *cs;
        let one = Fp::one();
        let neg_one = one.neg_fp();
        let diff_terms = vec![(one, self.variable), (neg_one, other.variable)];
        let difference = cs.new_lc(diff_terms);
        let ghost cs3 = *cs;
        let a1 = LinComb { terms: vec![(one, difference)] };
        let b1 = LinComb { terms: vec![(one, mult.variable)] };
        let c1 = LinComb { terms: vec![(one, ind.variable)] };
        cs.enforce_constraint(a1, b1, c1);
        let ghost cs4 = *cs;
        let a2 = LinComb { terms: vec![(one, difference)] };
        let b2 = LinComb { terms: vec![(one, Variable::One), (neg_one, ind.variable)] };
        let c2 = LinComb { terms: Vec::new() };
        cs.enforce_constraint(a2, b2, c2);
        proof {
            crate::cs::lemma_extends_trans(&cs2, &cs1, &cs0);
            crate::cs::lemma_extends_trans(&cs3, &cs2, &cs0);
            crate::cs::lemma_extends_trans(&cs4, &cs3, &cs0);
            crate::cs::lemma_extends_trans(final(cs), &cs4, &cs0);
            let t2 = final(cs).lc_table@;
            let dvar = difference;
            let con1 = final(cs).constraints@[cs0.nc() as int];
            let con2 = final(cs).constraints@[cs0.nc() as int + 1];
            assert(con1.a@ == seq![(one, dvar)]);
            assert(con1.b@ == seq![(one, mult.variable)]);
            assert(con1.c@ == seq![(one, ind.variable)]);
            assert(con2.a@ == seq![(one, dvar)]);
            assert(con2.b@ == seq![(one, Variable::One), (neg_one, ind.variable)]);
            assert(con2.c@.len() == 0);
            assert(diff_terms@ =~= seq![(one, self.variable), (neg_one, other.variable)]);
            crate::fp_var::lemma_pair_lc_semantics(
                &cs2,
                &cs3,
                one,
                self.variable,
                neg_one,
                other.variable,
                dvar,
            );
            assert(t2 == cs3.lc_table@);
            assert forall|wit: Seq<nat>, inst: Seq<nat>|
                #[trigger] vval(t2, wit, inst, dvar) == f_sub(
                vval(t2, wit, inst, self.variable),
                vval(t2, wit, inst, other.variable),
            ) by {
                let va = var_val(t2, wit, inst, self.variable, t2.len() as nat);
                let vb = var_val(t2, wit, inst, other.variable, t2.len() as nat);
                assert(vval(t2, wit, inst, dvar) == fmod(1 * va + (neg_one@ as int) * vb));
                crate::fp_var::lemma_sub_semantics(va, vb);
                vstd::arithmetic::div_mod::lemma_mod_twice(va, MODULUS as int);
                vstd::arithmetic::div_mod::lemma_mod_twice(vb, MODULUS as int);
            };
            assert forall|wit: Seq<nat>, inst: Seq<nat>|
                #[trigger] constraint_sat(t2, wit, inst, con1) <==> f_mul(
                f_sub(
                    vval(t2, wit, inst, self.variable),
                    vval(t2, wit, inst, other.variable),
                ),
                vval(t2, wit, inst, mult.variable),
            ) == vval(t2, wit, inst, ind.variable) by {
                lemma_one_term_val(t2, wit, inst, one, dvar, t2.len() as nat);
                lemma_one_term_val(t2, wit, inst, one, mult.variable, t2.len() as nat);
                lemma_one_term_val(t2, wit, inst, one, ind.variable, t2.len() as nat);
                assert(vval(t2, wit, inst, dvar) == f_sub(
                    vval(t2, wit, inst, self.variable),
                    vval(t2, wit, inst, other.variable),
                ));
            };
            assert forall|wit: Seq<nat>, inst: Seq<nat>|
                #[trigger] constraint_sat(t2, wit, inst, con2) <==> f_mul(
                f_sub(
                    vval(t2, wit, inst, self.variable),
                    vval(t2, wit, inst, other.variable),
                ),
                f_sub(1, vval(t2, wit, inst, ind.variable)),
            ) == 0 by {
                lemma_one_term_val(t2, wit, inst, one, dvar, t2.len() as nat);
                assert(vval(t2, wit, inst, dvar) == f_sub(
                    vval(t2, wit, inst, self.variable),
                    vval(t2, wit, inst, other.variable),
                ));
                let iv = var_val(t2, wit, inst, ind.variable, t2.len() as nat);
                assert(terms_val(t2, wit, inst, con2.b@, t2.len() as nat) == 1 + (neg_one@ as int)
                    * iv) by {
                    assert(con2.b@.drop_last() =~= seq![(one, Variable::One)]);
                    lemma_one_term_val(t2, wit, inst, one, Variable::One, t2.len() as nat);
                };
                crate::boolean::lemma_mul_neg_one_flip(iv);
                lemma_small_mod(0, MODULUS as nat);
            };
            if self.witness is Some && other.witness is Some && self.tracks(&cs0)
                && other.tracks(&cs0) {
                let wa = self.witness.unwrap()@;
                let wb = other.witness.unwrap()@;
                crate::cs::lemma_val_extends(&cs0, final(cs), self.variable);
                crate::cs::lemma_val_extends(&cs0, final(cs), other.variable);
                crate::cs::lemma_val_extends(&cs1, final(cs), ind.variable);
                crate::cs::lemma_val_extends(&cs2, final(cs), mult.variable);
                lemma_neq_gadget_complete(wa, wb);
                if wa != wb {
                    lemma_f_sub_nonzero(wa, wb);
                    lemma_f_inv_property(f_sub(wa, wb));
                    lemma_fp_of(f_inv(f_sub(wa, wb)));
                    lemma_small_mod(f_inv(f_sub(wa, wb)), MODULUS as nat);
                }
                if cs0.spec_satisfied() {
                    let fw = final(cs).wit_vals();
                    let fi = final(cs).inst_vals();
                    assert forall|k: int|
                        cs0.nc() <= k < final(cs).nc() implies constraint_sat(
                        t2,
                        fw,
                        fi,
                        #[trigger] final(cs).constraints@[k],
                    ) by {
                        assert(k == cs0.nc() || k == cs0.nc() + 1);
                        if k == cs0.nc() {
                            assert(final(cs).constraints@[k] == con1);
                        } else {
                            assert(final(cs).constraints@[k] == con2);
                        }
                    };
                    crate::cs::lemma_spec_satisfied_extend(&cs0, final(cs));
                }
            }
        }
        Ok(Boolean::Is(ind))
    }

    /// Outputs the bit `self == other`: the negation of [`Self::is_neq`],
    /// at the same cost of two constraints.
    pub fn is_eq(&self, cs: &mut ConstraintSystem, other: &Self) -> (r: Result<
        Boolean,
        SynthesisError,
    >)
        requires
            old(cs).wf(),
            self.wf(old(cs)),
            other.wf(old(cs)),
        ensures
            final(cs).wf(),
            final(cs).extends(old(cs)),
            final(cs).nc() == old(cs).nc() + 2,
            final(cs).nl() == old(cs).nl() + 1,
            final(cs).nw() == old(cs).nw() + 2,
            final(cs).ni() == old(cs).ni(),
            final(cs).is_complete() == (old(cs).is_complete() && self.witness is Some
                && other.witness is Some),
            (old(cs).spec_satisfied() && self.assigned(old(cs)) && other.assigned(old(cs)))
                ==> final(cs).spec_satisfied(),
            r matches Ok(b) && {
                &&& b.wf(final(cs))
                &&& b.has_value() == (self.witness is Some && other.witness is Some)
                &&& (self.witness is Some && other.witness is Some) ==> b.spec_value() == (
                self.wit_nat() == other.wit_nat())
            },
    {
        let neq = self.is_neq(cs, other)?;
        proof {
            if let (Option::Some(x), Option::Some(y)) = (self.witness, other.witness) {
                if x@ == y@ {
                    crate::field::lemma_fp_view_injective(x, y);
                }
            }
        }
        Ok(neq.not())
    }

    /// Enforces `self == other` whenever the selector is true: one
    /// constraint `(self - other) * selector = 0`.
    pub fn conditional_enforce_equal(
        &self,
        cs: &mut ConstraintSystem,
        other: &Self,
        should_enforce: &Boolean,
    ) -> (r: Result<(), SynthesisError>)
        requires
            old(cs).wf(),
            self.wf(old(cs)),
            other.wf(old(cs)),
            should_enforce.wf(old(cs)),
        ensures
            final(cs).wf(),
            final(cs).extends(old(cs)),
            final(cs).nc() == old(cs).nc() + 1,
            final(cs).nl() == old(cs).nl(),
            final(cs).nw() == old(cs).nw(),
            final(cs).ni() == old(cs).ni(),
            final(cs).lc_table == old(cs).lc_table,
            final(cs).is_complete() == old(cs).is_complete(),
            r is Ok,
            forall|wit: Seq<nat>, inst: Seq<nat>|
                #[trigger] constraint_sat(
                    final(cs).lc_table@,
                    wit,
                    inst,
                    final(cs).constraints@.last(),
                ) <==> f_mul(
                    f_sub(
                        vval(final(cs).lc_table@, wit, inst, self.variable),
                        vval(final(cs).lc_table@, wit, inst, other.variable),
                    ),
                    should_enforce.field_val(final(cs).lc_table@, wit, inst),
                ) == 0,
            (old(cs).spec_satisfied() && self.assigned(old(cs)) && other.assigned(old(cs))
                && should_enforce.assigned(old(cs)) && (!should_enforce.spec_value()
                || self.wit_nat() == other.wit_nat())) ==> final(cs).spec_satisfied(),
    {
        let one = Fp::one();
        let neg_one = one.neg_fp();
        let a_lc = LinComb { terms: vec![(one, self.variable), (neg_one, other.variable)] };
        let b_lc = should_enforce.lc();
        let c_lc = LinComb { terms: Vec::new() };
        proof {
            should_enforce.lemma_lc_terms_wf(old(cs));
        }
        cs.enforce_constraint(a_lc, b_lc, c_lc);
        proof {
            let t2 = final(cs).lc_table@;
            let con = final(cs).constraints@.last();
            assert(con.a@ == seq![(one, self.variable), (neg_one, other.variable)]);
            assert(con.b@ == should_enforce.lc_terms());
            assert(con.c@.len() == 0);
            assert forall|wit: Seq<nat>, inst: Seq<nat>|
                #[trigger] constraint_sat(t2, wit, inst, con) <==> f_mul(
                f_sub(
                    vval(t2, wit, inst, self.variable),
                    vval(t2, wit, inst, other.variable),
                ),
                should_enforce.field_val(t2, wit, inst),
            ) == 0 by {
                crate::fp_var::lemma_diff_terms_val(
                    t2,
                    wit,
                    inst,
                    one,
                    neg_one,
                    self.variable,
                    other.variable,
                );
                should_enforce.lemma_lc_terms_val(t2, wit, inst);
                lemma_small_mod(0, MODULUS as nat);
            };
            if old(cs).spec_satisfied() && self.assigned(old(cs)) && other.assigned(old(cs))
                && should_enforce.assigned(old(cs)) && (!should_enforce.spec_value()
                || self.wit_nat() == other.wit_nat()) {
                let fw = final(cs).wit_vals();
                let fi = final(cs).inst_vals();
                crate::boolean::lemma_boolean_tracks_extend(*should_enforce, old(cs), final(cs));
                crate::cs::lemma_val_extends(old(cs), final(cs), self.variable);
                crate::cs::lemma_val_extends(old(cs), final(cs), other.variable);
                should_enforce.lemma_field_val_assigned(final(cs));
                let d = f_sub(self.wit_nat(), other.wit_nat());
                if !should_enforce.spec_value() {
                    lemma_f_mul_zero(d);
                } else {
                    assert(d == 0) by {
                        lemma_small_mod(0, MODULUS as nat);
                    };
                    lemma_f_mul_zero(crate::boolean::bool_to_nat(true));
                }
                assert(constraint_sat(t2, fw, fi, con));
                assert forall|k: int|
                    old(cs).nc() <= k < final(cs).nc() implies constraint_sat(
                    t2,
                    fw,
                    fi,
                    #[trigger] final(cs).constraints@[k],
                ) by {
                    assert(final(cs).constraints@[k] == con);
                };
                crate::cs::lemma_spec_satisfied_extend(old(cs), final(cs));
            }
        }
        Ok(())
    }

    /// Enforces `self != other` whenever the selector is true: one
    /// constraint `(self - other) * multiplier = selector` against a fresh
    /// multiplier witness, the inverse of the difference when the selector
    /// is true and zero otherwise.
    pub fn conditional_enforce_not_equal(
        &self,
        cs: &mut ConstraintSystem,
        other: &Self,
        should_enforce: &Boolean,
    ) -> (r: Result<(), SynthesisError>)
        requires
            old(cs).wf(),
            self.wf(old(cs)),
            other.wf(old(cs)),
            should_enforce.wf(old(cs)),
        ensures
            final(cs).wf(),
            final(cs).extends(old(cs)),
            final(cs).nc() == old(cs).nc() + 1,
            final(cs).nl() == old(cs).nl(),
            final(cs).nw() == old(cs).nw() + 1,
            final(cs).ni() == old(cs).ni(),
            (old(cs).is_complete() && should_enforce.has_value() && (self.witness is Some
                && other.witness is Some || !should_enforce.spec_value()))
                ==> final(cs).is_complete(),
            r is Ok,
            forall|wit: Seq<nat>, inst: Seq<nat>|
                #[trigger] constraint_sat(
                    final(cs).lc_table@,
                    wit,
                    inst,
                    final(cs).constraints@.last(),
                ) <==> f_mul(
                    f_sub(
                        vval(final(cs).lc_table@, wit, inst, self.variable),
                        vval(final(cs).lc_table@, wit, inst, other.variable),
                    ),
                    vval(
                        final(cs).lc_table@,
                        wit,
                        inst,
                        Variable::Witness(old(cs).nw() as usize),
                    ),
                ) == should_enforce.field_val(final(cs).lc_table@, wit, inst),
            (old(cs).spec_satisfied() && self.assigned(old(cs)) && other.assigned(old(cs))
                && should_enforce.assigned(old(cs)) && (!should_enforce.spec_value()
                || self.wit_nat() != other.wit_nat())) ==> final(cs).spec_satisfied(),
    {
        let mult_value: Option<Fp> = match should_enforce.value() {
            Ok(true) => match (self.witness, other.witness) {
                (Option::Some(x), Option::Some(y)) => {
                    let d = x.sub_fp(&y);
                    Option::Some(d.inv_fp())
                },
                _ => Option::None,
            },
            Ok(false) => Option::Some(Fp::zero()),
            Err(_) => Option::None,
        };
        let mult = AllocatedFp::new_witness(cs, mult_value);
        let ghost cs1 = *cs;
        let one = Fp::one();
        let neg_one = one.neg_fp();
        let a_lc = LinComb { terms: vec![(one, self.variable), (neg_one, other.variable)] };
        let b_lc = LinComb { terms: vec![(one, mult.variable)] };
        let c_lc = should_enforce.lc();
        proof {
            should_enforce.lemma_lc_terms_wf(&cs1);
        }
        cs.enforce_constraint(a_lc, b_lc, c_lc);
        proof {
            crate::cs::lemma_extends_trans(final(cs), &cs1, old(cs));
            let t2 = final(cs).lc_table@;
            let con = final(cs).constraints@.last();
            assert(con.a@ == seq![(one, self.variable), (neg_one, other.variable)]);
            assert(con.b@ == seq![(one, mult.variable)]);
            assert(con.c@ == should_enforce.lc_terms());
            assert forall|wit: Seq<nat>, inst: Seq<nat>|
                #[trigger] constraint_sat(t2, wit, inst, con) <==> f_mul(
                f_sub(
                    vval(t2, wit, inst, self.variable),
                    vval(t2, wit, inst, other.variable),
                ),
                vval(t2, wit, inst, mult.variable),
            ) == should_enforce.field_val(t2, wit, inst) by {
                crate::fp_var::lemma_diff_terms_val(
                    t2,
                    wit,
                    inst,
                    one,
                    neg_one,
                    self.variable,
                    other.variable,
                );
                lemma_one_term_val(t2, wit, inst, one, mult.variable, t2.len() as nat);
                should_enforce.lemma_lc_terms_val(t2, wit, inst);
            };
            if old(cs).spec_satisfied() && self.assigned(old(cs)) && other.assigned(old(cs))
                && should_enforce.assigned(old(cs)) && (!should_enforce.spec_value()
                || self.wit_nat() != other.wit_nat()) {
                let fw = final(cs).wit_vals();
                let fi = final(cs).inst_vals();
                crate::boolean::lemma_boolean_tracks_extend(*should_enforce, old(cs), final(cs));
                crate::cs::lemma_val_extends(old(cs), final(cs), self.variable);
                crate::cs::lemma_val_extends(old(cs), final(cs), other.variable);
                crate::cs::lemma_val_extends(&cs1, final(cs), mult.variable);
                should_enforce.lemma_field_val_assigned(final(cs));
                let wa = self.wit_nat();
                let wb = other.wit_nat();
                let d = f_sub(wa, wb);
                assert(mult.tracks(&cs1));
                if !should_enforce.spec_value() {
                    assert(mult.witness == Option::Some(fp_of(0))) by {
                        crate::field::lemma_fp_of(0);
                        crate::field::lemma_fp_view_injective(
                            mult.witness.unwrap(),
                            fp_of(0),
                        );
                    };
                    lemma_f_mul_zero(d);
                    assert(vval(t2, fw, fi, mult.variable) == 0) by {
                        crate::field::lemma_fp_of_small(0);
                    };
                } else {
                    lemma_f_sub_nonzero(wa, wb);
                    crate::field::lemma_f_ops_bounded(wa, wb);
                    lemma_f_inv_property(d);
                    assert(vval(t2, fw, fi, mult.variable) == f_inv(d)) by {
                        crate::field::lemma_f_ops_bounded(d, 0);
                        crate::field::lemma_fp_of_small(f_inv(d));
                    };
                }
                assert(constraint_sat(t2, fw, fi, con));
                assert forall|k: int|
                    old(cs).nc() <= k < final(cs).nc() implies constraint_sat(
                    t2,
                    fw,
                    fi,
                    #[trigger] final(cs).constraints@[k],
                ) by {
                    assert(final(cs).constraints@[k] == con);
                };
                crate::cs::lemma_spec_satisfied_extend(old(cs), final(cs));
            }
        }
        Ok(())
    }
}

} // verus!
