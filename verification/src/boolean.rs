//! The boolean primitive consumed by the field gadgets.
//!
//! A [`Boolean`] is either a compile-time constant, a variable, or the
//! negation of a variable.  Negation is free: it only flips the
//! linear-combination view.  The equality and selection gadgets read a
//! boolean through that view, so a boolean never costs a constraint by
//! itself; the booleanity constraint is paid once, at allocation.

use vstd::prelude::*;
use vstd::arithmetic::div_mod::lemma_small_mod;
use crate::cs::{
    constraint_sat, terms_val, terms_wf, var_val, var_wf, vval, ConstraintSystem, LinComb,
    Variable,
};
use crate::field::{f_mul, f_sub, fmod, fp_of, lemma_fp_of, Fp, MODULUS};
use crate::SynthesisError;

verus! {

/// The residue representing a boolean.
pub open spec fn bool_to_nat(b: bool) -> nat {
    if b {
        1
    } else {
        0
    }
}

/// The field element representing a boolean.
pub fn bool_to_fp(b: bool) -> (r: Fp)
    ensures
        r@ == bool_to_nat(b),
        r.valid(),
        r == fp_of(bool_to_nat(b)),
{
    proof {
        lemma_fp_of(bool_to_nat(b));
        lemma_small_mod(bool_to_nat(b), MODULUS as nat);
    }
    let r = if b {
        Fp::one()
    } else {
        Fp::zero()
    };
    proof {
        crate::field::lemma_fp_view_injective(r, fp_of(bool_to_nat(b)));
    }
    r
}

/// A boolean bound to one variable of the arena, with an optional witness.
#[derive(Clone, Copy, Debug)]
pub struct AllocatedBool {
    /// The concrete value, when running with witnesses.
    pub value: Option<bool>,
    /// The variable carrying the boolean as a field element.
    pub variable: Variable,
}

impl AllocatedBool {
    /// The handle is valid for the arena.
    pub open spec fn wf(&self, cs: &ConstraintSystem) -> bool {
        var_wf(self.variable, cs.ni(), cs.nw(), cs.nl())
    }

    /// The stored witness, read as a field residue.
    pub open spec fn wit_nat(&self) -> nat {
        match self.value {
            Option::Some(b) => bool_to_nat(b),
            Option::None => 0,
        }
    }

    /// The witness agrees with the variable's value under the stored
    /// assignment.
    pub open spec fn tracks(&self, cs: &ConstraintSystem) -> bool {
        self.value matches Option::Some(b) ==> cs.val(self.variable) == bool_to_nat(b)
    }

    /// Allocates a boolean witness variable without constraining it to be
    /// boolean-valued; the caller's constraints must pin it instead.
    pub fn new_witness_without_booleanity_check(
        cs: &mut ConstraintSystem,
        value: Option<bool>,
    ) -> (r: AllocatedBool)
        requires
            old(cs).wf(),
        ensures
            final(cs).wf(),
            final(cs).extends(old(cs)),
            final(cs).nw() == old(cs).nw() + 1,
            final(cs).ni() == old(cs).ni(),
            final(cs).lc_table == old(cs).lc_table,
            final(cs).constraints == old(cs).constraints,
            final(cs).is_complete() == (old(cs).is_complete() && value is Some),
            final(cs).spec_satisfied() == old(cs).spec_satisfied(),
            r.value == value,
            r.variable == Variable::Witness(old(cs).nw() as usize),
            r.wf(final(cs)),
            r.tracks(final(cs)),
            value is None ==> final(cs).val(r.variable) == 0,
    {
        let stored: Option<Fp> = match value {
            Option::Some(b) => Option::Some(bool_to_fp(b)),
            Option::None => Option::None,
        };
        let variable = cs.new_witness_variable(stored);
        proof {
            crate::cs::lemma_spec_satisfied_frame_eq(old(cs), final(cs));
            let i = old(cs).nw() as int;
            assert(final(cs).witness_assignment@[i] == stored);
            assert(final(cs).witness_assignment.len() == final(cs).nw());
            if let Option::Some(b) = value {
                assert(final(cs).wit_vals()[i] == bool_to_nat(b));
                assert(var_val(
                    final(cs).lc_table@,
                    final(cs).wit_vals(),
                    final(cs).inst_vals(),
                    variable,
                    final(cs).lc_table@.len() as nat,
                ) == bool_to_nat(b) as int);
                lemma_small_mod(bool_to_nat(b), MODULUS as nat);
            } else {
                assert(final(cs).wit_vals()[i] == 0);
                assert(var_val(
                    final(cs).lc_table@,
                    final(cs).wit_vals(),
                    final(cs).inst_vals(),
                    variable,
                    final(cs).lc_table@.len() as nat,
                ) == 0);
                lemma_small_mod(0, MODULUS as nat);
            }
        }
        AllocatedBool { value, variable }
    }

    /// Allocates a boolean witness variable and enforces booleanity with
    /// one constraint `v * (1 - v) = 0`.
    pub fn new_witness(cs: &mut ConstraintSystem, value: Option<bool>) -> (r: AllocatedBool)
        requires
            old(cs).wf(),
        ensures
            final(cs).wf(),
            final(cs).extends(old(cs)),
            final(cs).nw() == old(cs).nw() + 1,
            final(cs).ni() == old(cs).ni(),
            final(cs).lc_table == old(cs).lc_table,
            final(cs).nc() == old(cs).nc() + 1,
            final(cs).is_complete() == (old(cs).is_complete() && value is Some),
            old(cs).spec_satisfied() ==> final(cs).spec_satisfied(),
            r.value == value,
            r.variable == Variable::Witness(old(cs).nw() as usize),
            r.wf(final(cs)),
            r.tracks(final(cs)),
            forall|wit: Seq<nat>, inst: Seq<nat>|
                #[trigger] constraint_sat(
                    final(cs).lc_table@,
                    wit,
                    inst,
                    final(cs).constraints@.last(),
                ) <==> f_mul(
                    vval(final(cs).lc_table@, wit, inst, r.variable),
                    f_sub(1, vval(final(cs).lc_table@, wit, inst, r.variable)),
                ) == 0,
    {
        let r = Self::new_witness_without_booleanity_check(cs, value);
        let one = Fp::one();
        let neg_one = one.neg_fp();
        let a_lc = LinComb { terms: vec![(one, r.variable)] };
        let b_lc = LinComb { terms: vec![(one, Variable::One), (neg_one, r.variable)] };
        let c_lc = LinComb { terms: Vec::new() };
        let ghost mid = *cs;
        cs.enforce_constraint(a_lc, b_lc, c_lc);
        proof {
            let t = final(cs).lc_table@;
            let con = final(cs).constraints@.last();
            assert forall|wit: Seq<nat>, inst: Seq<nat>|
                #[trigger] constraint_sat(t, wit, inst, con) <==> f_mul(
                    vval(t, wit, inst, r.variable),
                    f_sub(1, vval(t, wit, inst, r.variable)),
                ) == 0 by {
                let xv = var_val(t, wit, inst, r.variable, t.len() as nat);
                assert(con.a@ == seq![(one, r.variable)]);
                assert(con.b@ == seq![(one, Variable::One), (neg_one, r.variable)]);
                assert(con.c@.len() == 0);
                lemma_lc_val_single(t, wit, inst, one, r.variable);
                assert(terms_val(t, wit, inst, con.b@, t.len() as nat) == 1 + (neg_one@ as int)
                    * xv) by {
                    assert(con.b@.drop_last() =~= seq![(one, Variable::One)]);
                    lemma_lc_val_single(t, wit, inst, one, Variable::One);
                };
                lemma_mul_neg_one_flip(xv);
                assert(fmod(1 + (neg_one@ as int) * xv) == f_sub(1, fmod(xv)));
            };
            assert(r.tracks(final(cs))) by {
                if r.value is Some {
                    crate::cs::lemma_val_extends(&mid, final(cs), r.variable);
                }
            };
            if old(cs).spec_satisfied() {
                let fw = final(cs).wit_vals();
                let fi = final(cs).inst_vals();
                crate::cs::lemma_val_extends(&mid, final(cs), r.variable);
                let bv = vval(t, fw, fi, r.variable);
                assert(bv == 0 || bv == 1);
                assert(f_mul(bv, f_sub(1, bv)) == 0) by {
                    lemma_small_mod(0, MODULUS as nat);
                    lemma_small_mod(1, MODULUS as nat);
                };
                assert forall|k: int|
                    old(cs).nc() <= k < final(cs).nc() implies constraint_sat(
                    t,
                    fw,
                    fi,
                    #[trigger] final(cs).constraints@[k],
                ) by {
                    assert(final(cs).constraints@[k] == con);
                };
                crate::cs::lemma_spec_satisfied_extend(old(cs), final(cs));
            }
        }
        r
    }
}

impl AllocatedBool {
    /// Allocates a boolean public-input variable with its booleanity
    /// constraint.
    pub fn new_input(cs: &mut ConstraintSystem, value: Option<bool>) -> (r: AllocatedBool)
        requires
            old(cs).wf(),
        ensures
            final(cs).wf(),
            final(cs).extends(old(cs)),
            final(cs).ni() == old(cs).ni() + 1,
            final(cs).nw() == old(cs).nw(),
            final(cs).lc_table == old(cs).lc_table,
            final(cs).nc() == old(cs).nc() + 1,
            final(cs).is_complete() == (old(cs).is_complete() && value is Some),
            old(cs).spec_satisfied() ==> final(cs).spec_satisfied(),
            r.value == value,
            r.wf(final(cs)),
            r.tracks(final(cs)),
    {
        let stored: Option<Fp> = match value {
            Option::Some(b) => Option::Some(bool_to_fp(b)),
            Option::None => Option::None,
        };
        let variable = cs.new_input_variable(stored);
        let r = AllocatedBool { value, variable };
        let ghost mid = *cs;
        proof {
            let i = old(cs).ni() as int;
            assert(mid.instance_assignment@[i] == stored);
            assert(mid.instance_assignment.len() == mid.ni());
            if let Option::Some(b) = value {
                assert(mid.inst_vals()[i] == bool_to_nat(b));
                assert(var_val(
                    mid.lc_table@,
                    mid.wit_vals(),
                    mid.inst_vals(),
                    variable,
                    mid.lc_table@.len() as nat,
                ) == bool_to_nat(b) as int);
                lemma_small_mod(bool_to_nat(b), MODULUS as nat);
                assert(r.tracks(&mid));
            } else {
                assert(mid.inst_vals()[i] == 0);
                assert(var_val(
                    mid.lc_table@,
                    mid.wit_vals(),
                    mid.inst_vals(),
                    variable,
                    mid.lc_table@.len() as nat,
                ) == 0);
                lemma_small_mod(0, MODULUS as nat);
            }
            assert(mid.val(r.variable) == r.wit_nat());
        }
        let one = Fp::one();
        let neg_one = one.neg_fp();
        let a_lc = LinComb { terms: vec![(one, r.variable)] };
        let b_lc = LinComb { terms: vec![(one, Variable::One), (neg_one, r.variable)] };
        let c_lc = LinComb { terms: Vec::new() };
        cs.enforce_constraint(a_lc, b_lc, c_lc);
        proof {
            assert(r.tracks(final(cs))) by {
                if r.value is Some {
                    crate::cs::lemma_val_extends(&mid, final(cs), r.variable);
                }
            };
            if old(cs).spec_satisfied() {
                let t = final(cs).lc_table@;
                let con = final(cs).constraints@.last();
                let fw = final(cs).wit_vals();
                let fi = final(cs).inst_vals();
                crate::cs::lemma_val_extends(&mid, final(cs), r.variable);
                let bv = vval(t, fw, fi, r.variable);
                assert(bv == 0 || bv == 1);
                assert(f_mul(bv, f_sub(1, bv)) == 0) by {
                    lemma_small_mod(0, MODULUS as nat);
                    lemma_small_mod(1, MODULUS as nat);
                };
                assert(constraint_sat(t, fw, fi, con)) by {
                    let xv = var_val(t, fw, fi, r.variable, t.len() as nat);
                    assert(con.a@ == seq![(one, r.variable)]);
                    assert(con.b@ == seq![(one, Variable::One), (neg_one, r.variable)]);
                    assert(con.c@.len() == 0);
                    lemma_lc_val_single(t, fw, fi, one, r.variable);
                    assert(terms_val(t, fw, fi, con.a@, t.len() as nat) == 1 * xv);
                    vstd::arithmetic::mul::lemma_mul_basics(xv);
                    assert(fmod(1 * xv) == bv);
                    assert(terms_val(t, fw, fi, con.b@, t.len() as nat) == 1 + (neg_one@ as int)
                        * xv) by {
                        assert(con.b@.drop_last() =~= seq![(one, Variable::One)]);
                        lemma_lc_val_single(t, fw, fi, one, Variable::One);
                    };
                    lemma_mul_neg_one_flip(xv);
                    assert(fmod(1 + (neg_one@ as int) * xv) == f_sub(1, bv));
                    assert(terms_val(t, fw, fi, con.c@, t.len() as nat) == 0);
                    lemma_small_mod(0, MODULUS as nat);
                };
                assert forall|k: int|
                    old(cs).nc() <= k < final(cs).nc() implies constraint_sat(
                    t,
                    fw,
                    fi,
                    #[trigger] final(cs).constraints@[k],
                ) by {
                    assert(final(cs).constraints@[k] == con);
                };
                crate::cs::lemma_spec_satisfied_extend(old(cs), final(cs));
            }
        }
        r
    }
}

/// A boolean allocated in the given mode: a free constant, or a base
/// variable with its booleanity constraint.
pub fn new_boolean_variable(
    cs: &mut ConstraintSystem,
    value: Option<bool>,
    mode: crate::field_element::AllocationMode,
) -> (r: Result<Boolean, SynthesisError>)
    requires
        old(cs).wf(),
    ensures
        final(cs).wf(),
        final(cs).extends(old(cs)),
        final(cs).nl() == old(cs).nl(),
        mode == crate::field_element::AllocationMode::Constant ==> *final(cs) == *old(cs) && (
        match value {
            Option::Some(b) => r == Ok::<Boolean, SynthesisError>(Boolean::Constant(b)),
            Option::None => r == Err::<Boolean, SynthesisError>(SynthesisError::MissingWitness),
        }),
        mode != crate::field_element::AllocationMode::Constant ==> final(cs).nc() == old(cs).nc()
            + 1 && final(cs).is_complete() == (old(cs).is_complete() && value is Some) && (
        r matches Ok(b) && {
            &&& b matches Boolean::Is(ab) && ab.value == value
            &&& b.wf(final(cs))
            &&& b.tracks(final(cs))
        }),
        old(cs).spec_satisfied() ==> final(cs).spec_satisfied(),
        mode == crate::field_element::AllocationMode::Witness ==> final(cs).nw() == old(cs).nw()
            + 1 && final(cs).ni() == old(cs).ni(),
        mode == crate::field_element::AllocationMode::Input ==> final(cs).ni() == old(cs).ni() + 1
            && final(cs).nw() == old(cs).nw(),
{
    match mode {
        crate::field_element::AllocationMode::Constant => match value {
            Option::Some(b) => Ok(Boolean::Constant(b)),
            Option::None => Err(SynthesisError::MissingWitness),
        },
        crate::field_element::AllocationMode::Input => Ok(
            Boolean::Is(AllocatedBool::new_input(cs, value)),
        ),
        crate::field_element::AllocationMode::Witness => Ok(
            Boolean::Is(AllocatedBool::new_witness(cs, value)),
        ),
    }
}

/// A boolean's tracking survives growing the arena.
pub proof fn lemma_boolean_tracks_extend(
    b: Boolean,
    cs1: &ConstraintSystem,
    cs2: &ConstraintSystem,
)
    requires
        b.tracks(cs1),
        b.wf(cs1),
        cs1.wf(),
        cs2.extends(cs1),
    ensures
        b.tracks(cs2),
{
    match b {
        Boolean::Constant(_) => {},
        Boolean::Is(ab) => {
            if ab.value is Some {
                crate::cs::lemma_val_extends(cs1, cs2, ab.variable);
            }
        },
        Boolean::Not(ab) => {
            if ab.value is Some {
                crate::cs::lemma_val_extends(cs1, cs2, ab.variable);
            }
        },
    }
}

/// The reduced value of a one-term combination.
pub proof fn lemma_lc_val_single(
    table: Seq<LinComb>,
    wit: Seq<nat>,
    inst: Seq<nat>,
    c: Fp,
    v: Variable,
)
    ensures
        terms_val(table, wit, inst, seq![(c, v)], table.len() as nat) == (c@ as int) * var_val(
            table,
            wit,
            inst,
            v,
            table.len() as nat,
        ),
{
    let s = seq![(c, v)];
    let b = table.len() as nat;
    assert(s.len() == 1);
    assert(terms_val(table, wit, inst, s, b) == terms_val(table, wit, inst, s.drop_last(), b) + (
    s.last().0@ as int) * var_val(table, wit, inst, s.last().1, b));
    assert(s.drop_last() =~= Seq::<(Fp, Variable)>::empty());
    assert(terms_val(table, wit, inst, Seq::<(Fp, Variable)>::empty(), b) == 0);
    assert(s.last() == (c, v));
}

/// Multiplying by the negation of one and adding one is field
/// subtraction from one.
pub proof fn lemma_mul_neg_one_flip(x: int)
    ensures
        fmod(1 + ((MODULUS - 1) as int) * x) == f_sub(1, fmod(x)),
{
    let p = MODULUS as int;
    assert(1 + (p - 1) * x == 1 - x + p * x) by (nonlinear_arith);
    vstd::arithmetic::div_mod::lemma_mod_multiples_vanish(x, 1 - x, p);
    vstd::arithmetic::div_mod::lemma_sub_mod_noop_right(1, x, p);
}

/// A symbolic boolean: a constant, a variable, or a negated variable.
#[derive(Clone, Copy, Debug)]
pub enum Boolean {
    /// A compile-time constant.
    Constant(bool),
    /// The value of an allocated boolean.
    Is(AllocatedBool),
    /// The negation of an allocated boolean.
    Not(AllocatedBool),
}

impl Boolean {
    /// The handle, if any, is valid for the arena.
    pub open spec fn wf(&self, cs: &ConstraintSystem) -> bool {
        match self {
            Boolean::Constant(_) => true,
            Boolean::Is(b) => b.wf(cs),
            Boolean::Not(b) => b.wf(cs),
        }
    }

    /// The boolean's concrete value is known.
    pub open spec fn has_value(&self) -> bool {
        match self {
            Boolean::Constant(_) => true,
            Boolean::Is(b) => b.value is Some,
            Boolean::Not(b) => b.value is Some,
        }
    }

    /// The boolean's concrete value.
    pub open spec fn spec_value(&self) -> bool {
        match self {
            Boolean::Constant(c) => *c,
            Boolean::Is(b) => b.value matches Option::Some(x) && x,
            Boolean::Not(b) => !(b.value matches Option::Some(x) && x),
        }
    }

    /// The witness agrees with the underlying variable.
    pub open spec fn tracks(&self, cs: &ConstraintSystem) -> bool {
        match self {
            Boolean::Constant(_) => true,
            Boolean::Is(b) => b.tracks(cs),
            Boolean::Not(b) => b.tracks(cs),
        }
    }

    /// The boolean carries a value that agrees with the stored assignment.
    pub open spec fn assigned(&self, cs: &ConstraintSystem) -> bool {
        self.has_value() && self.tracks(cs)
    }

    /// Under the stored assignment, an assigned boolean reads as the
    /// residue of its value.
    pub proof fn lemma_field_val_assigned(&self, cs: &ConstraintSystem)
        requires
            self.assigned(cs),
        ensures
            self.field_val(cs.lc_table@, cs.wit_vals(), cs.inst_vals()) == bool_to_nat(
                self.spec_value(),
            ),
    {
        match self {
            Boolean::Constant(_) => {},
            Boolean::Is(b) => {},
            Boolean::Not(b) => {
                lemma_small_mod(bool_to_nat(!(b.value matches Option::Some(x) && x)), MODULUS as nat);
            },
        }
    }

    /// The boolean read as a field residue, under an assignment.
    pub open spec fn field_val(
        &self,
        table: Seq<LinComb>,
        wit: Seq<nat>,
        inst: Seq<nat>,
    ) -> nat {
        match self {
            Boolean::Constant(c) => bool_to_nat(*c),
            Boolean::Is(b) => vval(table, wit, inst, b.variable),
            Boolean::Not(b) => f_sub(1, vval(table, wit, inst, b.variable)),
        }
    }

    /// Whether the boolean is a compile-time constant.
    pub fn is_constant(&self) -> (r: bool)
        ensures
            r == (self matches Boolean::Constant(_)),
    {
        match self {
            Boolean::Constant(_) => true,
            _ => false,
        }
    }

    /// Reads the concrete value.
    pub fn value(&self) -> (r: Result<bool, SynthesisError>)
        ensures
            self.has_value() ==> r == Ok::<bool, SynthesisError>(self.spec_value()),
            !self.has_value() ==> r == Err::<bool, SynthesisError>(SynthesisError::MissingWitness),
    {
        match self {
            Boolean::Constant(c) => Ok(*c),
            Boolean::Is(b) => match b.value {
                Option::Some(x) => Ok(x),
                Option::None => Err(SynthesisError::MissingWitness),
            },
            Boolean::Not(b) => match b.value {
                Option::Some(x) => Ok(!x),
                Option::None => Err(SynthesisError::MissingWitness),
            },
        }
    }

    /// Negation: free, it only flips the linear-combination view.
    pub fn not(&self) -> (r: Boolean)
        ensures
            r.has_value() == self.has_value(),
            r.has_value() ==> r.spec_value() == !self.spec_value(),
            forall|cs: &ConstraintSystem| #[trigger] r.wf(cs) <==> self.wf(cs),
            forall|cs: &ConstraintSystem| #[trigger] r.tracks(cs) <==> self.tracks(cs),
            forall|table: Seq<LinComb>, wit: Seq<nat>, inst: Seq<nat>|
                vval(table, wit, inst, Variable::One) == 1 ==> #[trigger] r.field_val(
                    table,
                    wit,
                    inst,
                ) == f_sub(1, self.field_val(table, wit, inst)),
    {
        let r = match self {
            Boolean::Constant(c) => Boolean::Constant(!*c),
            Boolean::Is(b) => Boolean::Not(*b),
            Boolean::Not(b) => Boolean::Is(*b),
        };
        proof {
            assert forall|table: Seq<LinComb>, wit: Seq<nat>, inst: Seq<nat>|
                vval(table, wit, inst, Variable::One) == 1 implies #[trigger] r.field_val(
                table,
                wit,
                inst,
            ) == f_sub(1, self.field_val(table, wit, inst)) by {
                match self {
                    Boolean::Constant(c) => {
                        assert(fmod(1 - bool_to_nat(*c)) == bool_to_nat(!*c)) by {
                            lemma_small_mod(bool_to_nat(!*c), MODULUS as nat);
                        };
                    },
                    Boolean::Is(b) => {},
                    Boolean::Not(b) => {
                        let x = vval(table, wit, inst, b.variable);
                        lemma_f_sub_involution(x);
                    },
                }
            };
        }
        r
    }

    /// The linear-combination view of the boolean.
    pub fn lc(&self) -> (r: LinComb)
        ensures
            r@ == self.lc_terms(),
    {
        let one = Fp::one();
        proof {
            lemma_fp_of(1);
            lemma_small_mod(1, MODULUS as nat);
            crate::field::lemma_fp_view_injective(one, fp_of(1));
        }
        match self {
            Boolean::Constant(c) => {
                if *c {
                    let r = LinComb { terms: vec![(one, Variable::One)] };
                    proof {
                        assert(r@ =~= self.lc_terms());
                    }
                    r
                } else {
                    let r = LinComb { terms: Vec::new() };
                    proof {
                        assert(r@ =~= self.lc_terms());
                    }
                    r
                }
            },
            Boolean::Is(b) => {
                let r = LinComb { terms: vec![(one, b.variable)] };
                proof {
                    assert(r@ =~= self.lc_terms());
                }
                r
            },
            Boolean::Not(b) => {
                let neg_one = one.neg_fp();
                proof {
                    lemma_fp_of((MODULUS - 1) as nat);
                    lemma_small_mod((MODULUS - 1) as nat, MODULUS as nat);
                    crate::field::lemma_fp_view_injective(neg_one, fp_of((MODULUS - 1) as nat));
                }
                let r = LinComb { terms: vec![(one, Variable::One), (neg_one, b.variable)] };
                proof {
                    assert(r@ =~= self.lc_terms());
                }
                r
            },
        }
    }

    /// The terms of the linear-combination view.
    pub open spec fn lc_terms(&self) -> Seq<(Fp, Variable)> {
        match self {
            Boolean::Constant(c) => if *c {
                seq![(fp_of(1), Variable::One)]
            } else {
                Seq::empty()
            },
            Boolean::Is(b) => seq![(fp_of(1), b.variable)],
            Boolean::Not(b) => seq![
                (fp_of(1), Variable::One),
                (fp_of((MODULUS - 1) as nat), b.variable),
            ],
        }
    }

    /// The linear-combination view evaluates to the boolean's field value.
    pub proof fn lemma_lc_terms_val(
        &self,
        table: Seq<LinComb>,
        wit: Seq<nat>,
        inst: Seq<nat>,
    )
        ensures
            fmod(terms_val(table, wit, inst, self.lc_terms(), table.len() as nat))
                == self.field_val(table, wit, inst),
    {
        lemma_fp_of(1);
        lemma_fp_of((MODULUS - 1) as nat);
        lemma_small_mod(1, MODULUS as nat);
        lemma_small_mod((MODULUS - 1) as nat, MODULUS as nat);
        match self {
            Boolean::Constant(c) => {
                if *c {
                    lemma_lc_val_single(table, wit, inst, fp_of(1), Variable::One);
                    lemma_small_mod(1, MODULUS as nat);
                } else {
                    lemma_small_mod(0, MODULUS as nat);
                }
            },
            Boolean::Is(b) => {
                lemma_lc_val_single(table, wit, inst, fp_of(1), b.variable);
                let xv = var_val(table, wit, inst, b.variable, table.len() as nat);
                vstd::arithmetic::div_mod::lemma_mod_twice(xv, MODULUS as int);
            },
            Boolean::Not(b) => {
                let s = self.lc_terms();
                let xv = var_val(table, wit, inst, b.variable, table.len() as nat);
                assert(s.drop_last() =~= seq![(fp_of(1), Variable::One)]);
                lemma_lc_val_single(table, wit, inst, fp_of(1), Variable::One);
                lemma_mul_neg_one_flip(xv);
                vstd::arithmetic::div_mod::lemma_mod_twice(xv, MODULUS as int);
            },
        }
    }

    /// The terms of the view are well-formed whenever the boolean is.
    pub proof fn lemma_lc_terms_wf(&self, cs: &ConstraintSystem)
        requires
            self.wf(cs),
        ensures
            terms_wf(self.lc_terms(), cs.ni(), cs.nw(), cs.nl()),
    {
        lemma_fp_of(1);
        lemma_fp_of((MODULUS - 1) as nat);
    }
}

/// Subtracting from one is an involution on residues.
pub proof fn lemma_f_sub_involution(x: nat)
    ensures
        f_sub(1, f_sub(1, x)) == fmod(x as int),
{
    let p = MODULUS as int;
    vstd::arithmetic::div_mod::lemma_sub_mod_noop_right(1, 1 - x, p);
    vstd::arithmetic::div_mod::lemma_mod_twice(x as int, p);
}

} // verus!
