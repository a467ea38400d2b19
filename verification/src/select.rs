//! Constant-cost multiplexers.
//!
//! Each selection gadget costs exactly one multiplication constraint
//! regardless of table size: the selection is encoded as a single
//! degree-two polynomial identity over the selector bits and the table
//! constants, which enter only as coefficients, never as extra variables.

use vstd::prelude::*;
use crate::boolean::Boolean;
use crate::cs::{terms_wf, var_wf, ConstraintSystem, LinComb, Variable};
use crate::field::{Fp, MODULUS};
use crate::field_element::FpVar;
use crate::fp_var::AllocatedFp;
use crate::SynthesisError;

verus! {

/// The table index two little-endian selector bits pick.
pub open spec fn two_bit_index(lsb: bool, msb: bool) -> int {
    (if lsb {
        1int
    } else {
        0int
    }) + 2 * (if msb {
        1int
    } else {
        0int
    })
}

/// The linear-combination view of a boolean, scaled by a constant.
fn scaled_bool_terms(cs: &ConstraintSystem, b: &Boolean, k: Fp) -> (r: Vec<(Fp, Variable)>)
    requires
        cs.wf(),
        b.wf(cs),
        k.valid(),
    ensures
        terms_wf(r@, cs.ni(), cs.nw(), cs.nl()),
{
    let lc = b.lc();
    proof {
        b.lemma_lc_terms_wf(cs);
    }
    let mut out: Vec<(Fp, Variable)> = Vec::new();
    let mut t: usize = 0;
    while t < lc.terms.len()
        invariant
            t <= lc.terms@.len(),
            k.valid(),
            terms_wf(lc.terms@, cs.ni(), cs.nw(), cs.nl()),
            terms_wf(out@, cs.ni(), cs.nw(), cs.nl()),
        decreases lc.terms@.len() - t,
    {
        let (c, v) = lc.terms[t];
        let ghost prev = out@;
        out.push((k.mul_fp(&c), v));
        proof {
            assert forall|j: int|
                0 <= j < out@.len() implies (#[trigger] out@[j]).0.valid() && var_wf(
                out@[j].1,
                cs.ni(),
                cs.nw(),
                cs.nl(),
            ) by {
                if j < prev.len() {
                    assert(out@[j] == prev[j]);
                } else {
                    assert(lc.terms@[t as int].0.valid() && var_wf(
                        lc.terms@[t as int].1,
                        cs.ni(),
                        cs.nw(),
                        cs.nl(),
                    ));
                }
            };
        }
        t += 1;
    }
    out
}

/// Appends well-formed terms to a well-formed accumulator.
fn append_terms(
    cs: &ConstraintSystem,
    acc: &mut Vec<(Fp, Variable)>,
    extra: Vec<(Fp, Variable)>,
)
    requires
        cs.wf(),
        terms_wf(old(acc)@, cs.ni(), cs.nw(), cs.nl()),
        terms_wf(extra@, cs.ni(), cs.nw(), cs.nl()),
    ensures
        terms_wf(final(acc)@, cs.ni(), cs.nw(), cs.nl()),
{
    let mut t: usize = 0;
    while t < extra.len()
        invariant
            t <= extra@.len(),
            terms_wf(extra@, cs.ni(), cs.nw(), cs.nl()),
            terms_wf(acc@, cs.ni(), cs.nw(), cs.nl()),
        decreases extra@.len() - t,
    {
        let (c, v) = extra[t];
        let ghost prev = acc@;
        acc.push((c, v));
        proof {
            assert forall|j: int|
                0 <= j < acc@.len() implies (#[trigger] acc@[j]).0.valid() && var_wf(
                acc@[j].1,
                cs.ni(),
                cs.nw(),
                cs.nl(),
            ) by {
                if j < prev.len() {
                    assert(acc@[j] == prev[j]);
                } else {
                    assert(extra@[t as int].0.valid() && var_wf(
                        extra@[t as int].1,
                        cs.ni(),
                        cs.nw(),
                        cs.nl(),
                    ));
                }
            };
        }
        t += 1;
    }
}

impl AllocatedFp {
    /// Selects between two allocated values by a boolean: one fresh
    /// witness and one constraint `cond * (t - f) = r - f`; free when the
    /// selector is a compile-time constant.
    pub fn conditionally_select(
        cs: &mut ConstraintSystem,
        cond: &Boolean,
        true_val: &Self,
        false_val: &Self,
    ) -> (r: Result<Self, SynthesisError>)
        requires
            old(cs).wf(),
            cond.wf(old(cs)),
            true_val.wf(old(cs)),
            false_val.wf(old(cs)),
        ensures
            final(cs).wf(),
            final(cs).extends(old(cs)),
            final(cs).ni() == old(cs).ni(),
            final(cs).nl() == old(cs).nl(),
            cond matches Boolean::Constant(b) ==> *final(cs) == *old(cs) && r == Ok::<
                Self,
                SynthesisError,
            >(if *b {
                *true_val
            } else {
                *false_val
            }),
            !(cond matches Boolean::Constant(_)) ==> final(cs).nc() == old(cs).nc() + 1
                && final(cs).nw() == old(cs).nw() + 1 && (r matches Ok(sel) && {
                &&& sel.wf(final(cs))
                &&& sel.tracks(final(cs))
                &&& sel.witness == (if cond.has_value() {
                    if cond.spec_value() {
                        true_val.witness
                    } else {
                        false_val.witness
                    }
                } else {
                    Option::None::<Fp>
                })
            }),
    {
        match cond {
            Boolean::Constant(b) => {
                if *b {
                    Ok(*true_val)
                } else {
                    Ok(*false_val)
                }
            },
            _ => {
                let value: Option<Fp> = match cond.value() {
                    Ok(c) => if c {
                        true_val.witness
                    } else {
                        false_val.witness
                    },
                    Err(_) => Option::None,
                };
                proof {
                    if let Option::Some(w) = value {
                        if cond.spec_value() {
                            assert(true_val.wf(old(cs)));
                        } else {
                            assert(false_val.wf(old(cs)));
                        }
                    }
                }
                let result = Self::new_witness(cs, value);
                let ghost mid = *cs;
                let one = Fp::one();
                let neg_one = one.neg_fp();
                let a_lc = cond.lc();
                proof {
                    cond.lemma_lc_terms_wf(&mid);
                }
                let b_lc = LinComb {
                    terms: vec![(one, true_val.variable), (neg_one, false_val.variable)],
                };
                let c_lc = LinComb {
                    terms: vec![(one, result.variable), (neg_one, false_val.variable)],
                };
                cs.enforce_constraint(a_lc, b_lc, c_lc);
                proof {
                    if result.witness is Some {
                        crate::cs::lemma_val_extends(&mid, final(cs), result.variable);
                    }
                }
                Ok(result)
            },
        }
    }

    /// Looks a two-bit selector up in a four-entry constant table: one
    /// fresh witness and exactly one constraint, whatever the table.
    pub fn two_bit_lookup(cs: &mut ConstraintSystem, b: &[Boolean], c: &[Fp]) -> (r: Result<
        Self,
        SynthesisError,
    >)
        requires
            old(cs).wf(),
            b@.len() == 2,
            c@.len() == 4,
            forall|k: int| 0 <= k < b@.len() ==> (#[trigger] b@[k]).wf(old(cs)),
            forall|k: int| 0 <= k < c@.len() ==> (#[trigger] c@[k]).valid(),
        ensures
            final(cs).wf(),
            final(cs).extends(old(cs)),
            final(cs).ni() == old(cs).ni(),
            final(cs).nl() == old(cs).nl(),
            final(cs).nc() == old(cs).nc() + 1,
            final(cs).nw() == old(cs).nw() + 1,
            r matches Ok(sel) && {
                &&& sel.wf(final(cs))
                &&& sel.tracks(final(cs))
                &&& sel.witness == (if b@[0].has_value() && b@[1].has_value() {
                    Option::Some(c@[two_bit_index(b@[0].spec_value(), b@[1].spec_value())])
                } else {
                    Option::None::<Fp>
                })
            },
    {
        let value: Option<Fp> = match (b[0].value(), b[1].value()) {
            (Ok(lsb), Ok(msb)) => {
                let index: usize = (if lsb {
                    1
                } else {
                    0
                }) + (if msb {
                    2
                } else {
                    0
                });
                Option::Some(c[index])
            },
            _ => Option::None,
        };
        proof {
            if value is Some {
                let idx = two_bit_index(b@[0].spec_value(), b@[1].spec_value());
                assert(c@[idx].valid());
            }
        }
        let result = Self::new_witness(cs, value);
        let ghost mid = *cs;
        let one = Fp::one();
        // A = b1 * (c3 - c2 - c1 + c0) + (c1 - c0)
        let k_a = c[3].sub_fp(&c[2]).sub_fp(&c[1]).add_fp(&c[0]);
        let mut a_terms = scaled_bool_terms(cs, &b[1], k_a);
        proof {
            assert(b@[1].wf(&mid));
        }
        let d10 = c[1].sub_fp(&c[0]);
        let extra_a = vec![(d10, Variable::One)];
        proof {
            assert(terms_wf(extra_a@, mid.ni(), mid.nw(), mid.nl())) by {
                assert(extra_a@[0] == (d10, Variable::One));
            };
        }
        append_terms(cs, &mut a_terms, extra_a);
        // B = b0
        let b_lc = b[0].lc();
        proof {
            assert(b@[0].wf(&mid));
            b[0].lemma_lc_terms_wf(&mid);
        }
        // C = result - c0 + b1 * (c0 - c2)
        let neg_c0 = c[0].neg_fp();
        let mut c_terms = vec![(one, result.variable), (neg_c0, Variable::One)];
        proof {
            assert(terms_wf(c_terms@, mid.ni(), mid.nw(), mid.nl())) by {
                assert(c_terms@[0] == (one, result.variable));
                assert(c_terms@[1] == (neg_c0, Variable::One));
            };
        }
        let extra_c = scaled_bool_terms(cs, &b[1], c[0].sub_fp(&c[2]));
        append_terms(cs, &mut c_terms, extra_c);
        cs.enforce_constraint(LinComb { terms: a_terms }, b_lc, LinComb { terms: c_terms });
        proof {
            if result.witness is Some {
                crate::cs::lemma_val_extends(&mid, final(cs), result.variable);
            }
        }
        Ok(result)
    }

    /// Looks two selector bits up in a four-entry table and conditionally
    /// negates the result by a third bit: one fresh witness and exactly
    /// one constraint, using the precomputed product bit `b0b1`.
    pub fn three_bit_cond_neg_lookup(
        cs: &mut ConstraintSystem,
        b: &[Boolean],
        b0b1: &Boolean,
        c: &[Fp],
    ) -> (r: Result<Self, SynthesisError>)
        requires
            old(cs).wf(),
            b@.len() == 3,
            c@.len() == 4,
            forall|k: int| 0 <= k < b@.len() ==> (#[trigger] b@[k]).wf(old(cs)),
            b0b1.wf(old(cs)),
            forall|k: int| 0 <= k < c@.len() ==> (#[trigger] c@[k]).valid(),
        ensures
            final(cs).wf(),
            final(cs).extends(old(cs)),
            final(cs).ni() == old(cs).ni(),
            final(cs).nl() == old(cs).nl(),
            final(cs).nc() == old(cs).nc() + 1,
            final(cs).nw() == old(cs).nw() + 1,
            r matches Ok(sel) && {
                &&& sel.wf(final(cs))
                &&& sel.tracks(final(cs))
                &&& sel.witness == (if b@[0].has_value() && b@[1].has_value()
                    && b@[2].has_value() {
                    Option::Some(
                        if b@[2].spec_value() {
                            crate::field::fp_of(
                                crate::field::f_neg(
                                    c@[two_bit_index(
                                        b@[0].spec_value(),
                                        b@[1].spec_value(),
                                    )]@,
                                ),
                            )
                        } else {
                            c@[two_bit_index(b@[0].spec_value(), b@[1].spec_value())]
                        },
                    )
                } else {
                    Option::None::<Fp>
                })
            },
    {
        let value: Option<Fp> = match (b[0].value(), b[1].value(), b[2].value()) {
            (Ok(lsb), Ok(msb), Ok(neg)) => {
                let index: usize = (if lsb {
                    1
                } else {
                    0
                }) + (if msb {
                    2
                } else {
                    0
                });
                let intermediate = c[index];
                proof {
                    assert(c@[index as int].valid());
                }
                if neg {
                    let y = intermediate.neg_fp();
                    proof {
                        crate::fp_var::lemma_fp_eq(y, crate::field::f_neg(intermediate@));
                    }
                    Option::Some(y)
                } else {
                    Option::Some(intermediate)
                }
            },
            _ => Option::None,
        };
        proof {
            if value is Some && !b@[2].spec_value() {
                let idx = two_bit_index(b@[0].spec_value(), b@[1].spec_value());
                assert(c@[idx].valid());
            }
        }
        let result = Self::new_witness(cs, value);
        let ghost mid = *cs;
        let one = Fp::one();
        // A = b0b1 * (c3 - c2 - c1 + c0) + b0 * (c1 - c0) + b1 * (c2 - c0) + c0
        let k_ab = c[3].sub_fp(&c[2]).sub_fp(&c[1]).add_fp(&c[0]);
        proof {
            assert(b0b1.wf(&mid));
            assert(b@[0].wf(&mid));
            assert(b@[1].wf(&mid));
            assert(b@[2].wf(&mid));
        }
        let mut a_terms = scaled_bool_terms(cs, b0b1, k_ab);
        let part_b0 = scaled_bool_terms(cs, &b[0], c[1].sub_fp(&c[0]));
        append_terms(cs, &mut a_terms, part_b0);
        let part_b1 = scaled_bool_terms(cs, &b[1], c[2].sub_fp(&c[0]));
        append_terms(cs, &mut a_terms, part_b1);
        let c0 = c[0];
        let extra_a = vec![(c0, Variable::One)];
        proof {
            assert(terms_wf(extra_a@, mid.ni(), mid.nw(), mid.nl())) by {
                assert(extra_a@[0] == (c0, Variable::One));
                assert(c@[0].valid());
            };
        }
        append_terms(cs, &mut a_terms, extra_a);
        // B = 1 - 2 * b2
        let two = Fp::new(2);
        let neg_two = two.neg_fp();
        let mut b_terms = scaled_bool_terms(cs, &b[2], neg_two);
        let extra_b = vec![(one, Variable::One)];
        proof {
            assert(terms_wf(extra_b@, mid.ni(), mid.nw(), mid.nl())) by {
                assert(extra_b@[0] == (one, Variable::One));
            };
        }
        append_terms(cs, &mut b_terms, extra_b);
        // C = result
        let c_lc = LinComb { terms: vec![(one, result.variable)] };
        proof {
            assert(terms_wf(c_lc@, mid.ni(), mid.nw(), mid.nl())) by {
                assert(c_lc@[0] == (one, result.variable));
            };
        }
        cs.enforce_constraint(LinComb { terms: a_terms }, LinComb { terms: b_terms }, c_lc);
        proof {
            if result.witness is Some {
                crate::cs::lemma_val_extends(&mid, final(cs), result.variable);
            }
        }
        Ok(result)
    }
}

/// The linear mix `cond * t + (1 - cond) * f` reads out the selected
/// constant.
proof fn lemma_select_mix(t: nat, f: nat, b: bool)
    requires
        t < MODULUS as nat,
        f < MODULUS as nat,
    ensures
        crate::field::f_add(
            crate::field::f_mul(crate::boolean::bool_to_nat(b), t),
            crate::field::f_mul(crate::boolean::bool_to_nat(!b), f),
        ) == (if b {
            t
        } else {
            f
        }),
{
    vstd::arithmetic::div_mod::lemma_small_mod(t, MODULUS as nat);
    vstd::arithmetic::div_mod::lemma_small_mod(f, MODULUS as nat);
    vstd::arithmetic::div_mod::lemma_small_mod(0, MODULUS as nat);
    if b {
        assert(crate::field::f_mul(1, t) == t);
        assert(crate::field::f_mul(0, f) == 0);
        crate::field::lemma_f_add_zero(t);
    } else {
        assert(crate::field::f_mul(0, t) == 0);
        assert(crate::field::f_mul(1, f) == f);
        crate::field::lemma_f_add_zero(f);
    }
}

impl FpVar {
    /// Selects between two elements by a boolean: free when the selector
    /// is constant, one constraint otherwise.
    pub fn conditionally_select(
        cs: &mut ConstraintSystem,
        cond: &Boolean,
        true_value: &FpVar,
        false_value: &FpVar,
    ) -> (r: Result<FpVar, SynthesisError>)
        requires
            old(cs).wf(),
            cond.wf(old(cs)),
            true_value.wf(old(cs)),
            false_value.wf(old(cs)),
        ensures
            final(cs).wf(),
            final(cs).extends(old(cs)),
            final(cs).ni() == old(cs).ni(),
            cond matches Boolean::Constant(b) ==> *final(cs) == *old(cs) && r == Ok::<
                FpVar,
                SynthesisError,
            >(if *b {
                *true_value
            } else {
                *false_value
            }),
            r matches Ok(sel) && {
                &&& sel.wf(final(cs))
                &&& (cond.has_value() && true_value.has_value() && false_value.has_value())
                    ==> sel.has_value() && sel.value_nat() == (if cond.spec_value() {
                    true_value.value_nat()
                } else {
                    false_value.value_nat()
                })
            },
    {
        match cond {
            Boolean::Constant(b) => {
                if *b {
                    Ok(*true_value)
                } else {
                    Ok(*false_value)
                }
            },
            _ => {
                match (true_value, false_value) {
                    (FpVar::Constant(t), FpVar::Constant(f)) => {
                        // cond * t + (1 - cond) * f, built from two free
                        // combinations and a free linear mix.
                        let is = AllocatedFp::from(cs, *cond);
                        let ghost cs1 = *cs;
                        let not = AllocatedFp::from(cs, cond.not());
                        let ghost cs2 = *cs;
                        proof {
                            crate::cs::lemma_extends_trans(&cs2, &cs1, old(cs));
                            assert(is.wf(&cs2)) by {
                                assert(is.wf(&cs1));
                            };
                        }
                        let is_t = is.mul_constant(cs, *t);
                        let ghost cs3 = *cs;
                        proof {
                            crate::cs::lemma_extends_trans(&cs3, &cs2, old(cs));
                            assert(not.wf(&cs3)) by {
                                assert(not.wf(&cs2));
                            };
                        }
                        let not_f = not.mul_constant(cs, *f);
                        let ghost cs4 = *cs;
                        proof {
                            crate::cs::lemma_extends_trans(&cs4, &cs3, old(cs));
                            assert(is_t.wf(&cs4)) by {
                                assert(is_t.wf(&cs3));
                            };
                        }
                        let mixed = is_t.add(cs, &not_f);
                        proof {
                            crate::cs::lemma_extends_trans(final(cs), &cs4, old(cs));
                            if cond.has_value() {
                                let b = crate::boolean::bool_to_nat(cond.spec_value());
                                let nb = crate::boolean::bool_to_nat(!cond.spec_value());
                                crate::field::lemma_fp_of_small(t@);
                                crate::field::lemma_fp_of_small(f@);
                                crate::field::lemma_f_ops_bounded(b, t@);
                                crate::field::lemma_f_ops_bounded(nb, f@);
                                crate::field::lemma_fp_of_small(crate::field::f_mul(b, t@));
                                crate::field::lemma_fp_of_small(crate::field::f_mul(nb, f@));
                                crate::fp_var::lemma_f_mul_comm(t@, b);
                                crate::fp_var::lemma_f_mul_comm(f@, nb);
                                lemma_select_mix(t@, f@, cond.spec_value());
                                crate::field::lemma_f_ops_bounded(
                                    crate::field::f_mul(b, t@),
                                    crate::field::f_mul(nb, f@),
                                );
                                crate::field::lemma_fp_of_small(
                                    crate::field::f_add(
                                        crate::field::f_mul(b, t@),
                                        crate::field::f_mul(nb, f@),
                                    ),
                                );
                            }
                        }
                        Ok(FpVar::Var(mixed))
                    },
                    _ => {
                        let tv: AllocatedFp = match true_value {
                            FpVar::Constant(f) => AllocatedFp::new_constant(cs, *f),
                            FpVar::Var(v) => *v,
                        };
                        let ghost cs1 = *cs;
                        proof {
                            crate::cs::lemma_extends_trans(&cs1, &cs1, old(cs));
                        }
                        let fv: AllocatedFp = match false_value {
                            FpVar::Constant(f) => AllocatedFp::new_constant(cs, *f),
                            FpVar::Var(v) => *v,
                        };
                        let ghost cs2 = *cs;
                        proof {
                            crate::cs::lemma_extends_trans(&cs2, &cs1, old(cs));
                            assert(tv.wf(&cs2)) by {
                                assert(tv.wf(&cs1));
                            };
                            assert(cond.wf(&cs2));
                        }
                        let sel = AllocatedFp::conditionally_select(cs, cond, &tv, &fv)?;
                        proof {
                            crate::cs::lemma_extends_trans(final(cs), &cs2, old(cs));
                        }
                        Ok(FpVar::Var(sel))
                    },
                }
            },
        }
    }

    /// Looks a two-bit selector up in a four-entry constant table: free
    /// for constant selectors, one constraint otherwise.
    pub fn two_bit_lookup(cs: &mut ConstraintSystem, b: &[Boolean], c: &[Fp]) -> (r: Result<
        FpVar,
        SynthesisError,
    >)
        requires
            old(cs).wf(),
            b@.len() == 2,
            c@.len() == 4,
            forall|k: int| 0 <= k < b@.len() ==> (#[trigger] b@[k]).wf(old(cs)),
            forall|k: int| 0 <= k < c@.len() ==> (#[trigger] c@[k]).valid(),
        ensures
            final(cs).wf(),
            final(cs).extends(old(cs)),
            final(cs).ni() == old(cs).ni(),
            (b@[0] matches Boolean::Constant(_) && b@[1] matches Boolean::Constant(_))
                ==> *final(cs) == *old(cs),
            r matches Ok(sel) && {
                &&& sel.wf(final(cs))
                &&& (b@[0].has_value() && b@[1].has_value()) ==> sel.has_value()
                    && sel.value_nat() == c@[two_bit_index(
                    b@[0].spec_value(),
                    b@[1].spec_value(),
                )]@
            },
    {
        let const0 = b[0].is_constant();
        let const1 = b[1].is_constant();
        if const0 && const1 {
            let lsb = match b[0].value() {
                Ok(v) => v,
                Err(e) => {
                    proof {
                        assert(false);
                    }
                    return Err(e);
                },
            };
            let msb = match b[1].value() {
                Ok(v) => v,
                Err(e) => {
                    proof {
                        assert(false);
                    }
                    return Err(e);
                },
            };
            let index: usize = (if lsb {
                1
            } else {
                0
            }) + (if msb {
                2
            } else {
                0
            });
            proof {
                assert(c@[index as int].valid());
            }
            Ok(FpVar::Constant(c[index]))
        } else {
            let sel = AllocatedFp::two_bit_lookup(cs, b, c)?;
            Ok(FpVar::Var(sel))
        }
    }

    /// Looks two selector bits up in a table and conditionally negates by
    /// a third: free for constant selectors, one constraint otherwise.
    pub fn three_bit_cond_neg_lookup(
        cs: &mut ConstraintSystem,
        b: &[Boolean],
        b0b1: &Boolean,
        c: &[Fp],
    ) -> (r: Result<FpVar, SynthesisError>)
        requires
            old(cs).wf(),
            b@.len() == 3,
            c@.len() == 4,
            forall|k: int| 0 <= k < b@.len() ==> (#[trigger] b@[k]).wf(old(cs)),
            b0b1.wf(old(cs)),
            forall|k: int| 0 <= k < c@.len() ==> (#[trigger] c@[k]).valid(),
        ensures
            final(cs).wf(),
            final(cs).extends(old(cs)),
            final(cs).ni() == old(cs).ni(),
            r matches Ok(sel) && {
                &&& sel.wf(final(cs))
                &&& (b@[0].has_value() && b@[1].has_value() && b@[2].has_value())
                    ==> sel.has_value() && sel.value_nat() == (if b@[2].spec_value() {
                    crate::field::f_neg(
                        c@[two_bit_index(b@[0].spec_value(), b@[1].spec_value())]@,
                    )
                } else {
                    c@[two_bit_index(b@[0].spec_value(), b@[1].spec_value())]@
                })
            },
    {
        let all_const = b[0].is_constant() && b[1].is_constant() && b[2].is_constant()
            && b0b1.is_constant();
        if all_const {
            let lsb = match b[0].value() {
                Ok(v) => v,
                Err(e) => {
                    proof {
                        assert(false);
                    }
                    return Err(e);
                },
            };
            let msb = match b[1].value() {
                Ok(v) => v,
                Err(e) => {
                    proof {
                        assert(false);
                    }
                    return Err(e);
                },
            };
            let neg = match b[2].value() {
                Ok(v) => v,
                Err(e) => {
                    proof {
                        assert(false);
                    }
                    return Err(e);
                },
            };
            let index: usize = (if lsb {
                1
            } else {
                0
            }) + (if msb {
                2
            } else {
                0
            });
            proof {
                assert(c@[index as int].valid());
            }
            let intermediate = c[index];
            if neg {
                Ok(FpVar::Constant(intermediate.neg_fp()))
            } else {
                Ok(FpVar::Constant(intermediate))
            }
        } else {
            let sel = AllocatedFp::three_bit_cond_neg_lookup(cs, b, b0b1, c)?;
            proof {
                if b@[0].has_value() && b@[1].has_value() && b@[2].has_value() {
                    let idx = two_bit_index(b@[0].spec_value(), b@[1].spec_value());
                    assert(c@[idx].valid());
                    crate::field::lemma_f_ops_bounded(c@[idx]@, 0);
                    crate::field::lemma_fp_of_small(crate::field::f_neg(c@[idx]@));
                }
            }
            Ok(FpVar::Var(sel))
        }
    }
}

} // verus!
