//! The constraint-system arena.
//!
//! One [`ConstraintSystem`] owns the variable tables, the registered linear
//! combinations and the enforced rank-one constraints of a circuit under
//! construction.  Variables are lightweight indices into the arena; a
//! "constant" field element never touches it.
//!
//! The meaning of a variable is given by the spec-level evaluator
//! [`var_val`]/[`terms_val`], which maps a variable and an assignment of the
//! base (instance and witness) variables to an integer; a registered linear
//! combination evaluates to the weighted sum of its terms.  All gadget
//! contracts are stated against this evaluator, reduced modulo the field
//! characteristic through [`vval`].

use vstd::prelude::*;
use vstd::arithmetic::div_mod::{
    lemma_add_mod_noop, lemma_add_mod_noop_right, lemma_mod_twice, lemma_mul_mod_noop_left,
    lemma_mul_mod_noop_right, lemma_small_mod,
};
use crate::field::{f_mul, fmod, Fp};
use crate::SynthesisError;

verus! {

/// A handle to one variable of the arena.
///
/// `One` is the fixed variable carrying the multiplicative identity;
/// `Instance` and `Witness` index the public-input and witness tables;
/// `SymLc` names a registered linear combination.
#[derive(Clone, Copy, Debug, PartialEq, Eq, Structural)]
pub enum Variable {
    /// The constant-one variable.
    One,
    /// A public-input variable.
    Instance(usize),
    /// A witness variable.
    Witness(usize),
    /// A registered linear combination.
    SymLc(usize),
}

/// A sparse linear combination: a list of (coefficient, variable) terms.
#[derive(Clone, Debug)]
pub struct LinComb {
    /// The terms of the combination.
    pub terms: Vec<(Fp, Variable)>,
}

impl View for LinComb {
    type V = Seq<(Fp, Variable)>;

    open spec fn view(&self) -> Seq<(Fp, Variable)> {
        self.terms@
    }
}

/// An enforced rank-one relation `a * b = c` over three linear combinations.
#[derive(Clone, Debug)]
pub struct Constraint {
    /// The left factor.
    pub a: LinComb,
    /// The right factor.
    pub b: LinComb,
    /// The product.
    pub c: LinComb,
}

/// The arena owning every variable, combination and constraint of one
/// circuit-construction session.
pub struct ConstraintSystem {
    /// The values assigned to public-input variables, when known.
    pub instance_assignment: Vec<Option<Fp>>,
    /// The values assigned to witness variables, when known.
    pub witness_assignment: Vec<Option<Fp>>,
    /// The registered linear combinations, append-only.
    pub lc_table: Vec<LinComb>,
    /// The enforced rank-one constraints, append-only.
    pub constraints: Vec<Constraint>,
}

/// The variable's indices lie inside the given table sizes.
pub open spec fn var_wf(v: Variable, ni: nat, nw: nat, nl: nat) -> bool {
    match v {
        Variable::One => true,
        Variable::Instance(i) => (i as nat) < ni,
        Variable::Witness(i) => (i as nat) < nw,
        Variable::SymLc(i) => (i as nat) < nl,
    }
}

/// Every term has a reduced coefficient and a variable inside the tables.
pub open spec fn terms_wf(ts: Seq<(Fp, Variable)>, ni: nat, nw: nat, nl: nat) -> bool {
    forall|k: int|
        0 <= k < ts.len() ==> (#[trigger] ts[k]).0.valid() && var_wf(ts[k].1, ni, nw, nl)
}

/// Each registered combination refers only to combinations registered
/// before it, so evaluation is well-founded.
pub open spec fn lcs_wf(table: Seq<LinComb>, ni: nat, nw: nat) -> bool {
    forall|i: int| 0 <= i < table.len() ==> terms_wf((#[trigger] table[i])@, ni, nw, i as nat)
}

/// The value of a variable under an assignment of the base variables.
///
/// `bound` limits which registered combinations may be consulted; it makes
/// the mutual recursion with [`terms_val`] well-founded.
pub open spec fn var_val(
    table: Seq<LinComb>,
    wit: Seq<nat>,
    inst: Seq<nat>,
    v: Variable,
    bound: nat,
) -> int
    decreases bound, 0nat,
{
    match v {
        Variable::One => 1,
        Variable::Instance(i) => inst[i as int] as int,
        Variable::Witness(i) => wit[i as int] as int,
        Variable::SymLc(i) => if (i as nat) < bound {
            terms_val(table, wit, inst, table[i as int]@, i as nat)
        } else {
            0
        },
    }
}

/// The raw (unreduced) weighted sum of a term list under an assignment.
pub open spec fn terms_val(
    table: Seq<LinComb>,
    wit: Seq<nat>,
    inst: Seq<nat>,
    ts: Seq<(Fp, Variable)>,
    bound: nat,
) -> int
    decreases bound, ts.len() + 1,
{
    if ts.len() == 0 {
        0
    } else {
        terms_val(table, wit, inst, ts.drop_last(), bound) + (ts.last().0@ as int) * var_val(
            table,
            wit,
            inst,
            ts.last().1,
            bound,
        )
    }
}

/// The reduced value of a variable, consulting the whole table.
pub open spec fn vval(table: Seq<LinComb>, wit: Seq<nat>, inst: Seq<nat>, v: Variable) -> nat {
    fmod(var_val(table, wit, inst, v, table.len()))
}

/// The reduced value of a free-standing linear combination.
pub open spec fn lc_val(table: Seq<LinComb>, wit: Seq<nat>, inst: Seq<nat>, lc: LinComb) -> nat {
    fmod(terms_val(table, wit, inst, lc@, table.len()))
}

/// The constraint holds under the assignment: the product of the two
/// factor combinations equals the third, in the field.
pub open spec fn constraint_sat(
    table: Seq<LinComb>,
    wit: Seq<nat>,
    inst: Seq<nat>,
    c: Constraint,
) -> bool {
    f_mul(lc_val(table, wit, inst, c.a), lc_val(table, wit, inst, c.b)) == lc_val(
        table,
        wit,
        inst,
        c.c,
    )
}

/// The stored values of an assignment table, with absent entries read as
/// zero.
pub open spec fn stored_vals(vs: Seq<Option<Fp>>) -> Seq<nat> {
    vs.map(
        |i: int, o: Option<Fp>|
            match o {
                Option::Some(x) => x@,
                Option::None => 0nat,
            },
    )
}

/// Every entry of the assignment table holds a value.
pub open spec fn assignment_complete(vs: Seq<Option<Fp>>) -> bool {
    forall|i: int| 0 <= i < vs.len() ==> (#[trigger] vs[i]) is Some
}

/// Pushing a slot keeps the table complete exactly when the slot is
/// filled.
pub proof fn lemma_complete_push(vs: Seq<Option<Fp>>, v: Option<Fp>)
    ensures
        assignment_complete(vs.push(v)) == (assignment_complete(vs) && v is Some),
{
    let vs2 = vs.push(v);
    if assignment_complete(vs2) {
        assert forall|i: int| 0 <= i < vs.len() implies (#[trigger] vs[i]) is Some by {
            assert(vs[i] == vs2[i]);
        };
        assert(vs2[vs2.len() - 1] is Some);
    }
    if assignment_complete(vs) && v is Some {
        assert forall|i: int| 0 <= i < vs2.len() implies (#[trigger] vs2[i]) is Some by {
            if i < vs.len() {
                assert(vs2[i] == vs[i]);
            }
        };
    }
}

/// Every present value of the assignment table is a reduced residue.
pub open spec fn assignment_valid(vs: Seq<Option<Fp>>) -> bool {
    forall|i: int|
        0 <= i < vs.len() ==> match #[trigger] vs[i] {
            Option::Some(x) => x.valid(),
            Option::None => true,
        }
}

impl ConstraintSystem {
    /// The number of public-input variables.
    pub open spec fn ni(&self) -> nat {
        self.instance_assignment@.len()
    }

    /// The number of witness variables.
    pub open spec fn nw(&self) -> nat {
        self.witness_assignment@.len()
    }

    /// The number of registered linear combinations.
    pub open spec fn nl(&self) -> nat {
        self.lc_table@.len()
    }

    /// The number of enforced constraints.
    pub open spec fn nc(&self) -> nat {
        self.constraints@.len()
    }

    /// The arena is well-formed: stored values are reduced, combinations
    /// refer only backwards, and constraints refer only to registered
    /// variables.
    pub open spec fn wf(&self) -> bool {
        &&& assignment_valid(self.instance_assignment@)
        &&& assignment_valid(self.witness_assignment@)
        &&& lcs_wf(self.lc_table@, self.ni(), self.nw())
        &&& forall|k: int|
            0 <= k < self.constraints@.len() ==> {
                &&& terms_wf((#[trigger] self.constraints@[k]).a@, self.ni(), self.nw(), self.nl())
                &&& terms_wf(self.constraints@[k].b@, self.ni(), self.nw(), self.nl())
                &&& terms_wf(self.constraints@[k].c@, self.ni(), self.nw(), self.nl())
            }
    }

    /// The stored witness values.
    pub open spec fn wit_vals(&self) -> Seq<nat> {
        stored_vals(self.witness_assignment@)
    }

    /// The stored public-input values.
    pub open spec fn inst_vals(&self) -> Seq<nat> {
        stored_vals(self.instance_assignment@)
    }

    /// Every base variable has a stored value.
    pub open spec fn is_complete(&self) -> bool {
        assignment_complete(self.instance_assignment@) && assignment_complete(
            self.witness_assignment@,
        )
    }

    /// The reduced value of a variable under the stored assignment.
    pub open spec fn val(&self, v: Variable) -> nat {
        vval(self.lc_table@, self.wit_vals(), self.inst_vals(), v)
    }

    /// Every enforced constraint holds under the given assignment.
    pub open spec fn sat_under(&self, wit: Seq<nat>, inst: Seq<nat>) -> bool {
        forall|k: int|
            0 <= k < self.constraints@.len() ==> constraint_sat(
                self.lc_table@,
                wit,
                inst,
                #[trigger] self.constraints@[k],
            )
    }

    /// Every enforced constraint holds under the stored assignment.
    pub open spec fn spec_satisfied(&self) -> bool {
        self.sat_under(self.wit_vals(), self.inst_vals())
    }

    /// The other arena is an earlier state of this one: everything it
    /// holds is still here, unchanged and in place.
    pub open spec fn extends(&self, earlier: &ConstraintSystem) -> bool {
        &&& earlier.lc_table@.is_prefix_of(self.lc_table@)
        &&& earlier.witness_assignment@.is_prefix_of(self.witness_assignment@)
        &&& earlier.instance_assignment@.is_prefix_of(self.instance_assignment@)
        &&& earlier.constraints@.is_prefix_of(self.constraints@)
    }

    /// Creates an empty arena.
    pub fn new() -> (r: ConstraintSystem)
        ensures
            r.wf(),
            r.ni() == 0,
            r.nw() == 0,
            r.nl() == 0,
            r.nc() == 0,
    {
        ConstraintSystem {
            instance_assignment: Vec::new(),
            witness_assignment: Vec::new(),
            lc_table: Vec::new(),
            constraints: Vec::new(),
        }
    }

    /// The number of enforced constraints.
    pub fn num_constraints(&self) -> (r: usize)
        ensures
            r as nat == self.nc(),
    {
        self.constraints.len()
    }

    /// The number of registered linear combinations.
    pub fn num_lcs(&self) -> (r: usize)
        ensures
            r as nat == self.nl(),
    {
        self.lc_table.len()
    }

    /// Allocates a fresh witness variable carrying the given value.
    pub fn new_witness_variable(&mut self, value: Option<Fp>) -> (r: Variable)
        requires
            old(self).wf(),
            value matches Option::Some(w) ==> w.valid(),
        ensures
            final(self).wf(),
            final(self).extends(old(self)),
            r == Variable::Witness(old(self).nw() as usize),
            final(self).witness_assignment@ == old(self).witness_assignment@.push(value),
            final(self).instance_assignment == old(self).instance_assignment,
            final(self).lc_table == old(self).lc_table,
            final(self).constraints == old(self).constraints,
            final(self).is_complete() == (old(self).is_complete() && value is Some),
    {
        let idx = self.witness_assignment.len();
        self.witness_assignment.push(value);
        proof {
            lemma_complete_push(old(self).witness_assignment@, value);
            assert(final(self).wf()) by {
                assert forall|i: int|
                    0 <= i < final(self).lc_table@.len() implies terms_wf(
                    (#[trigger] final(self).lc_table@[i])@,
                    final(self).ni(),
                    final(self).nw(),
                    i as nat,
                ) by {
                    lemma_terms_wf_widen(
                        final(self).lc_table@[i]@,
                        old(self).ni(),
                        old(self).nw(),
                        i as nat,
                        final(self).ni(),
                        final(self).nw(),
                        i as nat,
                    );
                };
                assert forall|k: int| 0 <= k < final(self).constraints@.len() implies {
                    &&& terms_wf(
                        (#[trigger] final(self).constraints@[k]).a@,
                        final(self).ni(),
                        final(self).nw(),
                        final(self).nl(),
                    )
                    &&& terms_wf(
                        final(self).constraints@[k].b@,
                        final(self).ni(),
                        final(self).nw(),
                        final(self).nl(),
                    )
                    &&& terms_wf(
                        final(self).constraints@[k].c@,
                        final(self).ni(),
                        final(self).nw(),
                        final(self).nl(),
                    )
                } by {
                    let ks = final(self).constraints@[k];
                    lemma_terms_wf_widen(
                        ks.a@,
                        old(self).ni(),
                        old(self).nw(),
                        old(self).nl(),
                        final(self).ni(),
                        final(self).nw(),
                        final(self).nl(),
                    );
                    lemma_terms_wf_widen(
                        ks.b@,
                        old(self).ni(),
                        old(self).nw(),
                        old(self).nl(),
                        final(self).ni(),
                        final(self).nw(),
                        final(self).nl(),
                    );
                    lemma_terms_wf_widen(
                        ks.c@,
                        old(self).ni(),
                        old(self).nw(),
                        old(self).nl(),
                        final(self).ni(),
                        final(self).nw(),
                        final(self).nl(),
                    );
                };
            };
        }
        Variable::Witness(idx)
    }

    /// Allocates a fresh public-input variable carrying the given value.
    pub fn new_input_variable(&mut self, value: Option<Fp>) -> (r: Variable)
        requires
            old(self).wf(),
            value matches Option::Some(w) ==> w.valid(),
        ensures
            final(self).wf(),
            final(self).extends(old(self)),
            r == Variable::Instance(old(self).ni() as usize),
            final(self).instance_assignment@ == old(self).instance_assignment@.push(value),
            final(self).witness_assignment == old(self).witness_assignment,
            final(self).lc_table == old(self).lc_table,
            final(self).constraints == old(self).constraints,
            final(self).is_complete() == (old(self).is_complete() && value is Some),
    {
        let idx = self.instance_assignment.len();
        self.instance_assignment.push(value);
        proof {
            lemma_complete_push(old(self).instance_assignment@, value);
            assert forall|i: int|
                0 <= i < final(self).lc_table@.len() implies terms_wf(
                (#[trigger] final(self).lc_table@[i])@,
                final(self).ni(),
                final(self).nw(),
                i as nat,
            ) by {
                lemma_terms_wf_widen(
                    final(self).lc_table@[i]@,
                    old(self).ni(),
                    old(self).nw(),
                    i as nat,
                    final(self).ni(),
                    final(self).nw(),
                    i as nat,
                );
            };
            assert forall|k: int| 0 <= k < final(self).constraints@.len() implies {
                &&& terms_wf(
                    (#[trigger] final(self).constraints@[k]).a@,
                    final(self).ni(),
                    final(self).nw(),
                    final(self).nl(),
                )
                &&& terms_wf(
                    final(self).constraints@[k].b@,
                    final(self).ni(),
                    final(self).nw(),
                    final(self).nl(),
                )
                &&& terms_wf(
                    final(self).constraints@[k].c@,
                    final(self).ni(),
                    final(self).nw(),
                    final(self).nl(),
                )
            } by {
                let ks = final(self).constraints@[k];
                lemma_terms_wf_widen(
                    ks.a@,
                    old(self).ni(),
                    old(self).nw(),
                    old(self).nl(),
                    final(self).ni(),
                    final(self).nw(),
                    final(self).nl(),
                );
                lemma_terms_wf_widen(
                    ks.b@,
                    old(self).ni(),
                    old(self).nw(),
                    old(self).nl(),
                    final(self).ni(),
                    final(self).nw(),
                    final(self).nl(),
                );
                lemma_terms_wf_widen(
                    ks.c@,
                    old(self).ni(),
                    old(self).nw(),
                    old(self).nl(),
                    final(self).ni(),
                    final(self).nw(),
                    final(self).nl(),
                );
            };
        }
        Variable::Instance(idx)
    }

    /// Enforces the rank-one relation `a * b = c`.
    pub fn enforce_constraint(&mut self, a: LinComb, b: LinComb, c: LinComb)
        requires
            old(self).wf(),
            terms_wf(a@, old(self).ni(), old(self).nw(), old(self).nl()),
            terms_wf(b@, old(self).ni(), old(self).nw(), old(self).nl()),
            terms_wf(c@, old(self).ni(), old(self).nw(), old(self).nl()),
        ensures
            final(self).wf(),
            final(self).extends(old(self)),
            final(self).constraints@ == old(self).constraints@.push(
                Constraint { a: a, b: b, c: c },
            ),
            final(self).instance_assignment == old(self).instance_assignment,
            final(self).witness_assignment == old(self).witness_assignment,
            final(self).lc_table == old(self).lc_table,
    {
        let ghost av = a@;
        let ghost bv = b@;
        let ghost cv = c@;
        self.constraints.push(Constraint { a, b, c });
        proof {
            assert forall|k: int| 0 <= k < final(self).constraints@.len() implies {
                &&& terms_wf(
                    (#[trigger] final(self).constraints@[k]).a@,
                    final(self).ni(),
                    final(self).nw(),
                    final(self).nl(),
                )
                &&& terms_wf(
                    final(self).constraints@[k].b@,
                    final(self).ni(),
                    final(self).nw(),
                    final(self).nl(),
                )
                &&& terms_wf(
                    final(self).constraints@[k].c@,
                    final(self).ni(),
                    final(self).nw(),
                    final(self).nl(),
                )
            } by {
                if k < old(self).constraints@.len() {
                    assert(final(self).constraints@[k] == old(self).constraints@[k]);
                } else {
                    assert(final(self).constraints@[k].a@ == av);
                    assert(final(self).constraints@[k].b@ == bv);
                    assert(final(self).constraints@[k].c@ == cv);
                }
            };
        }
    }
}

/// Well-formedness of a term list survives growing the tables.
pub proof fn lemma_terms_wf_widen(
    ts: Seq<(Fp, Variable)>,
    ni1: nat,
    nw1: nat,
    nl1: nat,
    ni2: nat,
    nw2: nat,
    nl2: nat,
)
    requires
        terms_wf(ts, ni1, nw1, nl1),
        ni1 <= ni2,
        nw1 <= nw2,
        nl1 <= nl2,
    ensures
        terms_wf(ts, ni2, nw2, nl2),
{
    assert forall|k: int|
        0 <= k < ts.len() implies (#[trigger] ts[k]).0.valid() && var_wf(
        ts[k].1,
        ni2,
        nw2,
        nl2,
    ) by {
        assert(ts[k].0.valid() && var_wf(ts[k].1, ni1, nw1, nl1));
    };
}

/// Evaluation is stable: enlarging the table, the assignment or the bound
/// does not change the value of anything already well-formed.
pub proof fn lemma_var_val_frame(
    t1: Seq<LinComb>,
    t2: Seq<LinComb>,
    wit1: Seq<nat>,
    wit2: Seq<nat>,
    inst1: Seq<nat>,
    inst2: Seq<nat>,
    v: Variable,
    b1: nat,
    b2: nat,
)
    requires
        b1 <= t1.len(),
        b1 <= b2,
        t1.len() <= t2.len(),
        forall|i: int| 0 <= i < t1.len() ==> t1[i] == t2[i],
        wit1.len() <= wit2.len(),
        forall|i: int| 0 <= i < wit1.len() ==> wit1[i] == wit2[i],
        inst1.len() <= inst2.len(),
        forall|i: int| 0 <= i < inst1.len() ==> inst1[i] == inst2[i],
        forall|i: int| 0 <= i < b1 ==> terms_wf((#[trigger] t1[i])@, inst1.len(), wit1.len(), i as nat),
        var_wf(v, inst1.len(), wit1.len(), b1),
    ensures
        var_val(t2, wit2, inst2, v, b2) == var_val(t1, wit1, inst1, v, b1),
    decreases b1, 0nat,
{
    match v {
        Variable::One => {},
        Variable::Instance(i) => {},
        Variable::Witness(i) => {},
        Variable::SymLc(j) => {
            assert(t1[j as int] == t2[j as int]);
            lemma_terms_val_frame(t1, t2, wit1, wit2, inst1, inst2, t1[j as int]@, j as nat, j as nat);
        },
    }
}

/// The term-list form of [`lemma_var_val_frame`].
pub proof fn lemma_terms_val_frame(
    t1: Seq<LinComb>,
    t2: Seq<LinComb>,
    wit1: Seq<nat>,
    wit2: Seq<nat>,
    inst1: Seq<nat>,
    inst2: Seq<nat>,
    ts: Seq<(Fp, Variable)>,
    b1: nat,
    b2: nat,
)
    requires
        b1 <= t1.len(),
        b1 <= b2,
        t1.len() <= t2.len(),
        forall|i: int| 0 <= i < t1.len() ==> t1[i] == t2[i],
        wit1.len() <= wit2.len(),
        forall|i: int| 0 <= i < wit1.len() ==> wit1[i] == wit2[i],
        inst1.len() <= inst2.len(),
        forall|i: int| 0 <= i < inst1.len() ==> inst1[i] == inst2[i],
        forall|i: int| 0 <= i < b1 ==> terms_wf((#[trigger] t1[i])@, inst1.len(), wit1.len(), i as nat),
        terms_wf(ts, inst1.len(), wit1.len(), b1),
    ensures
        terms_val(t2, wit2, inst2, ts, b2) == terms_val(t1, wit1, inst1, ts, b1),
    decreases b1, ts.len() + 1,
{
    if ts.len() == 0 {
    } else {
        assert(terms_wf(ts.drop_last(), inst1.len(), wit1.len(), b1)) by {
            assert forall|k: int|
                0 <= k < ts.drop_last().len() implies (#[trigger] ts.drop_last()[k]).0.valid()
                && var_wf(ts.drop_last()[k].1, inst1.len(), wit1.len(), b1) by {
                assert(ts.drop_last()[k] == ts[k]);
            };
        };
        lemma_terms_val_frame(t1, t2, wit1, wit2, inst1, inst2, ts.drop_last(), b1, b2);
        assert(ts.last() == ts[ts.len() - 1]);
        lemma_var_val_frame(t1, t2, wit1, wit2, inst1, inst2, ts.last().1, b1, b2);
    }
}

/// The splitting rule for term-list evaluation: the value of a
/// concatenation is the sum of the values.
pub proof fn lemma_terms_val_append(
    table: Seq<LinComb>,
    wit: Seq<nat>,
    inst: Seq<nat>,
    s1: Seq<(Fp, Variable)>,
    s2: Seq<(Fp, Variable)>,
    bound: nat,
)
    ensures
        terms_val(table, wit, inst, s1 + s2, bound) == terms_val(table, wit, inst, s1, bound)
            + terms_val(table, wit, inst, s2, bound),
    decreases s2.len(),
{
    if s2.len() == 0 {
        assert(s1 + s2 =~= s1);
    } else {
        lemma_terms_val_append(table, wit, inst, s1, s2.drop_last(), bound);
        assert((s1 + s2).drop_last() =~= s1 + s2.drop_last());
        assert((s1 + s2).last() == s2.last());
    }
}

/// A strict total order on variables, used to keep registered linear
/// combinations in canonical form.
pub open spec fn var_lt(a: Variable, b: Variable) -> bool {
    match (a, b) {
        (Variable::One, Variable::One) => false,
        (Variable::One, _) => true,
        (Variable::Instance(_), Variable::One) => false,
        (Variable::Instance(i), Variable::Instance(j)) => i < j,
        (Variable::Instance(_), _) => true,
        (Variable::Witness(_), Variable::One) => false,
        (Variable::Witness(_), Variable::Instance(_)) => false,
        (Variable::Witness(i), Variable::Witness(j)) => i < j,
        (Variable::Witness(_), Variable::SymLc(_)) => true,
        (Variable::SymLc(i), Variable::SymLc(j)) => i < j,
        (Variable::SymLc(_), _) => false,
    }
}

/// The order is total: incomparable variables are equal.
pub proof fn lemma_var_lt_connected(a: Variable, b: Variable)
    requires
        !var_lt(a, b),
        !var_lt(b, a),
    ensures
        a == b,
{
}

/// The order is transitive.
pub proof fn lemma_var_lt_trans(a: Variable, b: Variable, c: Variable)
    requires
        var_lt(a, b),
        var_lt(b, c),
    ensures
        var_lt(a, c),
{
}

/// Decides the canonical order on two variables.
pub fn var_lt_exec(a: &Variable, b: &Variable) -> (r: bool)
    ensures
        r == var_lt(*a, *b),
{
    match (a, b) {
        (Variable::One, Variable::One) => false,
        (Variable::One, _) => true,
        (Variable::Instance(_), Variable::One) => false,
        (Variable::Instance(i), Variable::Instance(j)) => i < j,
        (Variable::Instance(_), _) => true,
        (Variable::Witness(_), Variable::One) => false,
        (Variable::Witness(_), Variable::Instance(_)) => false,
        (Variable::Witness(i), Variable::Witness(j)) => i < j,
        (Variable::Witness(_), Variable::SymLc(_)) => true,
        (Variable::SymLc(i), Variable::SymLc(j)) => i < j,
        (Variable::SymLc(_), _) => false,
    }
}

/// A term list in canonical form: strictly ordered variables, no
/// zero coefficients, every coefficient reduced.
pub open spec fn canonical_terms(ts: Seq<(Fp, Variable)>) -> bool {
    &&& forall|k: int| 0 <= k < ts.len() ==> (#[trigger] ts[k]).0.valid() && ts[k].0@ != 0
    &&& forall|k: int, l: int|
        0 <= k < l < ts.len() ==> var_lt((#[trigger] ts[k]).1, (#[trigger] ts[l]).1)
}

/// Two term lists take the same reduced value under every table, every
/// assignment and every bound.
pub open spec fn terms_equiv(ts1: Seq<(Fp, Variable)>, ts2: Seq<(Fp, Variable)>) -> bool {
    forall|table: Seq<LinComb>, wit: Seq<nat>, inst: Seq<nat>, bound: nat|
        fmod(#[trigger] terms_val(table, wit, inst, ts1, bound)) == fmod(
            terms_val(table, wit, inst, ts2, bound),
        )
}

/// Appending one term adds its weighted value.
pub proof fn lemma_terms_val_push(
    table: Seq<LinComb>,
    wit: Seq<nat>,
    inst: Seq<nat>,
    ts: Seq<(Fp, Variable)>,
    t: (Fp, Variable),
    bound: nat,
)
    ensures
        terms_val(table, wit, inst, ts.push(t), bound) == terms_val(table, wit, inst, ts, bound)
            + (t.0@ as int) * var_val(table, wit, inst, t.1, bound),
{
    assert(ts.push(t).drop_last() =~= ts);
    assert(ts.push(t).last() == t);
}

/// Splitting a term list at one position.
pub proof fn lemma_terms_val_split(
    table: Seq<LinComb>,
    wit: Seq<nat>,
    inst: Seq<nat>,
    ts: Seq<(Fp, Variable)>,
    idx: int,
    bound: nat,
)
    requires
        0 <= idx < ts.len(),
    ensures
        terms_val(table, wit, inst, ts, bound) == terms_val(
            table,
            wit,
            inst,
            ts.subrange(0, idx),
            bound,
        ) + (ts[idx].0@ as int) * var_val(table, wit, inst, ts[idx].1, bound) + terms_val(
            table,
            wit,
            inst,
            ts.subrange(idx + 1, ts.len() as int),
            bound,
        ),
{
    let left = ts.subrange(0, idx);
    let right = ts.subrange(idx + 1, ts.len() as int);
    assert(ts =~= left.push(ts[idx]) + right);
    lemma_terms_val_append(table, wit, inst, left.push(ts[idx]), right, bound);
    lemma_terms_val_push(table, wit, inst, left, ts[idx], bound);
}

/// Folds one term into a canonical accumulator, keeping it canonical and
/// preserving the reduced value of the represented combination.
fn insert_term(acc: &mut Vec<(Fp, Variable)>, c: Fp, v: Variable)
    requires
        canonical_terms(old(acc)@),
        c.valid(),
    ensures
        canonical_terms(final(acc)@),
        terms_equiv(final(acc)@, old(acc)@.push((c, v))),
        forall|ni: nat, nw: nat, nl: nat|
            terms_wf(old(acc)@, ni, nw, nl) && var_wf(v, ni, nw, nl) ==> #[trigger] terms_wf(
                final(acc)@,
                ni,
                nw,
                nl,
            ),
{
    let ghost s = acc@;
    let mut idx: usize = 0;
    while idx < acc.len() && var_lt_exec(&acc[idx].1, &v)
        invariant
            idx <= acc@.len(),
            acc@ == s,
            canonical_terms(s),
            c.valid(),
            forall|k: int| 0 <= k < idx ==> var_lt((#[trigger] s[k]).1, v),
        decreases acc@.len() - idx,
    {
        idx += 1;
    }
    let ghost pos = idx as int;
    if idx < acc.len() && acc[idx].1 == v {
        // The variable is already present: merge the coefficients.
        let ghost oc = s[pos].0@;
        let merged = acc[idx].0.add_fp(&c);
        if merged.is_zero() {
            acc.remove(idx);
            proof {
                let s2 = final(acc)@;
                assert(s2 == s.remove(pos));
                assert forall|table: Seq<LinComb>, wit: Seq<nat>, inst: Seq<nat>, bound: nat|
                    fmod(#[trigger] terms_val(table, wit, inst, s2, bound)) == fmod(
                    terms_val(table, wit, inst, s.push((c, v)), bound),
                ) by {
                    let left = s.subrange(0, pos);
                    let right = s.subrange(pos + 1, s.len() as int);
                    let vv = var_val(table, wit, inst, v, bound);
                    lemma_terms_val_append(table, wit, inst, left, right, bound);
                    lemma_terms_val_push(table, wit, inst, s, (c, v), bound);
                    lemma_terms_val_split(table, wit, inst, s, pos, bound);
                    let rest = terms_val(table, wit, inst, left, bound) + terms_val(
                        table,
                        wit,
                        inst,
                        right,
                        bound,
                    );
                    assert(terms_val(table, wit, inst, s2, bound) == rest);
                    assert(terms_val(table, wit, inst, s.push((c, v)), bound) == rest + (oc as int)
                        * vv + (c@ as int) * vv);
                    assert((oc as int) * vv + (c@ as int) * vv == ((oc + c@) as int) * vv) by {
                        vstd::arithmetic::mul::lemma_mul_is_distributive_add_other_way(
                            vv,
                            oc as int,
                            c@ as int,
                        );
                    };
                    assert(fmod(((oc + c@) as int) * vv) == 0) by {
                        lemma_mul_mod_noop_left((oc + c@) as int, vv, crate::field::MODULUS as int);
                        assert(fmod((oc + c@) as int) == 0);
                        lemma_small_mod(0, crate::field::MODULUS as nat);
                    };
                    lemma_fmod_add_zero(rest, ((oc + c@) as int) * vv);
                };
                assert forall|ni: nat, nw: nat, nl: nat|
                    terms_wf(s, ni, nw, nl) && var_wf(v, ni, nw, nl) implies #[trigger] terms_wf(
                    s2,
                    ni,
                    nw,
                    nl,
                ) by {
                    assert forall|k: int|
                        0 <= k < s2.len() implies (#[trigger] s2[k]).0.valid() && var_wf(
                        s2[k].1,
                        ni,
                        nw,
                        nl,
                    ) by {
                        if k < pos {
                            assert(s2[k] == s[k]);
                        } else {
                            assert(s2[k] == s[k + 1]);
                        }
                    };
                };
            }
        } else {
            acc[idx] = (merged, v);
            proof {
                let s2 = final(acc)@;
                assert(s2 == s.update(pos, (merged, v)));
                assert forall|table: Seq<LinComb>, wit: Seq<nat>, inst: Seq<nat>, bound: nat|
                    fmod(#[trigger] terms_val(table, wit, inst, s2, bound)) == fmod(
                    terms_val(table, wit, inst, s.push((c, v)), bound),
                ) by {
                    let vv = var_val(table, wit, inst, v, bound);
                    lemma_terms_val_push(table, wit, inst, s, (c, v), bound);
                    lemma_terms_val_split(table, wit, inst, s, pos, bound);
                    lemma_terms_val_split(table, wit, inst, s2, pos, bound);
                    assert(s2.subrange(0, pos) =~= s.subrange(0, pos));
                    assert(s2.subrange(pos + 1, s2.len() as int) =~= s.subrange(
                        pos + 1,
                        s.len() as int,
                    ));
                    let rest = terms_val(table, wit, inst, s.subrange(0, pos), bound) + terms_val(
                        table,
                        wit,
                        inst,
                        s.subrange(pos + 1, s.len() as int),
                        bound,
                    );
                    assert(terms_val(table, wit, inst, s2, bound) == rest + (merged@ as int) * vv);
                    assert(terms_val(table, wit, inst, s.push((c, v)), bound) == rest + (oc as int)
                        * vv + (c@ as int) * vv);
                    assert((oc as int) * vv + (c@ as int) * vv == ((oc + c@) as int) * vv) by {
                        vstd::arithmetic::mul::lemma_mul_is_distributive_add_other_way(
                            vv,
                            oc as int,
                            c@ as int,
                        );
                    };
                    lemma_fmod_coeff_reduce((oc + c@) as int, vv, rest);
                    assert(merged@ == fmod((oc + c@) as int));
                };
                assert forall|k: int, l: int|
                    0 <= k < l < s2.len() implies var_lt((#[trigger] s2[k]).1, (#[trigger] s2[l]).1) by {
                    assert(s2[k].1 == s[k].1);
                    assert(s2[l].1 == s[l].1);
                };
                assert forall|ni: nat, nw: nat, nl: nat|
                    terms_wf(s, ni, nw, nl) && var_wf(v, ni, nw, nl) implies #[trigger] terms_wf(
                    s2,
                    ni,
                    nw,
                    nl,
                ) by {
                    assert forall|k: int|
                        0 <= k < s2.len() implies (#[trigger] s2[k]).0.valid() && var_wf(
                        s2[k].1,
                        ni,
                        nw,
                        nl,
                    ) by {
                        if k != pos {
                            assert(s2[k] == s[k]);
                        }
                    };
                };
            }
        }
    } else {
        // The variable is new: a nonzero coefficient is inserted in order.
        if !c.is_zero() {
            proof {
                if pos < s.len() {
                    assert(!var_lt(s[pos].1, v));
                    assert(s[pos].1 != v);
                    if !var_lt(v, s[pos].1) {
                        lemma_var_lt_connected(s[pos].1, v);
                    }
                    assert(var_lt(v, s[pos].1));
                }
            }
            acc.insert(idx, (c, v));
            proof {
                let s2 = final(acc)@;
                assert(s2 == s.insert(pos, (c, v)));
                assert forall|table: Seq<LinComb>, wit: Seq<nat>, inst: Seq<nat>, bound: nat|
                    fmod(#[trigger] terms_val(table, wit, inst, s2, bound)) == fmod(
                    terms_val(table, wit, inst, s.push((c, v)), bound),
                ) by {
                    let left = s.subrange(0, pos);
                    let right = s.subrange(pos, s.len() as int);
                    assert(s2 =~= left.push((c, v)) + right);
                    lemma_terms_val_append(table, wit, inst, left.push((c, v)), right, bound);
                    lemma_terms_val_push(table, wit, inst, left, (c, v), bound);
                    assert(s =~= left + right);
                    lemma_terms_val_append(table, wit, inst, left, right, bound);
                    lemma_terms_val_push(table, wit, inst, s, (c, v), bound);
                };
                assert forall|k: int, l: int|
                    0 <= k < l < s2.len() implies var_lt((#[trigger] s2[k]).1, (#[trigger] s2[l]).1) by {
                    if k < pos && l < pos {
                    } else if k < pos && l == pos {
                        assert(s2[k].1 == s[k].1);
                    } else if k < pos && l > pos {
                        assert(s2[k].1 == s[k].1);
                        assert(s2[l].1 == s[l - 1].1);
                    } else if k == pos {
                        assert(s2[l].1 == s[l - 1].1);
                        if l - 1 > pos {
                            lemma_var_lt_trans(v, s[pos].1, s[l - 1].1);
                        }
                    } else {
                        assert(s2[k].1 == s[k - 1].1);
                        assert(s2[l].1 == s[l - 1].1);
                    }
                };
                assert forall|k: int|
                    0 <= k < s2.len() implies (#[trigger] s2[k]).0.valid() && s2[k].0@ != 0 by {
                    if k < pos {
                        assert(s2[k] == s[k]);
                    } else if k > pos {
                        assert(s2[k] == s[k - 1]);
                    }
                };
                assert forall|ni: nat, nw: nat, nl: nat|
                    terms_wf(s, ni, nw, nl) && var_wf(v, ni, nw, nl) implies #[trigger] terms_wf(
                    s2,
                    ni,
                    nw,
                    nl,
                ) by {
                    assert forall|k: int|
                        0 <= k < s2.len() implies (#[trigger] s2[k]).0.valid() && var_wf(
                        s2[k].1,
                        ni,
                        nw,
                        nl,
                    ) by {
                        if k < pos {
                            assert(s2[k] == s[k]);
                        } else if k > pos {
                            assert(s2[k] == s[k - 1]);
                        }
                    };
                };
            }
        } else {
            proof {
                assert forall|table: Seq<LinComb>, wit: Seq<nat>, inst: Seq<nat>, bound: nat|
                    fmod(#[trigger] terms_val(table, wit, inst, s, bound)) == fmod(
                    terms_val(table, wit, inst, s.push((c, v)), bound),
                ) by {
                    lemma_terms_val_push(table, wit, inst, s, (c, v), bound);
                    vstd::arithmetic::mul::lemma_mul_by_zero_is_zero(
                        var_val(table, wit, inst, v, bound),
                    );
                };
            }
        }
    }
}

/// The Builder: merges duplicate variables, drops zero coefficients and
/// sorts the terms, returning the canonical form of the combination.
pub fn compactify(input: &Vec<(Fp, Variable)>) -> (out: Vec<(Fp, Variable)>)
    requires
        forall|k: int| 0 <= k < input@.len() ==> (#[trigger] input@[k]).0.valid(),
    ensures
        canonical_terms(out@),
        terms_equiv(out@, input@),
        forall|ni: nat, nw: nat, nl: nat|
            terms_wf(input@, ni, nw, nl) ==> #[trigger] terms_wf(out@, ni, nw, nl),
{
    let mut out: Vec<(Fp, Variable)> = Vec::new();
    let mut i: usize = 0;
    proof {
        assert(out@ =~= input@.subrange(0, 0));
    }
    while i < input.len()
        invariant
            i <= input@.len(),
            forall|k: int| 0 <= k < input@.len() ==> (#[trigger] input@[k]).0.valid(),
            canonical_terms(out@),
            terms_equiv(out@, input@.subrange(0, i as int)),
            forall|ni: nat, nw: nat, nl: nat|
                terms_wf(input@, ni, nw, nl) ==> #[trigger] terms_wf(out@, ni, nw, nl),
        decreases input@.len() - i,
    {
        let (c, v) = input[i];
        let ghost before = out@;
        insert_term(&mut out, c, v);
        proof {
            let taken = input@.subrange(0, i as int);
            let taken1 = input@.subrange(0, i as int + 1);
            assert(taken1 =~= taken.push((c, v)));
            assert forall|table: Seq<LinComb>, wit: Seq<nat>, inst: Seq<nat>, bound: nat|
                fmod(#[trigger] terms_val(table, wit, inst, out@, bound)) == fmod(
                terms_val(table, wit, inst, taken1, bound),
            ) by {
                lemma_terms_val_push(table, wit, inst, before, (c, v), bound);
                lemma_terms_val_push(table, wit, inst, taken, (c, v), bound);
                assert(fmod(terms_val(table, wit, inst, out@, bound)) == fmod(
                    terms_val(table, wit, inst, before.push((c, v)), bound),
                ));
                assert(fmod(terms_val(table, wit, inst, before, bound)) == fmod(
                    terms_val(table, wit, inst, taken, bound),
                ));
                lemma_fmod_add_congruent(
                    terms_val(table, wit, inst, before, bound),
                    terms_val(table, wit, inst, taken, bound),
                    (c@ as int) * var_val(table, wit, inst, v, bound),
                );
            };
            assert forall|ni: nat, nw: nat, nl: nat|
                terms_wf(input@, ni, nw, nl) implies #[trigger] terms_wf(out@, ni, nw, nl) by {
                assert(terms_wf(before, ni, nw, nl));
                assert(input@[i as int].0.valid() && var_wf(input@[i as int].1, ni, nw, nl));
            };
        }
        i += 1;
    }
    proof {
        assert(input@.subrange(0, input@.len() as int) =~= input@);
    }
    out
}

impl ConstraintSystem {
    /// Registers a linear combination built from the given sparse terms,
    /// in canonical form, and returns its handle.
    pub fn new_lc(&mut self, terms: Vec<(Fp, Variable)>) -> (r: Variable)
        requires
            old(self).wf(),
            terms_wf(terms@, old(self).ni(), old(self).nw(), old(self).nl()),
        ensures
            final(self).wf(),
            final(self).extends(old(self)),
            r == Variable::SymLc(old(self).nl() as usize),
            var_wf(r, final(self).ni(), final(self).nw(), final(self).nl()),
            final(self).nl() == old(self).nl() + 1,
            final(self).constraints == old(self).constraints,
            final(self).witness_assignment == old(self).witness_assignment,
            final(self).instance_assignment == old(self).instance_assignment,
            canonical_terms(final(self).lc_table@.last()@),
            forall|wit: Seq<nat>, inst: Seq<nat>|
                #[trigger] vval(final(self).lc_table@, wit, inst, r) == fmod(
                    terms_val(final(self).lc_table@, wit, inst, terms@, old(self).nl()),
                ),
    {
        let n_exec = self.lc_table.len();
        let ghost n = n_exec as int;
        let compact = compactify(&terms);
        let ghost cv = compact@;
        self.lc_table.push(LinComb { terms: compact });
        proof {
            let t2 = final(self).lc_table@;
            assert(t2.last()@ == cv);
            assert(terms_wf(cv, old(self).ni(), old(self).nw(), n as nat));
            assert(lcs_wf(t2, final(self).ni(), final(self).nw())) by {
                assert forall|i: int|
                    0 <= i < t2.len() implies terms_wf(
                    (#[trigger] t2[i])@,
                    final(self).ni(),
                    final(self).nw(),
                    i as nat,
                ) by {
                    if i < n {
                        assert(t2[i] == old(self).lc_table@[i]);
                    }
                };
            };
            assert forall|wit: Seq<nat>, inst: Seq<nat>|
                #[trigger] vval(t2, wit, inst, Variable::SymLc(n_exec)) == fmod(
                terms_val(t2, wit, inst, terms@, n as nat),
            ) by {
                assert(var_val(t2, wit, inst, Variable::SymLc(n_exec), t2.len() as nat)
                    == terms_val(t2, wit, inst, cv, n as nat));
            };
        }
        Variable::SymLc(n_exec)
    }
}

/// Congruence of reduction under addition of a common term.
pub proof fn lemma_fmod_add_congruent(a: int, b: int, c: int)
    requires
        fmod(a) == fmod(b),
    ensures
        fmod(c + a) == fmod(c + b),
{
    let p = crate::field::MODULUS as int;
    lemma_add_mod_noop_right(c, a, p);
    lemma_add_mod_noop_right(c, b, p);
}

/// A term whose value reduces to zero does not change a reduced sum.
pub proof fn lemma_fmod_add_zero(x: int, y: int)
    requires
        fmod(y) == 0,
    ensures
        fmod(x + y) == fmod(x),
{
    let p = crate::field::MODULUS as int;
    lemma_add_mod_noop_right(x, y, p);
    lemma_mod_twice(x, p);
}

/// Reducing a coefficient before multiplying does not change the reduced
/// product-plus-rest.
pub proof fn lemma_fmod_coeff_reduce(c: int, x: int, rest: int)
    ensures
        fmod(rest + fmod(c) * x) == fmod(rest + c * x),
{
    let p = crate::field::MODULUS as int;
    lemma_mul_mod_noop_left(c, x, p);
    lemma_fmod_add_congruent((fmod(c) as int) * x, c * x, rest);
}

/// The variable consults only combinations registered below `nl`.
pub open spec fn var_refs(v: Variable, nl: nat) -> bool {
    match v {
        Variable::SymLc(j) => (j as nat) < nl,
        _ => true,
    }
}

/// Every term's variable consults only combinations below `nl`.
pub open spec fn terms_refs(ts: Seq<(Fp, Variable)>, nl: nat) -> bool {
    forall|k: int| 0 <= k < ts.len() ==> var_refs((#[trigger] ts[k]).1, nl)
}

/// Each of the first `n` table entries consults only earlier entries.
pub open spec fn table_refs(table: Seq<LinComb>, n: nat) -> bool {
    forall|i: int| 0 <= i < n ==> terms_refs((#[trigger] table[i])@, i as nat)
}

/// Well-formed terms in particular consult only earlier combinations.
pub proof fn lemma_terms_wf_refs(ts: Seq<(Fp, Variable)>, ni: nat, nw: nat, nl: nat)
    requires
        terms_wf(ts, ni, nw, nl),
    ensures
        terms_refs(ts, nl),
{
    assert forall|k: int| 0 <= k < ts.len() implies var_refs((#[trigger] ts[k]).1, nl) by {
        assert(ts[k].0.valid() && var_wf(ts[k].1, ni, nw, nl));
    };
}

/// A well-formed table consults only backwards.
pub proof fn lemma_lcs_wf_refs(table: Seq<LinComb>, ni: nat, nw: nat, n: nat)
    requires
        lcs_wf(table, ni, nw),
        n <= table.len(),
    ensures
        table_refs(table, n),
{
    assert forall|i: int| 0 <= i < n implies terms_refs((#[trigger] table[i])@, i as nat) by {
        assert(terms_wf(table[i]@, ni, nw, i as nat));
        lemma_terms_wf_refs(table[i]@, ni, nw, i as nat);
    };
}

/// Growing the table or raising the bound does not change the value of a
/// variable under a fixed assignment.
pub proof fn lemma_var_val_grow(
    t1: Seq<LinComb>,
    t2: Seq<LinComb>,
    wit: Seq<nat>,
    inst: Seq<nat>,
    v: Variable,
    b1: nat,
    b2: nat,
)
    requires
        b1 <= t1.len(),
        b1 <= b2,
        t1.len() <= t2.len(),
        forall|i: int| 0 <= i < t1.len() ==> t1[i] == t2[i],
        table_refs(t1, b1),
        var_refs(v, b1),
    ensures
        var_val(t2, wit, inst, v, b2) == var_val(t1, wit, inst, v, b1),
    decreases b1, 0nat,
{
    match v {
        Variable::SymLc(j) => {
            assert(t1[j as int] == t2[j as int]);
            lemma_terms_val_grow(t1, t2, wit, inst, t1[j as int]@, j as nat, j as nat);
        },
        _ => {},
    }
}

/// The term-list form of [`lemma_var_val_grow`].
pub proof fn lemma_terms_val_grow(
    t1: Seq<LinComb>,
    t2: Seq<LinComb>,
    wit: Seq<nat>,
    inst: Seq<nat>,
    ts: Seq<(Fp, Variable)>,
    b1: nat,
    b2: nat,
)
    requires
        b1 <= t1.len(),
        b1 <= b2,
        t1.len() <= t2.len(),
        forall|i: int| 0 <= i < t1.len() ==> t1[i] == t2[i],
        table_refs(t1, b1),
        terms_refs(ts, b1),
    ensures
        terms_val(t2, wit, inst, ts, b2) == terms_val(t1, wit, inst, ts, b1),
    decreases b1, ts.len() + 1,
{
    if ts.len() == 0 {
    } else {
        assert(terms_refs(ts.drop_last(), b1)) by {
            assert forall|k: int|
                0 <= k < ts.drop_last().len() implies var_refs(
                (#[trigger] ts.drop_last()[k]).1,
                b1,
            ) by {
                assert(ts.drop_last()[k] == ts[k]);
            };
        };
        lemma_terms_val_grow(t1, t2, wit, inst, ts.drop_last(), b1, b2);
        assert(ts.last() == ts[ts.len() - 1]);
        lemma_var_val_grow(t1, t2, wit, inst, ts.last().1, b1, b2);
    }
}

/// The stored values of a prefix are a prefix of the stored values.
pub proof fn lemma_stored_vals_prefix(vs1: Seq<Option<Fp>>, vs2: Seq<Option<Fp>>)
    requires
        vs1.is_prefix_of(vs2),
    ensures
        stored_vals(vs1).len() == vs1.len(),
        stored_vals(vs2).len() == vs2.len(),
        forall|i: int| 0 <= i < vs1.len() ==> stored_vals(vs1)[i] == stored_vals(vs2)[i],
{
    assert forall|i: int| 0 <= i < vs1.len() implies stored_vals(vs1)[i] == stored_vals(vs2)[i] by {
        assert(vs1[i] == vs2[i]);
    };
}

/// The stored value of a variable allocated earlier is unchanged by any
/// later growth of the arena.
pub proof fn lemma_val_extends(cs1: &ConstraintSystem, cs2: &ConstraintSystem, v: Variable)
    requires
        cs1.wf(),
        cs2.extends(cs1),
        var_wf(v, cs1.ni(), cs1.nw(), cs1.nl()),
    ensures
        cs2.val(v) == cs1.val(v),
{
    lemma_lcs_wf_refs(cs1.lc_table@, cs1.ni(), cs1.nw(), cs1.nl());
    lemma_stored_vals_prefix(cs1.witness_assignment@, cs2.witness_assignment@);
    lemma_stored_vals_prefix(cs1.instance_assignment@, cs2.instance_assignment@);
    lemma_var_val_frame(
        cs1.lc_table@,
        cs2.lc_table@,
        cs1.wit_vals(),
        cs2.wit_vals(),
        cs1.inst_vals(),
        cs2.inst_vals(),
        v,
        cs1.nl(),
        cs2.nl(),
    );
}

/// A reduced term plus a reduced-and-scaled term, recombined modulo the
/// characteristic, equals the reduction of the raw sum.
proof fn lemma_eval_step(acc: int, raw: int, c: nat, vv: int, xv: nat)
    requires
        acc == fmod(raw),
        xv == fmod(vv),
    ensures
        fmod(raw + c * vv) == fmod(acc + c * xv),
{
    let p = crate::field::MODULUS as int;
    lemma_mul_mod_noop_right(c as int, vv, p);
    lemma_add_mod_noop(raw, (c as nat * xv) as int, p);
    lemma_add_mod_noop(raw, c as int * vv, p);
    lemma_mod_twice(raw, p);
    lemma_mod_twice(c as int * vv, p);
    assert(fmod((c as nat * xv) as int) == fmod(c as int * vv));
    assert(fmod(acc + c * xv) == fmod(fmod(raw) as int + (c as nat * xv) as int));
    lemma_small_mod(fmod(raw), crate::field::MODULUS as nat);
}

impl ConstraintSystem {
    /// Evaluates a term list under the stored assignment, given the
    /// already-computed values of the first `lc_vals.len()` registered
    /// combinations.
    fn eval_terms(&self, ts: &Vec<(Fp, Variable)>, lc_vals: &Vec<u64>) -> (r: u64)
        requires
            self.wf(),
            self.is_complete(),
            lc_vals@.len() <= self.nl(),
            terms_wf(ts@, self.ni(), self.nw(), lc_vals@.len() as nat),
            forall|j: int|
                0 <= j < lc_vals@.len() ==> (#[trigger] lc_vals@[j]) as nat == fmod(
                    terms_val(
                        self.lc_table@,
                        self.wit_vals(),
                        self.inst_vals(),
                        self.lc_table@[j]@,
                        j as nat,
                    ),
                ) && lc_vals@[j] < crate::field::MODULUS,
        ensures
            r as nat == fmod(
                terms_val(
                    self.lc_table@,
                    self.wit_vals(),
                    self.inst_vals(),
                    ts@,
                    lc_vals@.len() as nat,
                ),
            ),
            r < crate::field::MODULUS,
    {
        let ghost table = self.lc_table@;
        let ghost wit = self.wit_vals();
        let ghost inst = self.inst_vals();
        let ghost bound = lc_vals@.len() as nat;
        let mut acc: u64 = 0;
        let mut t: usize = 0;
        proof {
            assert(ts@.subrange(0, 0) =~= Seq::<(Fp, Variable)>::empty());
            lemma_small_mod(0, crate::field::MODULUS as nat);
        }
        while t < ts.len()
            invariant
                t <= ts@.len(),
                self.wf(),
                self.is_complete(),
                lc_vals@.len() <= self.nl(),
                table == self.lc_table@,
                wit == self.wit_vals(),
                inst == self.inst_vals(),
                bound == lc_vals@.len() as nat,
                terms_wf(ts@, self.ni(), self.nw(), bound),
                forall|j: int|
                    0 <= j < lc_vals@.len() ==> (#[trigger] lc_vals@[j]) as nat == fmod(
                        terms_val(table, wit, inst, table[j]@, j as nat),
                    ) && lc_vals@[j] < crate::field::MODULUS,
                acc < crate::field::MODULUS,
                acc as nat == fmod(terms_val(table, wit, inst, ts@.subrange(0, t as int), bound)),
            decreases ts@.len() - t,
        {
            let (c, v) = ts[t];
            let xv: u64 = match v {
                Variable::One => 1,
                Variable::Instance(i) => {
                    proof {
                        assert(self.instance_assignment@[i as int] is Some);
                    }
                    self.instance_assignment[i].unwrap().as_u64()
                },
                Variable::Witness(i) => {
                    proof {
                        assert(self.witness_assignment@[i as int] is Some);
                    }
                    self.witness_assignment[i].unwrap().as_u64()
                },
                Variable::SymLc(j) => lc_vals[j],
            };
            proof {
                let vv = var_val(table, wit, inst, v, bound);
                assert(xv as nat == fmod(vv) && xv < crate::field::MODULUS) by {
                    match v {
                        Variable::One => {
                            lemma_small_mod(1, crate::field::MODULUS as nat);
                        },
                        Variable::Instance(i) => {
                            let stored = self.instance_assignment@[i as int];
                            assert(inst[i as int] == stored.unwrap()@);
                            lemma_small_mod(stored.unwrap()@, crate::field::MODULUS as nat);
                        },
                        Variable::Witness(i) => {
                            let stored = self.witness_assignment@[i as int];
                            assert(wit[i as int] == stored.unwrap()@);
                            lemma_small_mod(stored.unwrap()@, crate::field::MODULUS as nat);
                        },
                        Variable::SymLc(j) => {},
                    }
                };
                assert(c.valid()) by {
                    assert(ts@[t as int].0.valid() && var_wf(ts@[t as int].1, self.ni(), self.nw(), bound));
                };
            }
            let cu = c.as_u64();
            proof {
                assert(cu * xv <= 126 * 126) by (nonlinear_arith)
                    requires
                        cu <= 126,
                        xv <= 126,
                ;
            }
            let newacc = (acc + cu * xv) % crate::field::MODULUS;
            proof {
                let prefix = ts@.subrange(0, t as int);
                let prefix1 = ts@.subrange(0, t as int + 1);
                assert(prefix1.drop_last() =~= prefix);
                assert(prefix1.last() == ts@[t as int]);
                let vv = var_val(table, wit, inst, v, bound);
                assert(terms_val(table, wit, inst, prefix1, bound) == terms_val(
                    table,
                    wit,
                    inst,
                    prefix,
                    bound,
                ) + (c@ as int) * vv);
                lemma_eval_step(
                    acc as int,
                    terms_val(table, wit, inst, prefix, bound),
                    c@,
                    vv,
                    xv as nat,
                );
                vstd::arithmetic::div_mod::lemma_mod_bound(
                    (acc + cu * xv) as int,
                    crate::field::MODULUS as int,
                );
            }
            acc = newacc;
            t += 1;
        }
        proof {
            assert(ts@.subrange(0, ts@.len() as int) =~= ts@);
        }
        acc
    }

    /// Queries overall satisfiability: whether every enforced constraint
    /// holds under the stored assignment.  Errors when some base variable
    /// was allocated without a value.
    pub fn is_satisfied(&self) -> (r: Result<bool, SynthesisError>)
        requires
            self.wf(),
        ensures
            self.is_complete() ==> r == Ok::<bool, SynthesisError>(self.spec_satisfied()),
            !self.is_complete() ==> r == Err::<bool, SynthesisError>(
                SynthesisError::MissingWitness,
            ),
    {
        let ghost table = self.lc_table@;
        let ghost wit = self.wit_vals();
        let ghost inst = self.inst_vals();
        let mut i: usize = 0;
        while i < self.instance_assignment.len()
            invariant
                i <= self.instance_assignment@.len(),
                forall|j: int| 0 <= j < i ==> (#[trigger] self.instance_assignment@[j]) is Some,
            decreases self.instance_assignment@.len() - i,
        {
            if self.instance_assignment[i].is_none() {
                return Err(SynthesisError::MissingWitness);
            }
            i += 1;
        }
        let mut i: usize = 0;
        while i < self.witness_assignment.len()
            invariant
                i <= self.witness_assignment@.len(),
                forall|j: int| 0 <= j < i ==> (#[trigger] self.witness_assignment@[j]) is Some,
            decreases self.witness_assignment@.len() - i,
        {
            if self.witness_assignment[i].is_none() {
                return Err(SynthesisError::MissingWitness);
            }
            i += 1;
        }
        let mut lc_vals: Vec<u64> = Vec::new();
        let mut i: usize = 0;
        while i < self.lc_table.len()
            invariant
                self.wf(),
                self.is_complete(),
                table == self.lc_table@,
                wit == self.wit_vals(),
                inst == self.inst_vals(),
                i <= self.lc_table@.len(),
                lc_vals@.len() == i,
                forall|j: int|
                    0 <= j < i ==> (#[trigger] lc_vals@[j]) as nat == fmod(
                        terms_val(table, wit, inst, table[j]@, j as nat),
                    ) && lc_vals@[j] < crate::field::MODULUS,
            decreases self.lc_table@.len() - i,
        {
            proof {
                assert(terms_wf(self.lc_table@[i as int]@, self.ni(), self.nw(), i as nat));
            }
            let v = self.eval_terms(&self.lc_table[i].terms, &lc_vals);
            lc_vals.push(v);
            i += 1;
        }
        let mut ok = true;
        let mut k: usize = 0;
        while k < self.constraints.len()
            invariant
                self.wf(),
                self.is_complete(),
                table == self.lc_table@,
                wit == self.wit_vals(),
                inst == self.inst_vals(),
                k <= self.constraints@.len(),
                lc_vals@.len() == self.nl(),
                forall|j: int|
                    0 <= j < lc_vals@.len() ==> (#[trigger] lc_vals@[j]) as nat == fmod(
                        terms_val(table, wit, inst, table[j]@, j as nat),
                    ) && lc_vals@[j] < crate::field::MODULUS,
                ok == forall|j: int|
                    0 <= j < k ==> constraint_sat(table, wit, inst, #[trigger] self.constraints@[j]),
            decreases self.constraints@.len() - k,
        {
            let av = self.eval_terms(&self.constraints[k].a.terms, &lc_vals);
            let bv = self.eval_terms(&self.constraints[k].b.terms, &lc_vals);
            let cv = self.eval_terms(&self.constraints[k].c.terms, &lc_vals);
            proof {
                assert(av * bv <= 126 * 126) by (nonlinear_arith)
                    requires
                        av <= 126,
                        bv <= 126,
                ;
            }
            let sat_here = (av * bv) % crate::field::MODULUS == cv;
            proof {
                assert(sat_here == constraint_sat(table, wit, inst, self.constraints@[k as int]));
            }
            if !sat_here {
                ok = false;
                proof {
                    assert(!constraint_sat(table, wit, inst, self.constraints@[k as int]));
                }
            }
            k += 1;
        }
        Ok(ok)
    }
}

/// Prefixes compose.
proof fn lemma_prefix_trans<A>(s1: Seq<A>, s2: Seq<A>, s3: Seq<A>)
    requires
        s1.is_prefix_of(s2),
        s2.is_prefix_of(s3),
    ensures
        s1.is_prefix_of(s3),
{
    assert(s1 =~= s3.subrange(0, s1.len() as int)) by {
        assert forall|i: int| 0 <= i < s1.len() implies s1[i] == s3.subrange(
            0,
            s1.len() as int,
        )[i] by {
            assert(s1[i] == s2.subrange(0, s2.len() as int)[i]);
        };
    };
}

/// Whether a constraint already in place holds under the stored
/// assignment is unchanged by later growth of the arena.
pub proof fn lemma_constraint_sat_stored_frame(
    cs1: &ConstraintSystem,
    cs2: &ConstraintSystem,
    c: Constraint,
)
    requires
        cs1.wf(),
        cs2.extends(cs1),
        terms_wf(c.a@, cs1.ni(), cs1.nw(), cs1.nl()),
        terms_wf(c.b@, cs1.ni(), cs1.nw(), cs1.nl()),
        terms_wf(c.c@, cs1.ni(), cs1.nw(), cs1.nl()),
    ensures
        constraint_sat(cs2.lc_table@, cs2.wit_vals(), cs2.inst_vals(), c) == constraint_sat(
            cs1.lc_table@,
            cs1.wit_vals(),
            cs1.inst_vals(),
            c,
        ),
{
    lemma_stored_vals_prefix(cs1.witness_assignment@, cs2.witness_assignment@);
    lemma_stored_vals_prefix(cs1.instance_assignment@, cs2.instance_assignment@);
    lemma_terms_val_frame(
        cs1.lc_table@,
        cs2.lc_table@,
        cs1.wit_vals(),
        cs2.wit_vals(),
        cs1.inst_vals(),
        cs2.inst_vals(),
        c.a@,
        cs1.nl(),
        cs2.nl(),
    );
    lemma_terms_val_frame(
        cs1.lc_table@,
        cs2.lc_table@,
        cs1.wit_vals(),
        cs2.wit_vals(),
        cs1.inst_vals(),
        cs2.inst_vals(),
        c.b@,
        cs1.nl(),
        cs2.nl(),
    );
    lemma_terms_val_frame(
        cs1.lc_table@,
        cs2.lc_table@,
        cs1.wit_vals(),
        cs2.wit_vals(),
        cs1.inst_vals(),
        cs2.inst_vals(),
        c.c@,
        cs1.nl(),
        cs2.nl(),
    );
}

/// When no constraint was added, growing the arena changes nothing about
/// overall satisfaction under the stored assignment.
pub proof fn lemma_spec_satisfied_frame_eq(cs1: &ConstraintSystem, cs2: &ConstraintSystem)
    requires
        cs1.wf(),
        cs2.extends(cs1),
        cs2.constraints@ == cs1.constraints@,
    ensures
        cs2.spec_satisfied() == cs1.spec_satisfied(),
{
    assert forall|k: int|
        0 <= k < cs2.constraints@.len() implies constraint_sat(
        cs2.lc_table@,
        cs2.wit_vals(),
        cs2.inst_vals(),
        #[trigger] cs2.constraints@[k],
    ) == constraint_sat(
        cs1.lc_table@,
        cs1.wit_vals(),
        cs1.inst_vals(),
        cs1.constraints@[k],
    ) by {
        assert(cs2.constraints@[k] == cs1.constraints@[k]);
        lemma_constraint_sat_stored_frame(cs1, cs2, cs1.constraints@[k]);
    };
    if cs1.spec_satisfied() {
        assert forall|k: int|
            0 <= k < cs2.constraints@.len() implies constraint_sat(
            cs2.lc_table@,
            cs2.wit_vals(),
            cs2.inst_vals(),
            #[trigger] cs2.constraints@[k],
        ) by {
            assert(constraint_sat(
                cs1.lc_table@,
                cs1.wit_vals(),
                cs1.inst_vals(),
                cs1.constraints@[k],
            ));
        };
    }
    if cs2.spec_satisfied() {
        assert forall|k: int|
            0 <= k < cs1.constraints@.len() implies constraint_sat(
            cs1.lc_table@,
            cs1.wit_vals(),
            cs1.inst_vals(),
            #[trigger] cs1.constraints@[k],
        ) by {
            assert(constraint_sat(
                cs2.lc_table@,
                cs2.wit_vals(),
                cs2.inst_vals(),
                cs2.constraints@[k],
            ));
        };
    }
}

/// If everything held so far and every newly enforced constraint holds
/// under the stored assignment of the grown arena, everything holds.
pub proof fn lemma_spec_satisfied_extend(cs1: &ConstraintSystem, cs2: &ConstraintSystem)
    requires
        cs1.wf(),
        cs2.extends(cs1),
        cs1.spec_satisfied(),
        forall|k: int|
            cs1.nc() <= k < cs2.nc() ==> constraint_sat(
                cs2.lc_table@,
                cs2.wit_vals(),
                cs2.inst_vals(),
                #[trigger] cs2.constraints@[k],
            ),
    ensures
        cs2.spec_satisfied(),
{
    assert forall|k: int|
        0 <= k < cs2.constraints@.len() implies constraint_sat(
        cs2.lc_table@,
        cs2.wit_vals(),
        cs2.inst_vals(),
        #[trigger] cs2.constraints@[k],
    ) by {
        if k < cs1.nc() {
            assert(cs2.constraints@[k] == cs1.constraints@[k]);
            assert(constraint_sat(
                cs1.lc_table@,
                cs1.wit_vals(),
                cs1.inst_vals(),
                cs1.constraints@[k],
            ));
            lemma_constraint_sat_stored_frame(cs1, cs2, cs1.constraints@[k]);
        }
    };
}

/// Arena extension composes.
pub proof fn lemma_extends_trans(
    c3: &ConstraintSystem,
    c2: &ConstraintSystem,
    c1: &ConstraintSystem,
)
    requires
        c3.extends(c2),
        c2.extends(c1),
    ensures
        c3.extends(c1),
{
    lemma_prefix_trans(c1.lc_table@, c2.lc_table@, c3.lc_table@);
    lemma_prefix_trans(c1.witness_assignment@, c2.witness_assignment@, c3.witness_assignment@);
    lemma_prefix_trans(c1.instance_assignment@, c2.instance_assignment@, c3.instance_assignment@);
    lemma_prefix_trans(c1.constraints@, c2.constraints@, c3.constraints@);
}

} // verus!
