//! Bit decomposition of field elements.
//!
//! [`AllocatedFp::to_non_unique_bits_le`] decomposes a value into
//! little-endian boolean variables tied together by one linear identity
//! that reconstructs the value as a weighted sum of powers of two.  It
//! deliberately does not rule out a decomposition that wraps past the
//! modulus: that cheaper, non-unique form is enough for callers who only
//! need bit-level information.  [`AllocatedFp::to_bits_le`] additionally
//! asserts canonicity.  With a Mersenne modulus the canonical form is
//! exactly "not all bits set", which one inverse-witness constraint
//! `(b_0 + … + b_6 - 7) * m = 1` enforces.

use vstd::prelude::*;
use vstd::arithmetic::div_mod::{
    lemma_breakdown, lemma_div_denominator, lemma_mod_bound, lemma_mod_multiples_basic,
    lemma_small_mod,
};
use crate::boolean::{bool_to_nat, AllocatedBool, Boolean};
use crate::cs::{
    constraint_sat, terms_val, terms_wf, var_val, var_wf, vval, ConstraintSystem, LinComb,
    Variable,
};
use crate::field::{f_mul, f_neg, f_sub, fmod, Fp, MODULUS, MODULUS_BITS};
use crate::field_element::{AllocationMode, FpVar};
use crate::fp_var::AllocatedFp;
use crate::SynthesisError;

verus! {

/// The power of two with the given exponent.
pub open spec fn two_pow(i: nat) -> nat
    decreases i,
{
    if i == 0 {
        1
    } else {
        2 * two_pow((i - 1) as nat)
    }
}

/// Powers of two are positive.
pub proof fn lemma_two_pow_pos(i: nat)
    ensures
        two_pow(i) >= 1,
    decreases i,
{
    if i > 0 {
        lemma_two_pow_pos((i - 1) as nat);
    }
}

/// The low powers of two, spelled out.
pub proof fn lemma_two_pow_small(i: nat)
    requires
        i <= 6,
    ensures
        two_pow(i) <= 64,
{
    assert(two_pow(0) == 1);
    assert(two_pow(1) == 2);
    assert(two_pow(2) == 4);
    assert(two_pow(3) == 8);
    assert(two_pow(4) == 16);
    assert(two_pow(5) == 32);
    assert(two_pow(6) == 64);
    if i == 0 {
    } else if i == 1 {
    } else if i == 2 {
    } else if i == 3 {
    } else if i == 4 {
    } else if i == 5 {
    }
}

/// The bit of `v` at position `i`, little-endian.
pub open spec fn nth_bit(v: nat, i: nat) -> bool {
    (v / two_pow(i)) % 2 == 1
}

/// This module's power-of-two function agrees with the library's.
pub proof fn lemma_two_pow_is_pow2(n: nat)
    ensures
        two_pow(n) == vstd::arithmetic::power2::pow2(n),
    decreases n,
{
    if n == 0 {
        vstd::arithmetic::power2::lemma2_to64();
    } else {
        lemma_two_pow_is_pow2((n - 1) as nat);
        vstd::arithmetic::power2::lemma_pow2_unfold(n);
    }
}

/// The sixty-third power of two, spelled out.
pub proof fn lemma_two_pow_63()
    ensures
        two_pow(63) == 0x8000_0000_0000_0000,
{
    lemma_two_pow_is_pow2(63);
    vstd::arithmetic::power2::lemma2_to64_rest();
}

/// The number of set bits among the first `n` bit positions of `v`.
pub open spec fn bits_weight(v: nat, n: nat) -> nat
    decreases n,
{
    if n == 0 {
        0
    } else {
        bits_weight(v, (n - 1) as nat) + bool_to_nat(nth_bit(v, (n - 1) as nat))
    }
}

/// The weighted sum of the first `k` bits of `v`.
pub open spec fn bit_sum(v: nat, k: nat) -> nat
    decreases k,
{
    if k == 0 {
        0
    } else {
        bit_sum(v, (k - 1) as nat) + bool_to_nat(nth_bit(v, (k - 1) as nat)) * two_pow(
            (k - 1) as nat,
        )
    }
}

/// The weighted bit sum reconstructs the value modulo the corresponding
/// power of two.
pub proof fn lemma_bit_sum_mod(v: nat, k: nat)
    ensures
        bit_sum(v, k) == v % two_pow(k),
    decreases k,
{
    lemma_two_pow_pos(k);
    if k == 0 {
        lemma_mod_multiples_basic(v as int, 1);
    } else {
        let h = (k - 1) as nat;
        lemma_bit_sum_mod(v, h);
        lemma_two_pow_pos(h);
        lemma_breakdown(v as int, two_pow(h) as int, 2);
        assert(two_pow(k) == two_pow(h) * 2);
        lemma_mod_bound((v / two_pow(h)) as int, 2);
        assert(bool_to_nat(nth_bit(v, h)) == (v / two_pow(h)) % 2);
        assert(v % (two_pow(h) * 2) == two_pow(h) * ((v / two_pow(h)) % 2) + v % two_pow(h));
        vstd::arithmetic::mul::lemma_mul_is_commutative(
            two_pow(h) as int,
            ((v / two_pow(h)) % 2) as int,
        );
    }
}

/// The bit round trip: every canonical residue is recovered exactly from
/// its little-endian bit decomposition by the weighted bit sum.
pub proof fn lemma_bits_round_trip(v: nat)
    requires
        v < MODULUS as nat,
    ensures
        bit_sum(v, MODULUS_BITS as nat) == v,
{
    lemma_bit_sum_mod(v, MODULUS_BITS as nat);
    assert(two_pow(0) == 1);
    assert(two_pow(1) == 2);
    assert(two_pow(2) == 4);
    assert(two_pow(3) == 8);
    assert(two_pow(4) == 16);
    assert(two_pow(5) == 32);
    assert(two_pow(6) == 64);
    assert(two_pow(7) == 128);
    lemma_small_mod(v, 128);
}

/// No more bits can be set than are counted.
proof fn lemma_weight_bound(v: nat, n: nat)
    ensures
        bits_weight(v, n) <= n,
    decreases n,
{
    if n > 0 {
        lemma_weight_bound(v, (n - 1) as nat);
    }
}

/// A full count means every counted bit is set.
proof fn lemma_full_weight_all_set(v: nat, n: nat)
    requires
        bits_weight(v, n) == n,
    ensures
        forall|j: nat| j < n ==> nth_bit(v, j),
    decreases n,
{
    if n > 0 {
        lemma_weight_bound(v, (n - 1) as nat);
        assert(nth_bit(v, (n - 1) as nat));
        lemma_full_weight_all_set(v, (n - 1) as nat);
    }
}

/// With every bit set, the weighted bit sum is one below the next power
/// of two.
proof fn lemma_all_set_bit_sum(v: nat, n: nat)
    requires
        forall|j: nat| j < n ==> nth_bit(v, j),
    ensures
        bit_sum(v, n) == two_pow(n) - 1,
    decreases n,
{
    if n > 0 {
        lemma_all_set_bit_sum(v, (n - 1) as nat);
        assert(nth_bit(v, (n - 1) as nat));
        vstd::arithmetic::mul::lemma_mul_basics(two_pow((n - 1) as nat) as int);
    }
}

/// A canonical residue never has all of its bits set: its bit count
/// stays below the bit width.
proof fn lemma_weight_below_width(v: nat)
    requires
        v < MODULUS as nat,
    ensures
        bits_weight(v, MODULUS_BITS as nat) < MODULUS_BITS,
{
    lemma_weight_bound(v, MODULUS_BITS as nat);
    if bits_weight(v, MODULUS_BITS as nat) == MODULUS_BITS {
        lemma_full_weight_all_set(v, MODULUS_BITS as nat);
        lemma_all_set_bit_sum(v, MODULUS_BITS as nat);
        lemma_bits_round_trip(v);
        assert(two_pow(0) == 1);
        assert(two_pow(1) == 2);
        assert(two_pow(2) == 4);
        assert(two_pow(3) == 8);
        assert(two_pow(4) == 16);
        assert(two_pow(5) == 32);
        assert(two_pow(6) == 64);
        assert(two_pow(7) == 128);
        assert(false);
    }
}

/// A term list pairing the unit coefficient with variables carrying the
/// bits of `v` evaluates, reduced, to the bit count.
proof fn lemma_ones_terms_val(
    table: Seq<LinComb>,
    wit: Seq<nat>,
    inst: Seq<nat>,
    terms: Seq<(Fp, Variable)>,
    v: nat,
)
    requires
        terms.len() <= MODULUS_BITS,
        forall|k: int|
            0 <= k < terms.len() ==> (#[trigger] terms[k]).0@ == 1 && vval(
                table,
                wit,
                inst,
                terms[k].1,
            ) == bool_to_nat(nth_bit(v, k as nat)),
    ensures
        fmod(terms_val(table, wit, inst, terms, table.len() as nat)) == bits_weight(
            v,
            terms.len() as nat,
        ),
    decreases terms.len(),
{
    let p = MODULUS as int;
    if terms.len() == 0 {
        lemma_small_mod(0, MODULUS as nat);
    } else {
        let td = terms.drop_last();
        assert forall|k: int|
            0 <= k < td.len() implies (#[trigger] td[k]).0@ == 1 && vval(
            table,
            wit,
            inst,
            td[k].1,
        ) == bool_to_nat(nth_bit(v, k as nat)) by {
            assert(td[k] == terms[k]);
        };
        lemma_ones_terms_val(table, wit, inst, td, v);
        let n = (terms.len() - 1) as nat;
        let vv = var_val(table, wit, inst, terms.last().1, table.len() as nat);
        assert(terms[terms.len() - 1].0@ == 1 && vval(table, wit, inst, terms[terms.len() - 1].1)
            == bool_to_nat(nth_bit(v, n)));
        assert(terms_val(table, wit, inst, terms, table.len() as nat) == terms_val(
            table,
            wit,
            inst,
            td,
            table.len() as nat,
        ) + 1 * vv);
        vstd::arithmetic::div_mod::lemma_add_mod_noop(
            terms_val(table, wit, inst, td, table.len() as nat),
            vv,
            p,
        );
        lemma_weight_bound(v, terms.len() as nat);
        lemma_small_mod(bits_weight(v, terms.len() as nat), MODULUS as nat);
        lemma_small_mod(bits_weight(v, n), MODULUS as nat);
        vstd::arithmetic::div_mod::lemma_add_mod_noop(
            bits_weight(v, n) as int,
            bool_to_nat(nth_bit(v, n)) as int,
            p,
        );
        lemma_small_mod(bool_to_nat(nth_bit(v, n)), MODULUS as nat);
    }
}

/// The canonicity constraint of the decomposition is satisfied whenever
/// the bit variables carry the bits of a canonical residue and the
/// inverse witness carries the inverse of the bit count minus seven.
proof fn lemma_canonicity_constraint_sat(
    t2: Seq<LinComb>,
    fw: Seq<nat>,
    fi: Seq<nat>,
    con: crate::cs::Constraint,
    ones_terms: Seq<(Fp, Variable)>,
    neg_seven: Fp,
    one: Fp,
    mvar: Variable,
    v: nat,
)
    requires
        v < MODULUS as nat,
        one@ == 1,
        neg_seven@ == (MODULUS - 7) as nat,
        con.a@.len() == ones_terms.len() + 1,
        con.a@.drop_last() == ones_terms,
        con.a@.last() == (neg_seven, Variable::One),
        con.b@ == seq![(one, mvar)],
        con.c@ == seq![(one, Variable::One)],
        ones_terms.len() == MODULUS_BITS,
        forall|k: int|
            0 <= k < ones_terms.len() ==> (#[trigger] ones_terms[k]).0@ == 1 && vval(
                t2,
                fw,
                fi,
                ones_terms[k].1,
            ) == bool_to_nat(nth_bit(v, k as nat)),
        vval(t2, fw, fi, mvar) == crate::field::f_inv(
            crate::field::f_sub(bits_weight(v, MODULUS_BITS as nat), 7),
        ),
    ensures
        constraint_sat(t2, fw, fi, con),
{
    let p = MODULUS as int;
    let weight = bits_weight(v, MODULUS_BITS as nat);
    lemma_weight_bound(v, MODULUS_BITS as nat);
    lemma_weight_below_width(v);
    lemma_ones_terms_val(t2, fw, fi, ones_terms, v);
    assert(var_val(t2, fw, fi, Variable::One, t2.len() as nat) == 1);
    assert(terms_val(t2, fw, fi, con.a@, t2.len() as nat) == terms_val(
        t2,
        fw,
        fi,
        ones_terms,
        t2.len() as nat,
    ) + (neg_seven@ as int) * 1);
    assert(fmod(terms_val(t2, fw, fi, con.a@, t2.len() as nat)) == crate::field::f_sub(
        weight,
        7,
    )) by {
        vstd::arithmetic::div_mod::lemma_add_mod_noop(
            terms_val(t2, fw, fi, ones_terms, t2.len() as nat),
            (neg_seven@ as int) * 1,
            p,
        );
        lemma_small_mod(weight, MODULUS as nat);
        lemma_small_mod(neg_seven@, MODULUS as nat);
        vstd::arithmetic::div_mod::lemma_mod_add_multiples_vanish(weight - 7, p);
        assert(weight + neg_seven@ == weight - 7 + p);
    };
    let d = crate::field::f_sub(weight, 7);
    crate::eq::lemma_f_sub_nonzero(weight, 7);
    crate::field::lemma_f_ops_bounded(weight, 7);
    crate::fp_var::lemma_one_term_val(t2, fw, fi, one, mvar, t2.len() as nat);
    crate::field::lemma_f_inv_property(d);
    crate::fp_var::lemma_one_term_val(t2, fw, fi, one, Variable::One, t2.len() as nat);
    lemma_small_mod(1, MODULUS as nat);
    vstd::arithmetic::div_mod::lemma_mod_twice(var_val(t2, fw, fi, mvar, t2.len() as nat), p);
}

/// Adding the negated-seven constant subtracts seven in the field.
proof fn lemma_count_shift(c: int)
    ensures
        fmod(c + ((MODULUS - 7) as int)) == f_sub(fmod(c), 7),
{
    let p = MODULUS as int;
    vstd::arithmetic::div_mod::lemma_mod_add_multiples_vanish(c - 7, p);
    vstd::arithmetic::div_mod::lemma_sub_mod_noop(c, 7, p);
    lemma_small_mod(7, MODULUS as nat);
}

/// A value plus its field negation reduces to zero.
proof fn lemma_add_neg_zero(v: nat)
    requires
        v < MODULUS as nat,
    ensures
        fmod((v + f_neg(v)) as int) == 0,
{
    lemma_small_mod(0, MODULUS as nat);
    if v == 0 {
        assert(f_neg(0) == 0) by {
            lemma_small_mod(0, MODULUS as nat);
        };
    } else {
        assert(f_neg(v) == (MODULUS - v) as nat) by {
            vstd::arithmetic::div_mod::lemma_mod_add_multiples_vanish(0 - v as int, MODULUS as int);
            lemma_small_mod((MODULUS - v) as nat, MODULUS as nat);
        };
        assert(v + f_neg(v) == MODULUS as nat);
        vstd::arithmetic::div_mod::lemma_mod_self_0(MODULUS as int);
    }
}

/// A term list pairing each power of two with a variable carrying the
/// matching bit of `v` evaluates, reduced, to the weighted bit sum.
proof fn lemma_weighted_bits_terms_val(
    table: Seq<LinComb>,
    wit: Seq<nat>,
    inst: Seq<nat>,
    terms: Seq<(Fp, Variable)>,
    v: nat,
)
    requires
        terms.len() <= MODULUS_BITS,
        forall|k: int|
            0 <= k < terms.len() ==> (#[trigger] terms[k]).0@ == two_pow(k as nat) && vval(
                table,
                wit,
                inst,
                terms[k].1,
            ) == bool_to_nat(nth_bit(v, k as nat)),
    ensures
        fmod(terms_val(table, wit, inst, terms, table.len() as nat)) == fmod(
            bit_sum(v, terms.len()) as int,
        ),
    decreases terms.len(),
{
    let p = MODULUS as int;
    if terms.len() == 0 {
        lemma_small_mod(0, MODULUS as nat);
    } else {
        let td = terms.drop_last();
        assert forall|k: int|
            0 <= k < td.len() implies (#[trigger] td[k]).0@ == two_pow(k as nat) && vval(
            table,
            wit,
            inst,
            td[k].1,
        ) == bool_to_nat(nth_bit(v, k as nat)) by {
            assert(td[k] == terms[k]);
        };
        lemma_weighted_bits_terms_val(table, wit, inst, td, v);
        let n = (terms.len() - 1) as nat;
        let c = terms.last().0;
        let vv = var_val(table, wit, inst, terms.last().1, table.len() as nat);
        assert(terms[terms.len() - 1].0@ == two_pow(n) && vval(table, wit, inst, terms[terms.len()
            - 1].1) == bool_to_nat(nth_bit(v, n)));
        assert(terms_val(table, wit, inst, terms, table.len() as nat) == terms_val(
            table,
            wit,
            inst,
            td,
            table.len() as nat,
        ) + (c@ as int) * vv);
        lemma_two_pow_small(n);
        vstd::arithmetic::div_mod::lemma_mul_mod_noop_right(c@ as int, vv, p);
        assert(fmod((c@ as nat * bool_to_nat(nth_bit(v, n))) as int) == c@ as nat * bool_to_nat(
            nth_bit(v, n),
        )) by {
            vstd::arithmetic::mul::lemma_mul_basics(c@ as int);
            vstd::arithmetic::mul::lemma_mul_by_zero_is_zero(c@ as int);
            lemma_small_mod(c@ as nat * bool_to_nat(nth_bit(v, n)), MODULUS as nat);
        };
        vstd::arithmetic::div_mod::lemma_add_mod_noop(
            terms_val(table, wit, inst, td, table.len() as nat),
            (c@ as int) * vv,
            p,
        );
        crate::field::lemma_f_add_fmod_left(
            bit_sum(v, n as nat) as int,
            (c@ as nat * bool_to_nat(nth_bit(v, n))) as nat,
        );
        vstd::arithmetic::div_mod::lemma_add_mod_noop(
            bit_sum(v, n) as int,
            (c@ as nat * bool_to_nat(nth_bit(v, n))) as int,
            p,
        );
        assert(bit_sum(v, terms.len() as nat) == bit_sum(v, n) + bool_to_nat(nth_bit(v, n))
            * two_pow(n));
        vstd::arithmetic::mul::lemma_mul_is_commutative(
            bool_to_nat(nth_bit(v, n)) as int,
            two_pow(n) as int,
        );
    }
}

impl AllocatedFp {
    /// Decomposes the value into little-endian boolean variables, one per
    /// bit position, each carrying a booleanity constraint, plus one
    /// linear identity reconstructing the value as the weighted bit sum.
    ///
    /// The decomposition is not forced to be canonical: an assignment
    /// whose weighted sum wraps past the modulus also satisfies the
    /// identity.  That gap is deliberate; see [`Self::to_bits_le`].
    #[verifier::rlimit(100)]
    pub fn to_non_unique_bits_le(&self, cs: &mut ConstraintSystem) -> (r: Result<
        Vec<Boolean>,
        SynthesisError,
    >)
        requires
            old(cs).wf(),
            self.wf(old(cs)),
        ensures
            final(cs).wf(),
            final(cs).extends(old(cs)),
            final(cs).nc() == old(cs).nc() + MODULUS_BITS + 1,
            final(cs).nw() == old(cs).nw() + MODULUS_BITS,
            final(cs).nl() == old(cs).nl(),
            final(cs).ni() == old(cs).ni(),
            r matches Ok(bits) && {
                &&& bits@.len() == MODULUS_BITS
                &&& forall|i: int|
                    0 <= i < bits@.len() ==> ((#[trigger] bits@[i]) matches Boolean::Is(ab)
                        && ab.wf(final(cs)) && ab.tracks(final(cs)) && ab.value == (
                    match self.witness {
                        Option::Some(w) => Option::Some(nth_bit(w@, i as nat)),
                        Option::None => Option::None::<bool>,
                    }))
            },
            (self.witness is Some && self.tracks(old(cs))) ==> (forall|k: int|
                old(cs).nc() <= k < final(cs).nc() ==> constraint_sat(
                    final(cs).lc_table@,
                    final(cs).wit_vals(),
                    final(cs).inst_vals(),
                    #[trigger] final(cs).constraints@[k],
                )),
            r matches Ok(bits) ==> (forall|j: int, wit: Seq<nat>, inst: Seq<nat>|
                old(cs).nc() <= j < old(cs).nc() + MODULUS_BITS ==> (#[trigger] constraint_sat(
                    final(cs).lc_table@,
                    wit,
                    inst,
                    final(cs).constraints@[j],
                ) <==> f_mul(
                    vval(
                        final(cs).lc_table@,
                        wit,
                        inst,
                        bit_variable(bits@[j - old(cs).nc()]),
                    ),
                    f_sub(
                        1,
                        vval(
                            final(cs).lc_table@,
                            wit,
                            inst,
                            bit_variable(bits@[j - old(cs).nc()]),
                        ),
                    ),
                ) == 0)),
            r matches Ok(bits) ==> (forall|wit: Seq<nat>, inst: Seq<nat>|
                #[trigger] constraint_sat(
                    final(cs).lc_table@,
                    wit,
                    inst,
                    final(cs).constraints@[old(cs).nc() + MODULUS_BITS],
                ) <==> fmod(bits_weighted_vval(final(cs).lc_table@, wit, inst, bits@)) == vval(
                    final(cs).lc_table@,
                    wit,
                    inst,
                    self.variable,
                )),
    {
        let mut bits: Vec<Boolean> = Vec::new();
        let mut rem: u64 = match self.witness {
            Option::Some(w) => w.as_u64(),
            Option::None => 0,
        };
        proof {
            if self.witness is Some {
                vstd::arithmetic::div_mod::lemma_div_basics(self.wit_nat() as int);
            }
        }
        let mut i: usize = 0;
        while i < MODULUS_BITS
            invariant
                i <= MODULUS_BITS,
                old(cs).wf(),
                cs.wf(),
                cs.extends(old(cs)),
                cs.nc() == old(cs).nc() + i,
                cs.nw() == old(cs).nw() + i,
                cs.nl() == old(cs).nl(),
                cs.ni() == old(cs).ni(),
                self.wf(old(cs)),
                self.witness matches Option::Some(w) ==> rem as nat == w@ / two_pow(i as nat),
                bits@.len() == i,
                forall|j: int|
                    0 <= j < i ==> ((#[trigger] bits@[j]) matches Boolean::Is(ab) && ab.wf(cs)
                        && ab.tracks(cs) && ab.value == (match self.witness {
                        Option::Some(w) => Option::Some(nth_bit(w@, j as nat)),
                        Option::None => Option::None::<bool>,
                    })),
                self.witness is Some ==> (forall|k: int|
                    old(cs).nc() <= k < cs.nc() ==> constraint_sat(
                        cs.lc_table@,
                        cs.wit_vals(),
                        cs.inst_vals(),
                        #[trigger] cs.constraints@[k],
                    )),
                forall|j: int, wit: Seq<nat>, inst: Seq<nat>|
                    old(cs).nc() <= j < cs.nc() ==> (#[trigger] constraint_sat(
                        cs.lc_table@,
                        wit,
                        inst,
                        cs.constraints@[j],
                    ) <==> f_mul(
                        vval(cs.lc_table@, wit, inst, bit_variable(bits@[j - old(cs).nc()])),
                        f_sub(
                            1,
                            vval(
                                cs.lc_table@,
                                wit,
                                inst,
                                bit_variable(bits@[j - old(cs).nc()]),
                            ),
                        ),
                    ) == 0),
            decreases MODULUS_BITS - i,
        {
            let bit_value: Option<bool> = match self.witness {
                Option::Some(_) => Option::Some(rem % 2 == 1),
                Option::None => Option::None,
            };
            let ghost before = *cs;
            let ghost old_bits = bits@;
            let ab = AllocatedBool::new_witness(cs, bit_value);
            bits.push(Boolean::Is(ab));
            proof {
                if let Option::Some(w) = self.witness {
                    assert(rem % 2 == 1 <==> nth_bit(w@, i as nat));
                }
                assert forall|j: int|
                    0 <= j < bits@.len() implies (#[trigger] bits@[j]) matches Boolean::Is(ab2)
                    && ab2.wf(cs) && ab2.tracks(cs) && ab2.value == (match self.witness {
                    Option::Some(w) => Option::Some(nth_bit(w@, j as nat)),
                    Option::None => Option::None::<bool>,
                }) by {
                    if j < old_bits.len() {
                        assert(bits@[j] == old_bits[j]);
                        assert(old_bits[j] matches Boolean::Is(ab3) && ab3.wf(&before)
                            && ab3.tracks(&before));
                        if let Boolean::Is(ab3) = old_bits[j] {
                            if ab3.value is Some {
                                crate::cs::lemma_val_extends(&before, cs, ab3.variable);
                            }
                        }
                    } else {
                        assert(bits@[j] == Boolean::Is(ab));
                    }
                };
                assert forall|j: int, wit: Seq<nat>, inst: Seq<nat>|
                    old(cs).nc() <= j < cs.nc() implies (#[trigger] constraint_sat(
                    cs.lc_table@,
                    wit,
                    inst,
                    cs.constraints@[j],
                ) <==> f_mul(
                    vval(cs.lc_table@, wit, inst, bit_variable(bits@[j - old(cs).nc()])),
                    f_sub(
                        1,
                        vval(cs.lc_table@, wit, inst, bit_variable(bits@[j - old(cs).nc()])),
                    ),
                ) == 0) by {
                    assert(cs.lc_table@ == before.lc_table@);
                    if j < before.nc() {
                        assert(cs.constraints@[j] == before.constraints@[j]);
                        assert(bits@[j - old(cs).nc()] == old_bits[j - old(cs).nc()]);
                    } else {
                        assert(cs.constraints@[j] == cs.constraints@.last());
                        assert(bits@[j - old(cs).nc()] == Boolean::Is(ab));
                        assert(bit_variable(bits@[j - old(cs).nc()]) == ab.variable);
                    }
                };
                if self.witness is Some {
                    assert forall|k: int|
                        old(cs).nc() <= k < cs.nc() implies constraint_sat(
                        cs.lc_table@,
                        cs.wit_vals(),
                        cs.inst_vals(),
                        #[trigger] cs.constraints@[k],
                    ) by {
                        if k < before.nc() {
                            assert(cs.constraints@[k] == before.constraints@[k]);
                            assert(constraint_sat(
                                before.lc_table@,
                                before.wit_vals(),
                                before.inst_vals(),
                                before.constraints@[k],
                            ));
                            crate::cs::lemma_constraint_sat_stored_frame(
                                &before,
                                cs,
                                before.constraints@[k],
                            );
                        } else {
                            assert(cs.constraints@[k] == cs.constraints@.last());
                            let bvn = crate::boolean::bool_to_nat(ab.value.unwrap());
                            assert(ab.tracks(cs));
                            assert(vval(cs.lc_table@, cs.wit_vals(), cs.inst_vals(), ab.variable)
                                == bvn);
                            if ab.value.unwrap() {
                                assert(crate::field::f_sub(1, 1) == 0) by {
                                    lemma_small_mod(0, MODULUS as nat);
                                };
                                crate::eq::lemma_f_mul_zero(1);
                            } else {
                                crate::eq::lemma_f_mul_zero(crate::field::f_sub(1, 0));
                            }
                        }
                    };
                }
                if let Option::Some(w) = self.witness {
                    lemma_two_pow_pos(i as nat);
                    lemma_div_denominator(w@ as int, two_pow(i as nat) as int, 2);
                    assert(two_pow((i + 1) as nat) == two_pow(i as nat) * 2) by {
                        vstd::arithmetic::mul::lemma_mul_is_commutative(
                            2,
                            two_pow(i as nat) as int,
                        );
                    };
                }
            }
            rem = rem / 2;
            i += 1;
        }
        // The linear identity: the weighted bit sum equals the value.
        let one = Fp::one();
        let neg_one = one.neg_fp();
        let mut terms: Vec<(Fp, Variable)> = Vec::new();
        let mut coeff = Fp::one();
        let ghost two_j: nat = 1;
        let mut j: usize = 0;
        proof {
            assert(two_pow(0) == 1);
        }
        while j < MODULUS_BITS
            invariant
                j <= MODULUS_BITS,
                cs.wf(),
                coeff.valid(),
                two_j == two_pow(j as nat),
                j < MODULUS_BITS ==> coeff@ == two_j,
                bits@.len() == MODULUS_BITS,
                forall|k: int|
                    0 <= k < bits@.len() ==> ((#[trigger] bits@[k]) matches Boolean::Is(ab)
                        && ab.wf(cs)),
                terms@.len() == j,
                terms_wf(terms@, cs.ni(), cs.nw(), cs.nl()),
                forall|k: int|
                    0 <= k < j ==> (#[trigger] terms@[k]).0@ == two_pow(k as nat) && (
                    bits@[k] matches Boolean::Is(ab) && terms@[k].1 == ab.variable),
            decreases MODULUS_BITS - j,
        {
            let var = match bits[j] {
                Boolean::Is(ab) => ab.variable,
                _ => Variable::One,
            };
            let ghost old_terms = terms@;
            terms.push((coeff, var));
            proof {
                assert forall|k: int|
                    0 <= k < terms@.len() implies (#[trigger] terms@[k]).0.valid() && var_wf(
                    terms@[k].1,
                    cs.ni(),
                    cs.nw(),
                    cs.nl(),
                ) by {
                    if k < old_terms.len() {
                        assert(terms@[k] == old_terms[k]);
                    }
                };
                assert forall|k: int|
                    0 <= k < terms@.len() implies (#[trigger] terms@[k]).0@ == two_pow(k as nat)
                    && (bits@[k] matches Boolean::Is(ab) && terms@[k].1 == ab.variable) by {
                    if k < old_terms.len() {
                        assert(terms@[k] == old_terms[k]);
                    } else {
                        assert(terms@[k] == (coeff, var));
                        assert(bits@[j as int] matches Boolean::Is(ab) && ab.wf(cs));
                    }
                };
                if j + 1 < MODULUS_BITS {
                    lemma_two_pow_small((j + 1) as nat);
                    lemma_small_mod((2 * two_j) as nat, MODULUS as nat);
                }
                two_j = 2 * two_j;
            }
            coeff = coeff.add_fp(&coeff);
            j += 1;
        }
        let ghost old_terms = terms@;
        terms.push((neg_one, self.variable));
        proof {
            assert(self.wf(cs)) by {
                assert(self.wf(old(cs)));
            };
            assert forall|k: int|
                0 <= k < terms@.len() implies (#[trigger] terms@[k]).0.valid() && var_wf(
                terms@[k].1,
                cs.ni(),
                cs.nw(),
                cs.nl(),
            ) by {
                if k < old_terms.len() {
                    assert(terms@[k] == old_terms[k]);
                }
            };
        }
        let ghost before_con = *cs;
        let ghost full_terms = terms@;
        cs.enforce_constraint(
            LinComb { terms: Vec::new() },
            LinComb { terms: Vec::new() },
            LinComb { terms },
        );
        proof {
            crate::cs::lemma_extends_trans(final(cs), &before_con, old(cs));
            let t2f = final(cs).lc_table@;
            assert(neg_one@ == (MODULUS - 1) as nat) by {
                vstd::arithmetic::div_mod::lemma_mod_add_multiples_vanish(0 - 1int, MODULUS as int);
                lemma_small_mod((MODULUS - 1) as nat, MODULUS as nat);
                lemma_small_mod(1, MODULUS as nat);
            };
            assert forall|wit: Seq<nat>, inst: Seq<nat>|
                #[trigger] constraint_sat(
                t2f,
                wit,
                inst,
                final(cs).constraints@[old(cs).nc() + MODULUS_BITS],
            ) <==> fmod(bits_weighted_vval(t2f, wit, inst, bits@)) == vval(
                t2f,
                wit,
                inst,
                self.variable,
            ) by {
                let con = final(cs).constraints@[old(cs).nc() + MODULUS_BITS];
                assert(con == final(cs).constraints@.last());
                assert(con.a@.len() == 0);
                assert(con.b@.len() == 0);
                assert(con.c@ == full_terms);
                lemma_small_mod(0, MODULUS as nat);
                assert(terms_val(t2f, wit, inst, con.a@, t2f.len() as nat) == 0);
                assert(terms_val(t2f, wit, inst, con.b@, t2f.len() as nat) == 0);
                assert(f_mul(0, 0) == 0);
                assert(full_terms.drop_last() =~= old_terms);
                assert(full_terms.last() == (neg_one, self.variable));
                assert forall|k: int|
                    0 <= k < old_terms.len() implies (#[trigger] old_terms[k]).0@ == two_pow(
                    k as nat,
                ) && old_terms[k].1 == bit_variable(bits@[k]) by {
                    assert(old_terms[k].0@ == two_pow(k as nat) && (
                    bits@[k] matches Boolean::Is(ab) && old_terms[k].1 == ab.variable));
                };
                lemma_weighted_terms_general(t2f, wit, inst, old_terms, bits@);
                let sv = var_val(t2f, wit, inst, self.variable, t2f.len() as nat);
                assert(terms_val(t2f, wit, inst, full_terms, t2f.len() as nat)
                    == bits_weighted_vval(t2f, wit, inst, bits@) + ((MODULUS - 1) as int) * sv);
                lemma_identity_iff(bits_weighted_vval(t2f, wit, inst, bits@), sv);
            };
            assert forall|i2: int|
                0 <= i2 < bits@.len() implies (#[trigger] bits@[i2]) matches Boolean::Is(ab)
                && ab.wf(final(cs)) && ab.tracks(final(cs)) && ab.value == (match self.witness {
                Option::Some(w) => Option::Some(nth_bit(w@, i2 as nat)),
                Option::None => Option::None::<bool>,
            }) by {
                assert(bits@[i2] matches Boolean::Is(ab2) && ab2.wf(&before_con) && ab2.tracks(
                    &before_con,
                ));
                if let Boolean::Is(ab2) = bits@[i2] {
                    if ab2.value is Some {
                        crate::cs::lemma_val_extends(&before_con, final(cs), ab2.variable);
                    }
                }
            };
            if self.witness is Some && self.tracks(old(cs)) {
                let v = self.wit_nat();
                let t2 = final(cs).lc_table@;
                let fw = final(cs).wit_vals();
                let fi = final(cs).inst_vals();
                let p = MODULUS as int;
                assert forall|k: int|
                    old(cs).nc() <= k < final(cs).nc() implies constraint_sat(
                    t2,
                    fw,
                    fi,
                    #[trigger] final(cs).constraints@[k],
                ) by {
                    if k < before_con.nc() {
                        assert(final(cs).constraints@[k] == before_con.constraints@[k]);
                        assert(constraint_sat(
                            before_con.lc_table@,
                            before_con.wit_vals(),
                            before_con.inst_vals(),
                            before_con.constraints@[k],
                        ));
                        crate::cs::lemma_constraint_sat_stored_frame(
                            &before_con,
                            final(cs),
                            before_con.constraints@[k],
                        );
                    } else {
                        let con = final(cs).constraints@[k];
                        assert(con.a@.len() == 0);
                        assert(con.b@.len() == 0);
                        assert(con.c@ == full_terms);
                        assert(terms_val(t2, fw, fi, con.a@, t2.len() as nat) == 0);
                        lemma_small_mod(0, MODULUS as nat);
                        crate::eq::lemma_f_mul_zero(0);
                        // The weighted bit part evaluates to the bit sum.
                        assert(full_terms.drop_last() =~= old_terms);
                        assert(full_terms.last() == (neg_one, self.variable));
                        assert forall|j2: int|
                            0 <= j2 < old_terms.len() implies (#[trigger] old_terms[j2]).0@
                            == two_pow(j2 as nat) && vval(t2, fw, fi, old_terms[j2].1)
                            == bool_to_nat(nth_bit(v, j2 as nat)) by {
                            assert(bits@[j2] matches Boolean::Is(ab) && old_terms[j2].1
                                == ab.variable);
                            if let Boolean::Is(ab) = bits@[j2] {
                                assert(ab.wf(&before_con) && ab.tracks(&before_con)
                                    && ab.value == Option::Some(nth_bit(v, j2 as nat)));
                                crate::cs::lemma_val_extends(&before_con, final(cs), ab.variable);
                            }
                        };
                        lemma_weighted_bits_terms_val(t2, fw, fi, old_terms, v);
                        // The trailing term subtracts the value itself.
                        crate::cs::lemma_val_extends(old(cs), final(cs), self.variable);
                        let vs = var_val(t2, fw, fi, self.variable, t2.len() as nat);
                        assert(fmod(vs) == v);
                        assert(terms_val(t2, fw, fi, full_terms, t2.len() as nat) == terms_val(
                            t2,
                            fw,
                            fi,
                            old_terms,
                            t2.len() as nat,
                        ) + (neg_one@ as int) * vs);
                        crate::fp_var::lemma_neg_semantics(vs);
                        assert(fmod((neg_one@ as int) * vs) == f_neg(v));
                        vstd::arithmetic::div_mod::lemma_add_mod_noop(
                            terms_val(t2, fw, fi, old_terms, t2.len() as nat),
                            (neg_one@ as int) * vs,
                            p,
                        );
                        lemma_bits_round_trip(v);
                        assert(fmod(bit_sum(v, MODULUS_BITS as nat) as int) == v) by {
                            lemma_small_mod(v, MODULUS as nat);
                        };
                        assert(fmod(terms_val(t2, fw, fi, old_terms, t2.len() as nat)) == v) by {
                            assert(old_terms.len() == MODULUS_BITS);
                        };
                        assert(fmod(terms_val(t2, fw, fi, full_terms, t2.len() as nat)) == fmod(
                            (v + f_neg(v)) as int,
                        ));
                        lemma_add_neg_zero(v);
                    }
                };
            }
        }
        Ok(bits)
    }

    /// Decomposes the value canonically: on top of the non-unique
    /// decomposition, one inverse-witness constraint enforces that not
    /// all bits are set, which over this Mersenne modulus says exactly
    /// that the bit string reads below the modulus.
    #[verifier::rlimit(100)]
    pub fn to_bits_le(&self, cs: &mut ConstraintSystem) -> (r: Result<
        Vec<Boolean>,
        SynthesisError,
    >)
        requires
            old(cs).wf(),
            self.wf(old(cs)),
        ensures
            final(cs).wf(),
            final(cs).extends(old(cs)),
            final(cs).nc() == old(cs).nc() + MODULUS_BITS + 2,
            final(cs).nw() == old(cs).nw() + MODULUS_BITS + 1,
            final(cs).nl() == old(cs).nl(),
            final(cs).ni() == old(cs).ni(),
            r matches Ok(bits) && {
                &&& bits@.len() == MODULUS_BITS
                &&& forall|i: int|
                    0 <= i < bits@.len() ==> ((#[trigger] bits@[i]) matches Boolean::Is(ab)
                        && ab.wf(final(cs)) && ab.value == (match self.witness {
                        Option::Some(w) => Option::Some(nth_bit(w@, i as nat)),
                        Option::None => Option::None::<bool>,
                    }))
            },
            (self.witness is Some && self.tracks(old(cs))) ==> (forall|k: int|
                old(cs).nc() <= k < final(cs).nc() ==> constraint_sat(
                    final(cs).lc_table@,
                    final(cs).wit_vals(),
                    final(cs).inst_vals(),
                    #[trigger] final(cs).constraints@[k],
                )),
            r matches Ok(bits) ==> (forall|j: int, wit: Seq<nat>, inst: Seq<nat>|
                old(cs).nc() <= j < old(cs).nc() + MODULUS_BITS ==> (#[trigger] constraint_sat(
                    final(cs).lc_table@,
                    wit,
                    inst,
                    final(cs).constraints@[j],
                ) <==> f_mul(
                    vval(
                        final(cs).lc_table@,
                        wit,
                        inst,
                        bit_variable(bits@[j - old(cs).nc()]),
                    ),
                    f_sub(
                        1,
                        vval(
                            final(cs).lc_table@,
                            wit,
                            inst,
                            bit_variable(bits@[j - old(cs).nc()]),
                        ),
                    ),
                ) == 0)),
            r matches Ok(bits) ==> (forall|wit: Seq<nat>, inst: Seq<nat>|
                #[trigger] constraint_sat(
                    final(cs).lc_table@,
                    wit,
                    inst,
                    final(cs).constraints@[old(cs).nc() + MODULUS_BITS],
                ) <==> fmod(bits_weighted_vval(final(cs).lc_table@, wit, inst, bits@)) == vval(
                    final(cs).lc_table@,
                    wit,
                    inst,
                    self.variable,
                )),
            r matches Ok(bits) ==> (forall|wit: Seq<nat>, inst: Seq<nat>|
                #[trigger] constraint_sat(
                    final(cs).lc_table@,
                    wit,
                    inst,
                    final(cs).constraints@[old(cs).nc() + MODULUS_BITS + 1],
                ) <==> f_mul(
                    f_sub(fmod(bits_count_vval(final(cs).lc_table@, wit, inst, bits@)), 7),
                    vval(
                        final(cs).lc_table@,
                        wit,
                        inst,
                        Variable::Witness((old(cs).nw() + MODULUS_BITS) as usize),
                    ),
                ) == 1),
    {
        let bits = self.to_non_unique_bits_le(cs)?;
        let ghost cs1 = *cs;
        // Count the set bits of the witness; a value below the modulus
        // never has all of them set.
        let ones: Option<Fp> = match self.witness {
            Option::Some(w) => {
                let mut rem = w.as_u64();
                let mut cnt: u64 = 0;
                let mut i: usize = 0;
                proof {
                    vstd::arithmetic::div_mod::lemma_div_basics(w@ as int);
                }
                while i < MODULUS_BITS
                    invariant
                        i <= MODULUS_BITS,
                        cnt <= i,
                        rem as nat == w@ / two_pow(i as nat),
                        cnt as nat == bits_weight(w@, i as nat),
                    decreases MODULUS_BITS - i,
                {
                    if rem % 2 == 1 {
                        cnt = cnt + 1;
                    }
                    proof {
                        lemma_two_pow_pos(i as nat);
                        lemma_div_denominator(w@ as int, two_pow(i as nat) as int, 2);
                        assert(two_pow((i + 1) as nat) == two_pow(i as nat) * 2) by {
                            vstd::arithmetic::mul::lemma_mul_is_commutative(
                                2,
                                two_pow(i as nat) as int,
                            );
                        };
                    }
                    rem = rem / 2;
                    i += 1;
                }
                let total = Fp::new(cnt);
                let seven = Fp::new(7);
                let diff = total.sub_fp(&seven);
                proof {
                    lemma_small_mod(cnt as nat, MODULUS as nat);
                }
                let minv = diff.inv_fp();
                proof {
                    crate::fp_var::lemma_fp_eq(
                        minv,
                        crate::field::f_inv(crate::field::f_sub(bits_weight(w@, 7), 7)),
                    );
                }
                Option::Some(minv)
            },
            Option::None => Option::None,
        };
        let m = AllocatedFp::new_witness(cs, ones);
        let ghost cs2 = *cs;
        let one = Fp::one();
        let neg_seven = Fp::new(7).neg_fp();
        let mut a_terms: Vec<(Fp, Variable)> = Vec::new();
        let mut j: usize = 0;
        while j < MODULUS_BITS
            invariant
                j <= MODULUS_BITS,
                cs2 == *cs,
                cs.wf(),
                cs.extends(&cs1),
                one@ == 1,
                bits@.len() == MODULUS_BITS,
                forall|k: int|
                    0 <= k < bits@.len() ==> ((#[trigger] bits@[k]) matches Boolean::Is(ab)
                        && ab.wf(&cs1)),
                a_terms@.len() == j,
                terms_wf(a_terms@, cs.ni(), cs.nw(), cs.nl()),
                forall|k: int|
                    0 <= k < j ==> (#[trigger] a_terms@[k]).0@ == 1 && (
                    bits@[k] matches Boolean::Is(ab) && a_terms@[k].1 == ab.variable),
            decreases MODULUS_BITS - j,
        {
            let var = match bits[j] {
                Boolean::Is(ab) => ab.variable,
                _ => Variable::One,
            };
            let ghost old_terms = a_terms@;
            a_terms.push((one, var));
            proof {
                assert(var_wf(var, cs.ni(), cs.nw(), cs.nl())) by {
                    assert(bits@[j as int] matches Boolean::Is(ab) && ab.wf(&cs1));
                    assert(cs1.ni() <= cs.ni() && cs1.nw() <= cs.nw() && cs1.nl() <= cs.nl());
                };
                assert(one.valid());
                assert forall|k: int|
                    0 <= k < a_terms@.len() implies (#[trigger] a_terms@[k]).0.valid() && var_wf(
                    a_terms@[k].1,
                    cs.ni(),
                    cs.nw(),
                    cs.nl(),
                ) by {
                    if k < old_terms.len() {
                        assert(a_terms@[k] == old_terms[k]);
                    }
                };
                assert forall|k: int|
                    0 <= k < a_terms@.len() implies (#[trigger] a_terms@[k]).0@ == 1 && (
                bits@[k] matches Boolean::Is(ab) && a_terms@[k].1 == ab.variable) by {
                    if k < old_terms.len() {
                        assert(a_terms@[k] == old_terms[k]);
                    } else {
                        assert(a_terms@[k] == (one, var));
                        assert(bits@[j as int] matches Boolean::Is(ab) && ab.wf(&cs1));
                    }
                };
            }
            j += 1;
        }
        let ghost old_terms = a_terms@;
        a_terms.push((neg_seven, Variable::One));
        proof {
            assert forall|k: int|
                0 <= k < a_terms@.len() implies (#[trigger] a_terms@[k]).0.valid() && var_wf(
                a_terms@[k].1,
                cs.ni(),
                cs.nw(),
                cs.nl(),
            ) by {
                if k < old_terms.len() {
                    assert(a_terms@[k] == old_terms[k]);
                }
            };
        }
        let b_lc = LinComb { terms: vec![(one, m.variable)] };
        let c_lc = LinComb { terms: vec![(one, Variable::One)] };
        let ghost cs3 = *cs;
        let ghost full_a = a_terms@;
        cs.enforce_constraint(LinComb { terms: a_terms }, b_lc, c_lc);
        proof {
            crate::cs::lemma_extends_trans(&cs2, &cs1, old(cs));
            crate::cs::lemma_extends_trans(final(cs), &cs3, old(cs));
            let t2f = final(cs).lc_table@;
            assert(t2f == cs1.lc_table@);
            assert forall|j: int, wit: Seq<nat>, inst: Seq<nat>|
                old(cs).nc() <= j < old(cs).nc() + MODULUS_BITS implies (
            #[trigger] constraint_sat(t2f, wit, inst, final(cs).constraints@[j]) <==> f_mul(
                vval(t2f, wit, inst, bit_variable(bits@[j - old(cs).nc()])),
                f_sub(1, vval(t2f, wit, inst, bit_variable(bits@[j - old(cs).nc()]))),
            ) == 0) by {
                assert(final(cs).constraints@[j] == cs1.constraints@[j]);
            };
            assert forall|wit: Seq<nat>, inst: Seq<nat>|
                #[trigger] constraint_sat(
                t2f,
                wit,
                inst,
                final(cs).constraints@[old(cs).nc() + MODULUS_BITS],
            ) <==> fmod(bits_weighted_vval(t2f, wit, inst, bits@)) == vval(
                t2f,
                wit,
                inst,
                self.variable,
            ) by {
                let idx = old(cs).nc() + MODULUS_BITS;
                assert(final(cs).constraints@[idx as int] == cs1.constraints@[idx as int]);
            };
            assert forall|wit: Seq<nat>, inst: Seq<nat>|
                #[trigger] constraint_sat(
                t2f,
                wit,
                inst,
                final(cs).constraints@[old(cs).nc() + MODULUS_BITS + 1],
            ) <==> f_mul(
                f_sub(fmod(bits_count_vval(t2f, wit, inst, bits@)), 7),
                vval(
                    t2f,
                    wit,
                    inst,
                    Variable::Witness((old(cs).nw() + MODULUS_BITS) as usize),
                ),
            ) == 1 by {
                let con = final(cs).constraints@[old(cs).nc() + MODULUS_BITS + 1];
                assert(con == final(cs).constraints@.last());
                assert(con.a@ == full_a);
                assert(con.b@ == seq![(one, m.variable)]);
                assert(con.c@ == seq![(one, Variable::One)]);
                assert(m.variable == Variable::Witness((old(cs).nw() + MODULUS_BITS) as usize));
                assert(full_a.drop_last() =~= old_terms);
                assert(full_a.last() == (neg_seven, Variable::One));
                assert forall|k: int|
                    0 <= k < old_terms.len() implies (#[trigger] old_terms[k]).0@ == 1
                    && old_terms[k].1 == bit_variable(bits@[k]) by {
                    assert(old_terms[k].0@ == 1 && (bits@[k] matches Boolean::Is(ab)
                        && old_terms[k].1 == ab.variable));
                };
                lemma_count_terms_general(t2f, wit, inst, old_terms, bits@);
                assert(var_val(t2f, wit, inst, Variable::One, t2f.len() as nat) == 1);
                assert(neg_seven@ == (MODULUS - 7) as nat) by {
                    vstd::arithmetic::div_mod::lemma_mod_add_multiples_vanish(
                        0 - 7int,
                        MODULUS as int,
                    );
                    lemma_small_mod((MODULUS - 7) as nat, MODULUS as nat);
                    lemma_small_mod(7, MODULUS as nat);
                };
                assert(terms_val(t2f, wit, inst, full_a, t2f.len() as nat) == bits_count_vval(
                    t2f,
                    wit,
                    inst,
                    bits@,
                ) + ((MODULUS - 7) as int) * 1);
                lemma_count_shift(bits_count_vval(t2f, wit, inst, bits@));
                let mv = var_val(t2f, wit, inst, m.variable, t2f.len() as nat);
                crate::fp_var::lemma_one_term_val(t2f, wit, inst, one, m.variable, t2f.len() as nat);
                vstd::arithmetic::mul::lemma_mul_basics(mv);
                crate::fp_var::lemma_one_term_val(
                    t2f,
                    wit,
                    inst,
                    one,
                    Variable::One,
                    t2f.len() as nat,
                );
                lemma_small_mod(1, MODULUS as nat);
                vstd::arithmetic::div_mod::lemma_mod_twice(mv, MODULUS as int);
            };
            assert forall|i2: int|
                0 <= i2 < bits@.len() implies (#[trigger] bits@[i2]) matches Boolean::Is(ab)
                && ab.wf(final(cs)) && ab.value == (match self.witness {
                Option::Some(w) => Option::Some(nth_bit(w@, i2 as nat)),
                Option::None => Option::None::<bool>,
            }) by {
                assert(bits@[i2] matches Boolean::Is(ab2) && ab2.wf(&cs1));
            };
            if self.witness is Some && self.tracks(old(cs)) {
                let v = self.wit_nat();
                let t2 = final(cs).lc_table@;
                let fw = final(cs).wit_vals();
                let fi = final(cs).inst_vals();
                let p = MODULUS as int;
                let weight = bits_weight(v, MODULUS_BITS as nat);
                lemma_weight_bound(v, MODULUS_BITS as nat);
                lemma_weight_below_width(v);
                assert forall|k: int|
                    old(cs).nc() <= k < final(cs).nc() implies constraint_sat(
                    t2,
                    fw,
                    fi,
                    #[trigger] final(cs).constraints@[k],
                ) by {
                    if k < cs1.nc() {
                        assert(final(cs).constraints@[k] == cs1.constraints@[k]);
                        assert(constraint_sat(
                            cs1.lc_table@,
                            cs1.wit_vals(),
                            cs1.inst_vals(),
                            cs1.constraints@[k],
                        ));
                        crate::cs::lemma_constraint_sat_stored_frame(
                            &cs1,
                            final(cs),
                            cs1.constraints@[k],
                        );
                    } else {
                        let con = final(cs).constraints@[k];
                        assert(con.a@ == full_a);
                        assert(con.b@ == seq![(one, m.variable)]);
                        assert(con.c@ == seq![(one, Variable::One)]);
                        assert(full_a.drop_last() =~= old_terms);
                        assert(full_a.last() == (neg_seven, Variable::One));
                        assert forall|j2: int|
                            0 <= j2 < old_terms.len() implies (#[trigger] old_terms[j2]).0@ == 1
                            && vval(t2, fw, fi, old_terms[j2].1) == bool_to_nat(
                            nth_bit(v, j2 as nat),
                        ) by {
                            assert(bits@[j2] matches Boolean::Is(ab) && old_terms[j2].1
                                == ab.variable);
                            if let Boolean::Is(ab) = bits@[j2] {
                                assert(ab.wf(&cs1) && ab.tracks(&cs1) && ab.value == Option::Some(
                                    nth_bit(v, j2 as nat),
                                ));
                                crate::cs::lemma_val_extends(&cs1, final(cs), ab.variable);
                            }
                        };
                        assert(neg_seven@ == (MODULUS - 7) as nat) by {
                            vstd::arithmetic::div_mod::lemma_mod_add_multiples_vanish(
                                0 - 7int,
                                MODULUS as int,
                            );
                            lemma_small_mod((MODULUS - 7) as nat, MODULUS as nat);
                            lemma_small_mod(7, MODULUS as nat);
                        };
                        assert(m.tracks(&cs2));
                        crate::cs::lemma_val_extends(&cs2, final(cs), m.variable);
                        assert(vval(t2, fw, fi, m.variable) == crate::field::f_inv(
                            crate::field::f_sub(weight, 7),
                        ));
                        lemma_canonicity_constraint_sat(
                            t2,
                            fw,
                            fi,
                            con,
                            old_terms,
                            neg_seven,
                            one,
                            m.variable,
                            v,
                        );
                    }
                };
            }
        }
        Ok(bits)
    }
}

/// The arena variable a boolean reads through.
pub open spec fn bit_variable(b: Boolean) -> Variable {
    match b {
        Boolean::Constant(_) => Variable::One,
        Boolean::Is(ab) => ab.variable,
        Boolean::Not(ab) => ab.variable,
    }
}

/// The raw weighted sum of the bit variables' values under an assignment,
/// with weight `2^i` at position `i`.
pub open spec fn bits_weighted_vval(
    table: Seq<LinComb>,
    wit: Seq<nat>,
    inst: Seq<nat>,
    bits: Seq<Boolean>,
) -> int
    decreases bits.len(),
{
    if bits.len() == 0 {
        0
    } else {
        bits_weighted_vval(table, wit, inst, bits.drop_last()) + two_pow(
            (bits.len() - 1) as nat,
        ) * var_val(table, wit, inst, bit_variable(bits.last()), table.len() as nat)
    }
}

/// The raw sum of the bit variables' values under an assignment.
pub open spec fn bits_count_vval(
    table: Seq<LinComb>,
    wit: Seq<nat>,
    inst: Seq<nat>,
    bits: Seq<Boolean>,
) -> int
    decreases bits.len(),
{
    if bits.len() == 0 {
        0
    } else {
        bits_count_vval(table, wit, inst, bits.drop_last()) + var_val(
            table,
            wit,
            inst,
            bit_variable(bits.last()),
            table.len() as nat,
        )
    }
}

/// A weighted term list over the bit variables evaluates to the weighted
/// value sum.
proof fn lemma_weighted_terms_general(
    table: Seq<LinComb>,
    wit: Seq<nat>,
    inst: Seq<nat>,
    terms: Seq<(Fp, Variable)>,
    bits: Seq<Boolean>,
)
    requires
        terms.len() == bits.len(),
        forall|k: int|
            0 <= k < terms.len() ==> (#[trigger] terms[k]).0@ == two_pow(k as nat) && terms[k].1
                == bit_variable(bits[k]),
    ensures
        terms_val(table, wit, inst, terms, table.len() as nat) == bits_weighted_vval(
            table,
            wit,
            inst,
            bits,
        ),
    decreases terms.len(),
{
    if terms.len() > 0 {
        let td = terms.drop_last();
        let bd = bits.drop_last();
        assert forall|k: int|
            0 <= k < td.len() implies (#[trigger] td[k]).0@ == two_pow(k as nat) && td[k].1
            == bit_variable(bd[k]) by {
            assert(td[k] == terms[k]);
            assert(bd[k] == bits[k]);
        };
        lemma_weighted_terms_general(table, wit, inst, td, bd);
        assert(terms[terms.len() - 1].0@ == two_pow((terms.len() - 1) as nat)
            && terms[terms.len() - 1].1 == bit_variable(bits[bits.len() - 1]));
    }
}

/// A unit-coefficient term list over the bit variables evaluates to the
/// value sum.
proof fn lemma_count_terms_general(
    table: Seq<LinComb>,
    wit: Seq<nat>,
    inst: Seq<nat>,
    terms: Seq<(Fp, Variable)>,
    bits: Seq<Boolean>,
)
    requires
        terms.len() == bits.len(),
        forall|k: int|
            0 <= k < terms.len() ==> (#[trigger] terms[k]).0@ == 1 && terms[k].1 == bit_variable(
                bits[k],
            ),
    ensures
        terms_val(table, wit, inst, terms, table.len() as nat) == bits_count_vval(
            table,
            wit,
            inst,
            bits,
        ),
    decreases terms.len(),
{
    if terms.len() > 0 {
        let td = terms.drop_last();
        let bd = bits.drop_last();
        assert forall|k: int|
            0 <= k < td.len() implies (#[trigger] td[k]).0@ == 1 && td[k].1 == bit_variable(
            bd[k],
        ) by {
            assert(td[k] == terms[k]);
            assert(bd[k] == bits[k]);
        };
        lemma_count_terms_general(table, wit, inst, td, bd);
        assert(terms[terms.len() - 1].0@ == 1 && terms[terms.len() - 1].1 == bit_variable(
            bits[bits.len() - 1],
        ));
        vstd::arithmetic::mul::lemma_mul_basics(
            var_val(table, wit, inst, bit_variable(bits[bits.len() - 1]), table.len() as nat),
        );
    }
}

/// A raw sum equals a value in the field exactly when subtracting the
/// value (as a negated-unit term) reduces to zero.
proof fn lemma_identity_iff(a: int, s: int)
    ensures
        fmod(a + ((MODULUS - 1) as int) * s) == 0 <==> fmod(a) == fmod(s),
{
    let p = MODULUS as int;
    assert(a + (p - 1) * s == a - s + p * s) by (nonlinear_arith);
    vstd::arithmetic::div_mod::lemma_mod_multiples_vanish(s, a - s, p);
    vstd::arithmetic::div_mod::lemma_mod_equivalence(a, s, p);
}

/// The integer a little-endian bit string denotes.
pub open spec fn bits_lo_val(bits: Seq<Boolean>) -> nat
    decreases bits.len(),
{
    if bits.len() == 0 {
        0
    } else {
        bits_lo_val(bits.drop_last()) + bool_to_nat(bits.last().spec_value()) * two_pow(
            (bits.len() - 1) as nat,
        )
    }
}

/// Every boolean of the batch has a known value.
pub open spec fn all_bits_known(bits: Seq<Boolean>) -> bool {
    forall|k: int| 0 <= k < bits.len() ==> (#[trigger] bits[k]).has_value()
}

/// Every boolean of the batch is well-formed for the arena.
pub open spec fn all_bits_wf(bits: Seq<Boolean>, cs: &ConstraintSystem) -> bool {
    forall|k: int| 0 <= k < bits.len() ==> (#[trigger] bits[k]).wf(cs)
}

/// Recombines a little-endian bit string into one field element, batching
/// the weighted sum into a single linear combination; free for all-constant
/// bits.
pub fn le_bits_to_fp(cs: &mut ConstraintSystem, bits: &[Boolean]) -> (r: Result<
    FpVar,
    SynthesisError,
>)
    requires
        old(cs).wf(),
        bits@.len() <= MODULUS_BITS,
        all_bits_wf(bits@, old(cs)),
    ensures
        final(cs).wf(),
        final(cs).extends(old(cs)),
        final(cs).nc() == old(cs).nc(),
        final(cs).nw() == old(cs).nw(),
        final(cs).ni() == old(cs).ni(),
        r matches Ok(e) && {
            &&& e.wf(final(cs))
            &&& all_bits_known(bits@) ==> e.has_value() && e.value_nat() == fmod(
                bits_lo_val(bits@) as int,
            )
        },
{
    let mut has = true;
    let mut acc: u64 = 0;
    let mut terms: Vec<(Fp, Variable)> = Vec::new();
    let mut all_const = true;
    let mut coeff = Fp::one();
    let ghost two_i: nat = 1;
    let mut i: usize = 0;
    proof {
        assert(two_pow(0) == 1);
    }
    while i < bits.len()
        invariant
            i <= bits@.len(),
            bits@.len() <= MODULUS_BITS,
            old(cs).wf(),
            all_bits_wf(bits@, old(cs)),
            two_i == two_pow(i as nat),
            i < MODULUS_BITS ==> coeff@ == two_i && two_i <= 64,
            coeff.valid(),
            has == all_bits_known(bits@.subrange(0, i as int)),
            has ==> acc as nat == bits_lo_val(bits@.subrange(0, i as int)),
            acc < two_i,
            terms_wf(terms@, old(cs).ni(), old(cs).nw(), old(cs).nl()),
            all_const ==> has,
        decreases bits@.len() - i,
    {
        let b = bits[i];
        let ghost pre = bits@.subrange(0, i as int);
        let ghost post = bits@.subrange(0, i as int + 1);
        let ghost old_terms = terms@;
        proof {
            assert(post.drop_last() =~= pre);
            assert(post.last() == bits@[i as int]);
            assert(two_pow((i + 1) as nat) == 2 * two_pow(i as nat));
        }
        match b.value() {
            Ok(bv) => {
                if has {
                    if bv {
                        acc = acc + coeff.as_u64();
                    }
                    proof {
                        assert(bits_lo_val(post) == bits_lo_val(pre) + bool_to_nat(
                            b.spec_value(),
                        ) * two_pow(i as nat));
                        assert(i < MODULUS_BITS);
                        assert(coeff@ == two_pow(i as nat));
                        vstd::arithmetic::mul::lemma_mul_basics(two_pow(i as nat) as int);
                        vstd::arithmetic::mul::lemma_mul_by_zero_is_zero(two_pow(i as nat) as int);
                        assert(bool_to_nat(b.spec_value()) * two_pow(i as nat) == (
                        if b.spec_value() {
                            two_pow(i as nat)
                        } else {
                            0nat
                        })) by {
                            if b.spec_value() {
                                assert((1nat) * two_pow(i as nat) == two_pow(i as nat)) by (
                                nonlinear_arith);
                            } else {
                                assert((0nat) * two_pow(i as nat) == 0) by (nonlinear_arith);
                            }
                        };
                        assert(acc as nat == bits_lo_val(post));
                    }
                }
            },
            Err(_) => {
                has = false;
            },
        }
        proof {
            if all_bits_known(post) {
                assert forall|k: int| 0 <= k < pre.len() implies (#[trigger] pre[k]).has_value() by {
                    assert(pre[k] == post[k]);
                };
                assert(post[i as int].has_value());
            }
            if all_bits_known(pre) && b.has_value() {
                assert forall|k: int|
                    0 <= k < post.len() implies (#[trigger] post[k]).has_value() by {
                    if k < pre.len() {
                        assert(post[k] == pre[k]);
                    }
                };
            }
        }
        if !b.is_constant() {
            all_const = false;
        }
        let lc = b.lc();
        proof {
            assert(bits@[i as int].wf(old(cs)));
            b.lemma_lc_terms_wf(old(cs));
        }
        let mut t: usize = 0;
        while t < lc.terms.len()
            invariant
                t <= lc.terms@.len(),
                coeff.valid(),
                old(cs).wf(),
                terms_wf(lc.terms@, old(cs).ni(), old(cs).nw(), old(cs).nl()),
                terms_wf(terms@, old(cs).ni(), old(cs).nw(), old(cs).nl()),
            decreases lc.terms@.len() - t,
        {
            let (c, v) = lc.terms[t];
            let scaled = coeff.mul_fp(&c);
            let ghost prev = terms@;
            terms.push((scaled, v));
            proof {
                assert forall|k: int|
                    0 <= k < terms@.len() implies (#[trigger] terms@[k]).0.valid() && var_wf(
                    terms@[k].1,
                    old(cs).ni(),
                    old(cs).nw(),
                    old(cs).nl(),
                ) by {
                    if k < prev.len() {
                        assert(terms@[k] == prev[k]);
                    } else {
                        assert(lc.terms@[t as int].0.valid() && var_wf(
                            lc.terms@[t as int].1,
                            old(cs).ni(),
                            old(cs).nw(),
                            old(cs).nl(),
                        ));
                    }
                };
            }
            t += 1;
        }
        if i + 1 < MODULUS_BITS {
            proof {
                lemma_two_pow_small(i as nat);
                lemma_two_pow_small((i + 1) as nat);
                lemma_small_mod((2 * two_i) as nat, MODULUS as nat);
            }
            coeff = coeff.add_fp(&coeff);
        } else {
            coeff = Fp::one();
        }
        proof {
            two_i = 2 * two_i;
        }
        i += 1;
    }
    proof {
        assert(bits@.subrange(0, bits@.len() as int) =~= bits@);
    }
    let value: Option<Fp> = if has {
        let f = Fp::new(acc);
        Option::Some(f)
    } else {
        Option::None
    };
    if all_const {
        match value {
            Option::Some(f) => {
                return Ok(FpVar::Constant(f));
            },
            Option::None => {
                proof {
                    assert(false);
                }
                return Err(SynthesisError::MissingWitness);
            },
        }
    }
    let variable = cs.new_lc(terms);
    Ok(FpVar::Var(AllocatedFp::new(value, variable)))
}

impl FpVar {
    /// The little-endian non-unique bit decomposition: free for a
    /// constant, allocated bit variables otherwise.
    pub fn to_non_unique_bits_le(&self, cs: &mut ConstraintSystem) -> (r: Result<
        Vec<Boolean>,
        SynthesisError,
    >)
        requires
            old(cs).wf(),
            self.wf(old(cs)),
        ensures
            final(cs).wf(),
            final(cs).extends(old(cs)),
            self.spec_is_constant() ==> *final(cs) == *old(cs),
            r matches Ok(bits) && {
                &&& bits@.len() == MODULUS_BITS
                &&& all_bits_wf(bits@, final(cs))
                &&& self.has_value() ==> all_bits_known(bits@) && (forall|i: int|
                    0 <= i < bits@.len() ==> (#[trigger] bits@[i]).spec_value() == nth_bit(
                        self.value_nat(),
                        i as nat,
                    ))
            },
    {
        match self {
            FpVar::Constant(c) => {
                let mut bits: Vec<Boolean> = Vec::new();
                let mut rem = c.as_u64();
                let mut i: usize = 0;
                proof {
                    vstd::arithmetic::div_mod::lemma_div_basics(c@ as int);
                }
                while i < MODULUS_BITS
                    invariant
                        i <= MODULUS_BITS,
                        rem as nat == c@ / two_pow(i as nat),
                        bits@.len() == i,
                        forall|j: int|
                            0 <= j < i ==> (#[trigger] bits@[j]) == Boolean::Constant(
                                nth_bit(c@, j as nat),
                            ),
                    decreases MODULUS_BITS - i,
                {
                    let ghost old_bits = bits@;
                    bits.push(Boolean::Constant(rem % 2 == 1));
                    proof {
                        assert forall|j: int|
                            0 <= j < bits@.len() implies (#[trigger] bits@[j]) == Boolean::Constant(
                            nth_bit(c@, j as nat),
                        ) by {
                            if j < old_bits.len() {
                                assert(bits@[j] == old_bits[j]);
                            }
                        };
                        lemma_two_pow_pos(i as nat);
                        lemma_div_denominator(c@ as int, two_pow(i as nat) as int, 2);
                        assert(two_pow((i + 1) as nat) == two_pow(i as nat) * 2) by {
                            vstd::arithmetic::mul::lemma_mul_is_commutative(
                                2,
                                two_pow(i as nat) as int,
                            );
                        };
                    }
                    rem = rem / 2;
                    i += 1;
                }
                Ok(bits)
            },
            FpVar::Var(v) => {
                let bits = v.to_non_unique_bits_le(cs)?;
                proof {
                    lemma_bit_vec_facts(bits@, *v, final(cs));
                }
                Ok(bits)
            },
        }
    }

    /// The little-endian canonical bit decomposition: free for a constant
    /// (already canonical), constrained to read below the modulus
    /// otherwise.
    pub fn to_bits_le(&self, cs: &mut ConstraintSystem) -> (r: Result<
        Vec<Boolean>,
        SynthesisError,
    >)
        requires
            old(cs).wf(),
            self.wf(old(cs)),
        ensures
            final(cs).wf(),
            final(cs).extends(old(cs)),
            self.spec_is_constant() ==> *final(cs) == *old(cs),
            r matches Ok(bits) && {
                &&& bits@.len() == MODULUS_BITS
                &&& all_bits_wf(bits@, final(cs))
                &&& self.has_value() ==> all_bits_known(bits@) && (forall|i: int|
                    0 <= i < bits@.len() ==> (#[trigger] bits@[i]).spec_value() == nth_bit(
                        self.value_nat(),
                        i as nat,
                    ))
            },
    {
        match self {
            FpVar::Constant(_) => self.to_non_unique_bits_le(cs),
            FpVar::Var(v) => {
                let bits = v.to_bits_le(cs)?;
                proof {
                    lemma_bit_vec_facts(bits@, *v, final(cs));
                }
                Ok(bits)
            },
        }
    }

    /// Decomposes `self` into `size` low bits and a remainder, enforcing
    /// that the remainder is the additive identity.
    pub fn to_bits_le_with_top_bits_zero(&self, cs: &mut ConstraintSystem, size: usize) -> (r:
        Result<(Vec<Boolean>, FpVar), SynthesisError>)
        requires
            old(cs).wf(),
            self.wf(old(cs)),
            size < MODULUS_BITS,
        ensures
            final(cs).wf(),
            final(cs).extends(old(cs)),
            r matches Ok(p) && {
                &&& p.0@.len() == size
                &&& p.1.wf(final(cs))
                &&& self.has_value() ==> all_bits_known(p.0@) && p.1.has_value() && p.1.value_nat()
                    == crate::field::f_sub(
                    self.value_nat(),
                    fmod(bits_lo_val(p.0@) as int),
                ) && (forall|i: int|
                    0 <= i < p.0@.len() ==> (#[trigger] p.0@[i]).spec_value() == nth_bit(
                        self.value_nat(),
                        i as nat,
                    ))
            },
    {
        let constant = self.is_constant();
        let mode = if constant {
            AllocationMode::Constant
        } else {
            AllocationMode::Witness
        };
        let known = self.value();
        let mut rem: u64 = match known {
            Ok(w) => w.as_u64(),
            Err(_) => 0,
        };
        let mut lower_bits: Vec<Boolean> = Vec::new();
        let mut i: usize = 0;
        proof {
            if self.has_value() {
                vstd::arithmetic::div_mod::lemma_div_basics(self.value_nat() as int);
            }
        }
        while i < size
            invariant
                i <= size,
                size < MODULUS_BITS,
                cs.wf(),
                cs.extends(old(cs)),
                self.wf(old(cs)),
                constant == self.spec_is_constant(),
                mode == (if constant {
                    AllocationMode::Constant
                } else {
                    AllocationMode::Witness
                }),
                self.has_value() ==> rem as nat == self.value_nat() / two_pow(i as nat),
                self.spec_is_constant() ==> self.has_value(),
                self.has_value() ==> known is Ok,
                !self.has_value() ==> known is Err,
                lower_bits@.len() == i,
                all_bits_wf(lower_bits@, cs),
                self.has_value() ==> all_bits_known(lower_bits@) && (forall|j: int|
                    0 <= j < i ==> (#[trigger] lower_bits@[j]).spec_value() == nth_bit(
                        self.value_nat(),
                        j as nat,
                    )),
            decreases size - i,
        {
            let bv: Option<bool> = match known {
                Ok(_) => Option::Some(rem % 2 == 1),
                Err(_) => Option::None,
            };
            let ghost before = *cs;
            let ghost old_bits = lower_bits@;
            let b = crate::boolean::new_boolean_variable(cs, bv, mode)?;
            lower_bits.push(b);
            proof {
                assert forall|k: int|
                    0 <= k < lower_bits@.len() implies (#[trigger] lower_bits@[k]).wf(cs) by {
                    if k < old_bits.len() {
                        assert(old_bits[k].wf(&before));
                        assert(lower_bits@[k] == old_bits[k]);
                        lemma_boolean_wf_extend(old_bits[k], &before, cs);
                    }
                };
                crate::cs::lemma_extends_trans(cs, &before, old(cs));
                if self.has_value() {
                    assert forall|k: int|
                        0 <= k < lower_bits@.len() implies (#[trigger] lower_bits@[k]).has_value()
                        && lower_bits@[k].spec_value() == nth_bit(self.value_nat(), k as nat) by {
                        if k < old_bits.len() {
                            assert(lower_bits@[k] == old_bits[k]);
                        } else {
                            assert(lower_bits@[k] == b);
                        }
                    };
                    lemma_two_pow_pos(i as nat);
                    lemma_div_denominator(self.value_nat() as int, two_pow(i as nat) as int, 2);
                    assert(two_pow((i + 1) as nat) == two_pow(i as nat) * 2) by {
                        vstd::arithmetic::mul::lemma_mul_is_commutative(
                            2,
                            two_pow(i as nat) as int,
                        );
                    };
                }
            }
            rem = rem / 2;
            i += 1;
        }
        let ghost cs_a = *cs;
        let lower_bits_fp = le_bits_to_fp(cs, lower_bits.as_slice())?;
        let ghost cs_b = *cs;
        proof {
            crate::cs::lemma_extends_trans(&cs_b, &cs_a, old(cs));
            assert(self.wf(&cs_b)) by {
                lemma_fpvar_wf_extend(*self, old(cs), &cs_b);
            };
        }
        let rest = self.sub(cs, &lower_bits_fp);
        let ghost cs_c = *cs;
        proof {
            crate::cs::lemma_extends_trans(&cs_c, &cs_b, old(cs));
        }
        let zero_e = FpVar::zero();
        let res = rest.enforce_equal(cs, &zero_e);
        proof {
            crate::cs::lemma_extends_trans(final(cs), &cs_c, old(cs));
        }
        match res {
            Ok(_) => Ok((lower_bits, rest)),
            Err(e) => Err(e),
        }
    }
}

/// Boolean well-formedness survives growing the arena.
pub proof fn lemma_boolean_wf_extend(b: Boolean, cs1: &ConstraintSystem, cs2: &ConstraintSystem)
    requires
        b.wf(cs1),
        cs2.extends(cs1),
    ensures
        b.wf(cs2),
{
}

/// Element well-formedness survives growing the arena.
pub proof fn lemma_fpvar_wf_extend(e: FpVar, cs1: &ConstraintSystem, cs2: &ConstraintSystem)
    requires
        e.wf(cs1),
        cs2.extends(cs1),
    ensures
        e.wf(cs2),
{
}

/// The bit variables handed back by the symbolic-layer decomposition have
/// known boolean values matching the element's bits.
proof fn lemma_bit_vec_facts(bits: Seq<Boolean>, v: AllocatedFp, cs: &ConstraintSystem)
    requires
        forall|i: int|
            0 <= i < bits.len() ==> ((#[trigger] bits[i]) matches Boolean::Is(ab) && ab.wf(cs)
                && ab.value == (match v.witness {
                Option::Some(w) => Option::Some(nth_bit(w@, i as nat)),
                Option::None => Option::None::<bool>,
            })),
    ensures
        all_bits_wf(bits, cs),
        v.witness is Some ==> all_bits_known(bits) && (forall|i: int|
            0 <= i < bits.len() ==> (#[trigger] bits[i]).spec_value() == nth_bit(
                v.wit_nat(),
                i as nat,
            )),
{
    assert forall|k: int| 0 <= k < bits.len() implies (#[trigger] bits[k]).wf(cs) by {
        assert(bits[k] matches Boolean::Is(ab) && ab.wf(cs));
    };
    if v.witness is Some {
        assert forall|k: int| 0 <= k < bits.len() implies (#[trigger] bits[k]).has_value() by {
            assert(bits[k] matches Boolean::Is(ab) && ab.value is Some);
        };
        assert forall|k: int|
            0 <= k < bits.len() implies (#[trigger] bits[k]).spec_value() == nth_bit(
            v.wit_nat(),
            k as nat,
        ) by {
            assert(bits[k] matches Boolean::Is(ab) && ab.value == Option::Some(
                nth_bit(v.wit_nat(), k as nat),
            ));
        };
    }
}

} // verus!
