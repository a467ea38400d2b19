//! Byte serialization of field elements and prepared points.
//!
//! A byte is eight little-endian booleans.  A field element serializes by
//! padding its canonical (or non-unique) bit decomposition with constant
//! false bits up to the representation width — one byte for this field —
//! and a prepared point serializes as the concatenation of its parts'
//! bytes.

use vstd::prelude::*;
use crate::bits::{all_bits_known, all_bits_wf, bits_lo_val};
use crate::bls12::{G1PreparedVar, G2PreparedVar};
use crate::boolean::Boolean;
use crate::cs::ConstraintSystem;
use crate::field::MODULUS_BITS;
use crate::field_element::FpVar;
use crate::fp_var::AllocatedFp;
use crate::SynthesisError;

verus! {

/// One byte of a serialization: eight little-endian boolean bits.
#[derive(Clone, Debug)]
pub struct ByteVar {
    /// The bits, least significant first.
    pub bits: Vec<Boolean>,
}

impl ByteVar {
    /// The byte holds eight bits, all well-formed for the arena.
    pub open spec fn wf(&self, cs: &ConstraintSystem) -> bool {
        self.bits@.len() == 8 && all_bits_wf(self.bits@, cs)
    }

    /// Reads the byte's concrete value, least-significant bit first.
    pub fn value(&self) -> (r: Result<u8, SynthesisError>)
        requires
            self.bits@.len() == 8,
        ensures
            all_bits_known(self.bits@) ==> (r matches Ok(v) && v as nat == bits_lo_val(
                self.bits@,
            )),
    {
        let mut acc: u16 = 0;
        let mut weight: u16 = 1;
        let mut i: usize = 0;
        while i < 8
            invariant
                i <= 8,
                self.bits@.len() == 8,
                weight as nat == crate::bits::two_pow(i as nat),
                weight <= 256,
                acc < weight,
                all_bits_known(self.bits@.subrange(0, i as int)) ==> acc as nat == bits_lo_val(
                    self.bits@.subrange(0, i as int),
                ),
            decreases 8 - i,
        {
            let b = match self.bits[i].value() {
                Ok(v) => v,
                Err(e) => {
                    return Err(e);
                },
            };
            let ghost pre = self.bits@.subrange(0, i as int);
            let ghost post = self.bits@.subrange(0, i as int + 1);
            proof {
                assert(post.drop_last() =~= pre);
                assert(post.last() == self.bits@[i as int]);
                assert(crate::bits::two_pow((i + 1) as nat) == 2 * crate::bits::two_pow(
                    i as nat,
                ));
                assert(crate::bits::two_pow(0) == 1);
                assert(crate::bits::two_pow(1) == 2);
                assert(crate::bits::two_pow(2) == 4);
                assert(crate::bits::two_pow(3) == 8);
                assert(crate::bits::two_pow(4) == 16);
                assert(crate::bits::two_pow(5) == 32);
                assert(crate::bits::two_pow(6) == 64);
                assert(crate::bits::two_pow(7) == 128);
                assert(crate::bits::two_pow(8) == 256);
                if all_bits_known(pre) {
                    assert forall|k: int|
                        0 <= k < post.len() implies (#[trigger] post[k]).has_value() by {
                        if k < pre.len() {
                            assert(post[k] == pre[k]);
                        }
                    };
                    vstd::arithmetic::mul::lemma_mul_basics(crate::bits::two_pow(i as nat) as int);
                    vstd::arithmetic::mul::lemma_mul_by_zero_is_zero(
                        crate::bits::two_pow(i as nat) as int,
                    );
                    if self.bits@[i as int].spec_value() {
                        assert((1nat) * crate::bits::two_pow(i as nat) == crate::bits::two_pow(
                            i as nat,
                        )) by (nonlinear_arith);
                    } else {
                        assert((0nat) * crate::bits::two_pow(i as nat) == 0) by (nonlinear_arith);
                    }
                }
            }
            if b {
                acc = acc + weight;
            }
            weight = weight * 2;
            i += 1;
        }
        proof {
            assert(self.bits@.subrange(0, 8) =~= self.bits@);
        }
        Ok(acc as u8)
    }
}

/// Pads a bit string with constant false bits up to one byte.
fn pad_to_byte(cs: &ConstraintSystem, bits: Vec<Boolean>) -> (r: ByteVar)
    requires
        cs.wf(),
        bits@.len() <= 8,
        all_bits_wf(bits@, cs),
    ensures
        r.wf(cs),
{
    let mut padded = bits;
    while padded.len() < 8
        invariant
            padded@.len() <= 8,
            all_bits_wf(padded@, cs),
        decreases 8 - padded@.len(),
    {
        let ghost prev = padded@;
        padded.push(Boolean::Constant(false));
        proof {
            assert forall|k: int| 0 <= k < padded@.len() implies (#[trigger] padded@[k]).wf(cs) by {
                if k < prev.len() {
                    assert(padded@[k] == prev[k]);
                }
            };
        }
    }
    ByteVar { bits: padded }
}

impl AllocatedFp {
    /// Serializes the canonical little-endian byte decomposition,
    /// enforcing that the bits read below the modulus.
    pub fn to_bytes_le(&self, cs: &mut ConstraintSystem) -> (r: Result<
        Vec<ByteVar>,
        SynthesisError,
    >)
        requires
            old(cs).wf(),
            self.wf(old(cs)),
        ensures
            final(cs).wf(),
            final(cs).extends(old(cs)),
            r matches Ok(bytes) && bytes@.len() == 1 && (forall|k: int|
                0 <= k < bytes@.len() ==> (#[trigger] bytes@[k]).wf(final(cs))),
    {
        let bits = self.to_bits_le(cs)?;
        let byte = pad_to_byte(cs, bits);
        let mut bytes: Vec<ByteVar> = Vec::new();
        bytes.push(byte);
        Ok(bytes)
    }

    /// Serializes the non-unique little-endian byte decomposition, which
    /// keeps the documented soundness gap of the non-unique bits.
    pub fn to_non_unique_bytes_le(&self, cs: &mut ConstraintSystem) -> (r: Result<
        Vec<ByteVar>,
        SynthesisError,
    >)
        requires
            old(cs).wf(),
            self.wf(old(cs)),
        ensures
            final(cs).wf(),
            final(cs).extends(old(cs)),
            r matches Ok(bytes) && bytes@.len() == 1 && (forall|k: int|
                0 <= k < bytes@.len() ==> (#[trigger] bytes@[k]).wf(final(cs))),
    {
        let bits = self.to_non_unique_bits_le(cs)?;
        let byte = pad_to_byte(cs, bits);
        let mut bytes: Vec<ByteVar> = Vec::new();
        bytes.push(byte);
        Ok(bytes)
    }
}

impl FpVar {
    /// Serializes the canonical little-endian byte decomposition.
    pub fn to_bytes_le(&self, cs: &mut ConstraintSystem) -> (r: Result<
        Vec<ByteVar>,
        SynthesisError,
    >)
        requires
            old(cs).wf(),
            self.wf(old(cs)),
        ensures
            final(cs).wf(),
            final(cs).extends(old(cs)),
            r matches Ok(bytes) && bytes@.len() == 1 && (forall|k: int|
                0 <= k < bytes@.len() ==> (#[trigger] bytes@[k]).wf(final(cs))),
    {
        let bits = self.to_bits_le(cs)?;
        proof {
            assert(bits@.len() == MODULUS_BITS);
        }
        let byte = pad_to_byte(cs, bits);
        let mut bytes: Vec<ByteVar> = Vec::new();
        bytes.push(byte);
        Ok(bytes)
    }

    /// Serializes the non-unique little-endian byte decomposition.
    pub fn to_non_unique_bytes_le(&self, cs: &mut ConstraintSystem) -> (r: Result<
        Vec<ByteVar>,
        SynthesisError,
    >)
        requires
            old(cs).wf(),
            self.wf(old(cs)),
        ensures
            final(cs).wf(),
            final(cs).extends(old(cs)),
            r matches Ok(bytes) && bytes@.len() == 1 && (forall|k: int|
                0 <= k < bytes@.len() ==> (#[trigger] bytes@[k]).wf(final(cs))),
    {
        let bits = self.to_non_unique_bits_le(cs)?;
        let byte = pad_to_byte(cs, bits);
        let mut bytes: Vec<ByteVar> = Vec::new();
        bytes.push(byte);
        Ok(bytes)
    }
}

/// Appends well-formed bytes to an accumulator, keeping well-formedness.
fn append_bytes(
    cs: &ConstraintSystem,
    acc: &mut Vec<ByteVar>,
    extra: Vec<ByteVar>,
)
    requires
        forall|k: int| 0 <= k < old(acc)@.len() ==> (#[trigger] old(acc)@[k]).wf(cs),
        forall|k: int| 0 <= k < extra@.len() ==> (#[trigger] extra@[k]).wf(cs),
    ensures
        forall|k: int| 0 <= k < final(acc)@.len() ==> (#[trigger] final(acc)@[k]).wf(cs),
        final(acc)@.len() == old(acc)@.len() + extra@.len(),
{
    let mut rest = extra;
    let ghost total = old(acc)@.len() + rest@.len();
    while rest.len() > 0
        invariant
            forall|k: int| 0 <= k < rest@.len() ==> (#[trigger] rest@[k]).wf(cs),
            forall|k: int| 0 <= k < acc@.len() ==> (#[trigger] acc@[k]).wf(cs),
            acc@.len() + rest@.len() == total,
        decreases rest@.len(),
    {
        let ghost old_rest = rest@;
        let b = rest.remove(0);
        let ghost prev = acc@;
        proof {
            assert(b == old_rest[0]);
            assert forall|k: int| 0 <= k < rest@.len() implies (#[trigger] rest@[k]).wf(cs) by {
                assert(rest@[k] == old_rest[k + 1]);
            };
        }
        acc.push(b);
        proof {
            assert forall|k: int| 0 <= k < acc@.len() implies (#[trigger] acc@[k]).wf(cs) by {
                if k < prev.len() {
                    assert(acc@[k] == prev[k]);
                } else {
                    assert(acc@[k] == old_rest[0]);
                }
            };
        }
    }
}

/// Bytes stay well-formed as the arena grows.
proof fn lemma_bytes_wf_extend(
    bytes: Seq<ByteVar>,
    cs1: &ConstraintSystem,
    cs2: &ConstraintSystem,
)
    requires
        forall|k: int| 0 <= k < bytes.len() ==> (#[trigger] bytes[k]).wf(cs1),
        cs2.extends(cs1),
    ensures
        forall|k: int| 0 <= k < bytes.len() ==> (#[trigger] bytes[k]).wf(cs2),
{
    assert forall|k: int| 0 <= k < bytes.len() implies (#[trigger] bytes[k]).wf(cs2) by {
        assert(bytes[k].wf(cs1));
        assert forall|j: int| 0 <= j < bytes[k].bits@.len() implies (#[trigger] bytes[k].bits@[j]).wf(
            cs2,
        ) by {
            assert(bytes[k].bits@[j].wf(cs1));
        };
    };
}

impl G1PreparedVar {
    /// Serializes the prepared point: the coordinates' canonical bytes
    /// followed by the infinity flag as one byte.
    pub fn to_bytes_le(&self, cs: &mut ConstraintSystem) -> (r: Result<
        Vec<ByteVar>,
        SynthesisError,
    >)
        requires
            old(cs).wf(),
            self.wf(old(cs)),
        ensures
            final(cs).wf(),
            final(cs).extends(old(cs)),
            r matches Ok(bytes) && bytes@.len() == 3 && (forall|k: int|
                0 <= k < bytes@.len() ==> (#[trigger] bytes@[k]).wf(final(cs))),
    {
        let mut bytes = self.0.x.to_bytes_le(cs)?;
        let ghost cs1 = *cs;
        proof {
            crate::bits::lemma_fpvar_wf_extend(self.0.y, old(cs), &cs1);
        }
        let y_bytes = self.0.y.to_bytes_le(cs)?;
        let ghost cs2 = *cs;
        proof {
            crate::cs::lemma_extends_trans(&cs2, &cs1, old(cs));
            lemma_bytes_wf_extend(bytes@, &cs1, &cs2);
        }
        append_bytes(cs, &mut bytes, y_bytes);
        let mut inf_bits: Vec<Boolean> = Vec::new();
        inf_bits.push(self.0.infinity);
        proof {
            assert(self.0.infinity.wf(&cs2)) by {
                crate::bits::lemma_boolean_wf_extend(self.0.infinity, old(cs), &cs2);
            };
            assert forall|k: int|
                0 <= k < inf_bits@.len() implies (#[trigger] inf_bits@[k]).wf(&cs2) by {
                assert(inf_bits@[k] == self.0.infinity);
            };
        }
        let inf_byte = pad_to_byte(cs, inf_bits);
        let mut inf_vec: Vec<ByteVar> = Vec::new();
        inf_vec.push(inf_byte);
        append_bytes(cs, &mut bytes, inf_vec);
        Ok(bytes)
    }

    /// Serializes the prepared point through the non-unique byte
    /// decomposition of its coordinates.
    pub fn to_non_unique_bytes_le(&self, cs: &mut ConstraintSystem) -> (r: Result<
        Vec<ByteVar>,
        SynthesisError,
    >)
        requires
            old(cs).wf(),
            self.wf(old(cs)),
        ensures
            final(cs).wf(),
            final(cs).extends(old(cs)),
            r matches Ok(bytes) && bytes@.len() == 3 && (forall|k: int|
                0 <= k < bytes@.len() ==> (#[trigger] bytes@[k]).wf(final(cs))),
    {
        let mut bytes = self.0.x.to_non_unique_bytes_le(cs)?;
        let ghost cs1 = *cs;
        proof {
            crate::bits::lemma_fpvar_wf_extend(self.0.y, old(cs), &cs1);
        }
        let y_bytes = self.0.y.to_non_unique_bytes_le(cs)?;
        let ghost cs2 = *cs;
        proof {
            crate::cs::lemma_extends_trans(&cs2, &cs1, old(cs));
            lemma_bytes_wf_extend(bytes@, &cs1, &cs2);
        }
        append_bytes(cs, &mut bytes, y_bytes);
        let mut inf_bits: Vec<Boolean> = Vec::new();
        inf_bits.push(self.0.infinity);
        proof {
            assert(self.0.infinity.wf(&cs2)) by {
                crate::bits::lemma_boolean_wf_extend(self.0.infinity, old(cs), &cs2);
            };
            assert forall|k: int|
                0 <= k < inf_bits@.len() implies (#[trigger] inf_bits@[k]).wf(&cs2) by {
                assert(inf_bits@[k] == self.0.infinity);
            };
        }
        let inf_byte = pad_to_byte(cs, inf_bits);
        let mut inf_vec: Vec<ByteVar> = Vec::new();
        inf_vec.push(inf_byte);
        append_bytes(cs, &mut bytes, inf_vec);
        Ok(bytes)
    }
}

impl G2PreparedVar {
    /// Serializes the line-coefficient sequence: each pair contributes the
    /// canonical bytes of its four base-field components, in order.
    pub fn to_bytes_le(&self, cs: &mut ConstraintSystem) -> (r: Result<
        Vec<ByteVar>,
        SynthesisError,
    >)
        requires
            old(cs).wf(),
            self.wf(old(cs)),
        ensures
            final(cs).wf(),
            final(cs).extends(old(cs)),
            r matches Ok(bytes) && bytes@.len() == 4 * self.ell_coeffs@.len() && (forall|k: int|
                0 <= k < bytes@.len() ==> (#[trigger] bytes@[k]).wf(final(cs))),
    {
        let mut bytes: Vec<ByteVar> = Vec::new();
        let mut i: usize = 0;
        while i < self.ell_coeffs.len()
            invariant
                i <= self.ell_coeffs@.len(),
                old(cs).wf(),
                cs.wf(),
                cs.extends(old(cs)),
                self.wf(old(cs)),
                bytes@.len() == 4 * i,
                forall|k: int| 0 <= k < bytes@.len() ==> (#[trigger] bytes@[k]).wf(cs),
            decreases self.ell_coeffs@.len() - i,
        {
            let (l, rr) = self.ell_coeffs[i];
            proof {
                assert(self.ell_coeffs@[i as int].0.wf(old(cs)) && self.ell_coeffs@[i as int].1.wf(
                    old(cs),
                ));
                crate::bits::lemma_fpvar_wf_extend(l.c0, old(cs), cs);
                crate::bits::lemma_fpvar_wf_extend(l.c1, old(cs), cs);
                crate::bits::lemma_fpvar_wf_extend(rr.c0, old(cs), cs);
                crate::bits::lemma_fpvar_wf_extend(rr.c1, old(cs), cs);
            }
            let ghost b0 = *cs;
            let p0 = l.c0.to_bytes_le(cs)?;
            proof {
                crate::bits::lemma_fpvar_wf_extend(l.c1, &b0, cs);
                crate::bits::lemma_fpvar_wf_extend(rr.c0, &b0, cs);
                crate::bits::lemma_fpvar_wf_extend(rr.c1, &b0, cs);
                lemma_bytes_wf_extend(bytes@, &b0, cs);
            }
            append_bytes(cs, &mut bytes, p0);
            let ghost b1 = *cs;
            let p1 = l.c1.to_bytes_le(cs)?;
            proof {
                crate::bits::lemma_fpvar_wf_extend(rr.c0, &b1, cs);
                crate::bits::lemma_fpvar_wf_extend(rr.c1, &b1, cs);
                lemma_bytes_wf_extend(bytes@, &b1, cs);
                crate::cs::lemma_extends_trans(cs, &b1, &b0);
            }
            append_bytes(cs, &mut bytes, p1);
            let ghost b2 = *cs;
            let p2 = rr.c0.to_bytes_le(cs)?;
            proof {
                crate::bits::lemma_fpvar_wf_extend(rr.c1, &b2, cs);
                lemma_bytes_wf_extend(bytes@, &b2, cs);
                crate::cs::lemma_extends_trans(cs, &b2, &b0);
            }
            append_bytes(cs, &mut bytes, p2);
            let ghost b3 = *cs;
            let p3 = rr.c1.to_bytes_le(cs)?;
            proof {
                lemma_bytes_wf_extend(bytes@, &b3, cs);
                crate::cs::lemma_extends_trans(cs, &b3, &b0);
                crate::cs::lemma_extends_trans(cs, &b0, old(cs));
            }
            append_bytes(cs, &mut bytes, p3);
            i += 1;
        }
        Ok(bytes)
    }

    /// Serializes the line-coefficient sequence through the non-unique
    /// byte decomposition of its components.
    pub fn to_non_unique_bytes_le(&self, cs: &mut ConstraintSystem) -> (r: Result<
        Vec<ByteVar>,
        SynthesisError,
    >)
        requires
            old(cs).wf(),
            self.wf(old(cs)),
        ensures
            final(cs).wf(),
            final(cs).extends(old(cs)),
            r matches Ok(bytes) && bytes@.len() == 4 * self.ell_coeffs@.len() && (forall|k: int|
                0 <= k < bytes@.len() ==> (#[trigger] bytes@[k]).wf(final(cs))),
    {
        let mut bytes: Vec<ByteVar> = Vec::new();
        let mut i: usize = 0;
        while i < self.ell_coeffs.len()
            invariant
                i <= self.ell_coeffs@.len(),
                old(cs).wf(),
                cs.wf(),
                cs.extends(old(cs)),
                self.wf(old(cs)),
                bytes@.len() == 4 * i,
                forall|k: int| 0 <= k < bytes@.len() ==> (#[trigger] bytes@[k]).wf(cs),
            decreases self.ell_coeffs@.len() - i,
        {
            let (l, rr) = self.ell_coeffs[i];
            proof {
                assert(self.ell_coeffs@[i as int].0.wf(old(cs)) && self.ell_coeffs@[i as int].1.wf(
                    old(cs),
                ));
                crate::bits::lemma_fpvar_wf_extend(l.c0, old(cs), cs);
                crate::bits::lemma_fpvar_wf_extend(l.c1, old(cs), cs);
                crate::bits::lemma_fpvar_wf_extend(rr.c0, old(cs), cs);
                crate::bits::lemma_fpvar_wf_extend(rr.c1, old(cs), cs);
            }
            let ghost b0 = *cs;
            let p0 = l.c0.to_non_unique_bytes_le(cs)?;
            proof {
                crate::bits::lemma_fpvar_wf_extend(l.c1, &b0, cs);
                crate::bits::lemma_fpvar_wf_extend(rr.c0, &b0, cs);
                crate::bits::lemma_fpvar_wf_extend(rr.c1, &b0, cs);
                lemma_bytes_wf_extend(bytes@, &b0, cs);
            }
            append_bytes(cs, &mut bytes, p0);
            let ghost b1 = *cs;
            let p1 = l.c1.to_non_unique_bytes_le(cs)?;
            proof {
                crate::bits::lemma_fpvar_wf_extend(rr.c0, &b1, cs);
                crate::bits::lemma_fpvar_wf_extend(rr.c1, &b1, cs);
                lemma_bytes_wf_extend(bytes@, &b1, cs);
                crate::cs::lemma_extends_trans(cs, &b1, &b0);
            }
            append_bytes(cs, &mut bytes, p1);
            let ghost b2 = *cs;
            let p2 = rr.c0.to_non_unique_bytes_le(cs)?;
            proof {
                crate::bits::lemma_fpvar_wf_extend(rr.c1, &b2, cs);
                lemma_bytes_wf_extend(bytes@, &b2, cs);
                crate::cs::lemma_extends_trans(cs, &b2, &b0);
            }
            append_bytes(cs, &mut bytes, p2);
            let ghost b3 = *cs;
            let p3 = rr.c1.to_non_unique_bytes_le(cs)?;
            proof {
                lemma_bytes_wf_extend(bytes@, &b3, cs);
                crate::cs::lemma_extends_trans(cs, &b3, &b0);
                crate::cs::lemma_extends_trans(cs, &b0, old(cs));
            }
            append_bytes(cs, &mut bytes, p3);
            i += 1;
        }
        Ok(bytes)
    }
}

} // verus!
