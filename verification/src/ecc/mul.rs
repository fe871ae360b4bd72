//! Variable-base scalar multiplication: a double-and-add ladder over the bits
//! of the scalar, most significant first, whose shape does not depend on the
//! bits.

use crate::ecc::add::add_points;
use crate::ecc::add_complete::{add_complete_points, no_complete_sum};
use crate::ecc::curve::{add_complete, add_incomplete, double, identity, negate, Affine, Pt};
use crate::ecc::double::double_point;
use crate::ecc::error::Error;
use crate::field::{fadd, BaseField, FieldElement};
use vstd::arithmetic::div_mod::lemma_small_mod;
use vstd::prelude::*;

verus! {

/// The point that a step adds: the base for a set bit, its inverse for a
/// clear one.
pub open spec fn addend(m: nat, t: Pt, bit: bool) -> Pt {
    if bit {
        t
    } else {
        negate(m, t)
    }
}

/// One step of the ladder: `acc + (acc + P)` for the addend `P`, which is
/// twice `acc` and then the base added or taken away.
pub open spec fn ladder_step(m: nat, acc: Pt, t: Pt, bit: bool) -> Pt {
    add_incomplete(m, acc, add_incomplete(m, acc, addend(m, t, bit)))
}

/// Both chords of a step exist.
pub open spec fn step_defined(m: nat, acc: Pt, t: Pt, bit: bool) -> bool {
    acc.x != t.x && acc.x != add_incomplete(m, acc, addend(m, t, bit)).x
}

/// The accumulator after the given bits, starting from twice the base.
pub open spec fn ladder(m: nat, t: Pt, bits: Seq<bool>) -> Pt
    decreases bits.len(),
{
    if bits.len() == 0 {
        double(m, t)
    } else {
        ladder_step(m, ladder(m, t, bits.drop_last()), t, bits.last())
    }
}

/// The tangent at the base and every chord of the ladder exist.
pub open spec fn ladder_defined(m: nat, t: Pt, bits: Seq<bool>) -> bool
    decreases bits.len(),
{
    if bits.len() == 0 {
        fadd(m, t.y, t.y) != 0
    } else {
        ladder_defined(m, t, bits.drop_last()) && step_defined(
            m,
            ladder(m, t, bits.drop_last()),
            t,
            bits.last(),
        )
    }
}

/// The operand of the last addition: nothing for a set bit, the inverse of
/// the base for a clear one.
pub open spec fn correction(m: nat, t: Pt, bit: bool) -> Pt {
    if bit {
        identity()
    } else {
        negate(m, t)
    }
}

/// The last step of the ladder, by complete additions: the addend is added
/// to the accumulator, and the accumulator to their sum.
pub open spec fn complete_step(m: nat, acc: Pt, t: Pt, bit: bool) -> Pt {
    add_complete(m, acc, add_complete(m, addend(m, t, bit), acc))
}

/// Both additions of the last step have a row to witness.
pub open spec fn complete_step_defined(m: nat, acc: Pt, t: Pt, bit: bool) -> bool {
    &&& !no_complete_sum(m, addend(m, t, bit), acc)
    &&& !no_complete_sum(m, acc, add_complete(m, addend(m, t, bit), acc))
}

/// The accumulator after all steps: every step but the last by chords, the
/// last by complete additions, which alone can meet the identity.
pub open spec fn ladder_end(m: nat, t: Pt, steps: Seq<bool>) -> Pt {
    if steps.len() == 0 {
        double(m, t)
    } else {
        complete_step(m, ladder(m, t, steps.drop_last()), t, steps.last())
    }
}

/// Every step of the ladder has its rows to witness.
pub open spec fn ladder_end_defined(m: nat, t: Pt, steps: Seq<bool>) -> bool {
    if steps.len() == 0 {
        ladder_defined(m, t, steps)
    } else {
        ladder_defined(m, t, steps.drop_last()) && complete_step_defined(
            m,
            ladder(m, t, steps.drop_last()),
            t,
            steps.last(),
        )
    }
}

/// The product that the ladder gives for big-endian bits: all bits but the
/// last run through the ladder, and a complete addition takes the base away
/// once more where the last bit is clear. For `n` bits of value `k` this is
/// `[2^(n-1) + k] T`.
pub open spec fn mul_var(m: nat, t: Pt, bits: Seq<bool>) -> Pt {
    add_complete(m, correction(m, t, bits.last()), ladder_end(m, t, bits.drop_last()))
}

/// There is a last bit, the ladder is defined, and the last addition has a
/// row to witness.
pub open spec fn mul_defined(m: nat, t: Pt, bits: Seq<bool>) -> bool {
    &&& bits.len() > 0
    &&& ladder_end_defined(m, t, bits.drop_last())
    &&& !no_complete_sum(m, correction(m, t, bits.last()), ladder_end(m, t, bits.drop_last()))
}

/// The inverse of a point.
pub fn negate_point<F: BaseField>(p: &Affine<F>) -> (r: Affine<F>)
    ensures
        r@ == negate(F::modulus(), p@),
{
    proof {
        F::lemma_modulus();
        lemma_small_mod(0, F::modulus());
    }
    Affine { x: p.x, y: F::from_u64(0).minus(&p.y) }
}

/// The product of the base `t` by the scalar that the big-endian `bits`
/// stand for. A ladder that meets a chord or a tangent that does not exist
/// has nothing to witness.
pub fn mul_points<F: BaseField>(bits: &Vec<bool>, t: &Affine<F>) -> (r: Result<Affine<F>, Error>)
    ensures
        r is Ok <==> mul_defined(F::modulus(), t@, bits@),
        r matches Ok(p) ==> p@ == mul_var(F::modulus(), t@, bits@),
        r matches Err(e) ==> e == Error::Synthesis,
{
    let n = bits.len();
    if n == 0 {
        return Err(Error::Synthesis);
    }
    let ghost m = F::modulus();
    let ghost steps = bits@.drop_last();
    let minus_t = negate_point(t);
    let mut acc = match double_point(t) {
        Some(d) => d,
        None => {
            proof {
                if n > 1 {
                    lemma_prefix_undefined(m, t@, steps, 0, n - 2);
                    assert(steps.take(n - 2) =~= steps.drop_last());
                }
                assert(steps.take(0) =~= Seq::<bool>::empty());
                if n == 1 {
                    assert(steps =~= Seq::<bool>::empty());
                }
            }
            return Err(Error::Synthesis);
        },
    };
    let mut i: usize = 0;
    while i + 2 < n
        invariant
            n == bits.len(),
            n > 0,
            i + 2 <= n || i == 0,
            m == F::modulus(),
            steps == bits@.drop_last(),
            minus_t@ == negate(m, t@),
            acc@ == ladder(m, t@, steps.take(i as int)),
            ladder_defined(m, t@, steps.take(i as int)),
        decreases n - i,
    {
        let p = if bits[i] {
            *t
        } else {
            minus_t
        };
        proof {
            assert(steps.take(i + 1).drop_last() =~= steps.take(i as int));
            assert(steps.take(i + 1).last() == bits@[i as int]);
        }
        let inner = match add_points(&acc, &p) {
            Some(s) => s,
            None => {
                proof {
                    lemma_prefix_undefined(m, t@, steps, i + 1, n - 2);
                    assert(steps.take(n - 2) =~= steps.drop_last());
                }
                return Err(Error::Synthesis);
            },
        };
        acc = match add_points(&acc, &inner) {
            Some(s) => s,
            None => {
                proof {
                    lemma_prefix_undefined(m, t@, steps, i + 1, n - 2);
                    assert(steps.take(n - 2) =~= steps.drop_last());
                }
                return Err(Error::Synthesis);
            },
        };
        i = i + 1;
    }
    if n >= 2 {
        proof {
            assert(steps.take(n - 2) =~= steps.drop_last());
            assert(steps.last() == bits@[n - 2]);
        }
        let p = if bits[n - 2] {
            *t
        } else {
            minus_t
        };
        let inner = match add_complete_points(&p, &acc) {
            Some(row) => row.sum,
            None => {
                return Err(Error::Synthesis);
            },
        };
        acc = match add_complete_points(&acc, &inner) {
            Some(row) => row.sum,
            None => {
                return Err(Error::Synthesis);
            },
        };
    } else {
        proof {
            assert(steps =~= Seq::<bool>::empty());
            assert(steps.take(0) =~= steps);
        }
    }
    let operand = correction_point(t, bits[n - 1]);
    match add_complete_points(&operand, &acc) {
        Some(row) => Ok(row.sum),
        None => Err(Error::Synthesis),
    }
}

/// The operand of the last addition of the ladder.
pub fn correction_point<F: BaseField>(t: &Affine<F>, bit: bool) -> (r: Affine<F>)
    ensures
        r@ == correction(F::modulus(), t@, bit),
{
    proof {
        F::lemma_modulus();
        lemma_small_mod(0, F::modulus());
    }
    if bit {
        Affine { x: F::from_u64(0), y: F::from_u64(0) }
    } else {
        negate_point(t)
    }
}

/// A ladder that is undefined on a prefix of the bits is undefined on every
/// longer prefix.
pub proof fn lemma_prefix_undefined(m: nat, t: Pt, bits: Seq<bool>, i: int, j: int)
    requires
        0 <= i <= j <= bits.len(),
        !ladder_defined(m, t, bits.take(i)),
    ensures
        !ladder_defined(m, t, bits.take(j)),
    decreases j - i,
{
    if i < j {
        assert(bits.take(j).drop_last() =~= bits.take(j - 1));
        lemma_prefix_undefined(m, t, bits, i, j - 1);
    }
}

} // verus!
