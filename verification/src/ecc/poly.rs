//! Polynomials over the field, as sequences of coefficients from the constant
//! term up.

use crate::field::{fadd, fmul, FieldElement};
use vstd::arithmetic::div_mod::lemma_small_mod;
use vstd::prelude::*;

verus! {

/// The representatives of a sequence of field elements.
pub open spec fn values<F: FieldElement>(v: Seq<F>) -> Seq<nat> {
    v.map_values(|e: F| e.value())
}

/// The value at `x` of the polynomial with coefficients `c`, modulo `m`.
pub open spec fn poly_eval(m: nat, c: Seq<nat>, x: nat) -> nat
    decreases c.len(),
{
    if c.len() == 0 {
        0
    } else {
        fadd(m, c[0], fmul(m, x, poly_eval(m, c.drop_first(), x)))
    }
}

/// The value of a polynomial at a point, by Horner's rule.
pub fn eval<F: FieldElement>(c: &Vec<F>, x: &F) -> (r: F)
    ensures
        r.value() == poly_eval(F::modulus(), values(c@), x.value()),
{
    proof {
        F::lemma_modulus();
        lemma_small_mod(0, F::modulus());
    }
    let mut acc = F::from_u64(0);
    let mut i: usize = c.len();
    proof {
        assert(values(c@).skip(i as int) =~= Seq::<nat>::empty());
    }
    while i > 0
        invariant
            i <= c.len(),
            acc.value() == poly_eval(F::modulus(), values(c@).skip(i as int), x.value()),
        decreases i,
    {
        i = i - 1;
        proof {
            let s = values(c@).skip(i as int);
            assert(s.drop_first() =~= values(c@).skip(i + 1));
            assert(s[0] == c@[i as int].value());
        }
        acc = c[i].plus(&x.times(&acc));
    }
    proof {
        assert(values(c@).skip(0) =~= values(c@));
    }
    acc
}

} // verus!
