//! Fixed-base multiplication by a short signed scalar: the product by the
//! magnitude, with its ordinate negated where the sign is set.

use crate::ecc::curve::{negate, Affine, Pt};
use crate::ecc::decompose::{as_digits, in_range};
use crate::ecc::error::Error;
use crate::ecc::fixed_base::WindowTable;
use crate::ecc::mul::negate_point;
use crate::ecc::mul_fixed::{mul_fixed_defined, mul_fixed_points, mul_fixed_spec};
use crate::field::{fadd, fsub, lemma_fadd_zero, lemma_fsub_zero, BaseField, FieldElement};
use vstd::prelude::*;

verus! {

/// The signed product: the unsigned point, or its inverse under a set sign.
pub open spec fn apply_sign(m: nat, unsigned: Pt, sign: bool) -> Pt {
    if sign {
        negate(m, unsigned)
    } else {
        unsigned
    }
}

/// The polynomial that ties the signed ordinate to the unsigned one:
/// `s (y + y_out) + (1 - s) (y - y_out)`, which is the sum of the ordinates
/// under a set sign and their difference under a clear one.
pub open spec fn sign_gate(m: nat, sign: bool, y: nat, y_out: nat) -> nat {
    if sign {
        fadd(m, y, y_out)
    } else {
        fsub(m, y, y_out)
    }
}

/// The product of the table's base by the short scalar with the given
/// magnitude windows and sign. The abscissa is that of the unsigned product;
/// the ordinate makes the sign polynomial vanish.
pub fn mul_fixed_short_points<F: BaseField>(
    table: &WindowTable<F>,
    magnitude: &Vec<u64>,
    sign: bool,
) -> (r: Result<Affine<F>, Error>)
    ensures
        r is Ok <==> mul_fixed_defined(F::modulus(), table@, as_digits(magnitude@)),
        r matches Ok(p) ==> {
            let unsigned = mul_fixed_spec(F::modulus(), table@, as_digits(magnitude@));
            &&& p@ == apply_sign(F::modulus(), unsigned, sign)
            &&& p@.x == unsigned.x
            &&& (unsigned.y < F::modulus() ==> sign_gate(F::modulus(), sign, unsigned.y, p@.y)
                == 0)
        },
        r matches Err(e) ==> e == (if magnitude.len() == table@.rows.len() && !in_range(
            as_digits(magnitude@),
            table@.width,
        ) {
            Error::TableLookup
        } else {
            Error::Synthesis
        }),
{
    match mul_fixed_points(table, magnitude) {
        Err(e) => Err(e),
        Ok(unsigned) => {
            proof {
                F::lemma_modulus();
                unsigned.y.lemma_value();
                lemma_fsub_zero(F::modulus(), unsigned@.y, unsigned@.y);
                lemma_fadd_zero(F::modulus(), unsigned@.y, negate(F::modulus(), unsigned@).y);
            }
            if sign {
                Ok(negate_point(&unsigned))
            } else {
                Ok(unsigned)
            }
        },
    }
}

/// A set sign gives the inverse of what a clear sign gives.
pub proof fn lemma_sign_negates(m: nat, unsigned: Pt)
    ensures
        apply_sign(m, unsigned, true) == negate(m, apply_sign(m, unsigned, false)),
{
}

} // verus!
