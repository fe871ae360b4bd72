//! Fixed-base scalar multiplication: each window's digit selects a point of
//! the base's table, and complete addition sums the points.

use crate::ecc::add_complete::{add_complete_points, no_complete_sum};
use crate::ecc::curve::{add_complete, identity, Affine, Pt};
use crate::ecc::decompose::{as_digits, check_windows, in_range};
use crate::ecc::error::Error;
use crate::ecc::fixed_base::{row_point, TableView, WindowTable};
use crate::field::{BaseField, FieldElement};
use vstd::prelude::*;

verus! {

/// The point of window `w` for its digit.
pub open spec fn window_point(m: nat, t: TableView, digits: Seq<nat>, w: int) -> Pt {
    row_point(m, t.rows[w], digits[w] as int)
}

/// The sum of the points of the first `n` windows: the first window's point,
/// and each further point added to the sum of those before it.
pub open spec fn window_sum(m: nat, t: TableView, digits: Seq<nat>, n: nat) -> Pt
    decreases n,
{
    if n == 0 {
        identity()
    } else if n == 1 {
        window_point(m, t, digits, 0)
    } else {
        add_complete(
            m,
            window_point(m, t, digits, n - 1),
            window_sum(m, t, digits, (n - 1) as nat),
        )
    }
}

/// Every addition in the sum of the first `n` windows has a row to witness.
pub open spec fn sum_defined(m: nat, t: TableView, digits: Seq<nat>, n: nat) -> bool
    decreases n,
{
    if n <= 1 {
        true
    } else {
        sum_defined(m, t, digits, (n - 1) as nat) && !no_complete_sum(
            m,
            window_point(m, t, digits, n - 1),
            window_sum(m, t, digits, (n - 1) as nat),
        )
    }
}

/// The product that a table and the digits of a scalar give.
pub open spec fn mul_fixed_spec(m: nat, t: TableView, digits: Seq<nat>) -> Pt {
    window_sum(m, t, digits, digits.len())
}

/// The scalar has a digit for each window of the table, each digit within
/// the window, and the sum of the windows' points can be witnessed.
pub open spec fn mul_fixed_defined(m: nat, t: TableView, digits: Seq<nat>) -> bool {
    &&& digits.len() == t.rows.len()
    &&& in_range(digits, t.width)
    &&& sum_defined(m, t, digits, digits.len())
}

/// A sum that is undefined on the first windows is undefined on more.
proof fn lemma_sum_undefined(m: nat, t: TableView, digits: Seq<nat>, i: nat, n: nat)
    requires
        i <= n,
        !sum_defined(m, t, digits, i),
    ensures
        !sum_defined(m, t, digits, n),
    decreases n - i,
{
    if i < n {
        lemma_sum_undefined(m, t, digits, i, (n - 1) as nat);
    }
}

/// The product of the table's base by the scalar with the given windows,
/// least significant first. A scalar of another length than the table has
/// nothing to witness; a digit outside its window fails the lookup.
pub fn mul_fixed_points<F: BaseField>(table: &WindowTable<F>, digits: &Vec<u64>) -> (r: Result<
    Affine<F>,
    Error,
>)
    ensures
        r is Ok <==> mul_fixed_defined(F::modulus(), table@, as_digits(digits@)),
        r matches Ok(p) ==> p@ == mul_fixed_spec(F::modulus(), table@, as_digits(digits@)),
        r matches Err(e) ==> e == (if digits.len() == table@.rows.len() && !in_range(
            as_digits(digits@),
            table@.width,
        ) {
            Error::TableLookup
        } else {
            Error::Synthesis
        }),
{
    let ghost m = F::modulus();
    let ghost ds = as_digits(digits@);
    let n = table.num_windows();
    if digits.len() != n {
        return Err(Error::Synthesis);
    }
    match check_windows(digits, table.width()) {
        Err(e) => {
            return Err(e);
        },
        Ok(()) => {},
    }
    let mut acc = match window_point_exec(table, digits, 0) {
        Some(p) => p,
        None => {
            return Err(Error::Synthesis);
        },
    };
    let mut w: usize = 1;
    while w < n
        invariant
            1 <= w <= n,
            n == digits.len(),
            n == table@.rows.len(),
            m == F::modulus(),
            ds == as_digits(digits@),
            in_range(ds, table@.width),
            acc@ == window_sum(m, table@, ds, w as nat),
            sum_defined(m, table@, ds, w as nat),
        decreases n - w,
    {
        let p = match window_point_exec(table, digits, w) {
            Some(p) => p,
            None => {
                return Err(Error::Synthesis);
            },
        };
        acc = match add_complete_points(&p, &acc) {
            Some(row) => row.sum,
            None => {
                proof {
                    lemma_sum_undefined(m, table@, ds, (w + 1) as nat, n as nat);
                }
                return Err(Error::Synthesis);
            },
        };
        w = w + 1;
    }
    Ok(acc)
}

/// The point of window `w` of the table for the digit of that window.
fn window_point_exec<F: BaseField>(table: &WindowTable<F>, digits: &Vec<u64>, w: usize) -> (r:
    Option<Affine<F>>)
    requires
        w < digits.len(),
        digits.len() == table@.rows.len(),
        in_range(as_digits(digits@), table@.width),
    ensures
        r matches Some(p) && p@ == window_point(F::modulus(), table@, as_digits(digits@), w as int),
{
    proof {
        assert(as_digits(digits@)[w as int] == digits[w as int] as nat);
    }
    match table.row(w) {
        None => None,
        Some(row) => row.point(digits[w]),
    }
}

} // verus!
