//! The table of a fixed base: for each window of the scalar, the polynomial
//! that interpolates the abscissas of the window's points, an offset `z` and
//! one root `u` for each point, so that the ordinate `y` of a point is read
//! off as `u^2 - z` while `z - y` has no root.

use crate::ecc::curve::{Affine, Pt};
use crate::ecc::interpolate::{interpolate, interpolates, newton, nodes_invertible, value_at};
use crate::ecc::poly::{eval, values};
use crate::field::{
    BaseField, fadd, FieldElement, fmul, fsub, is_root, is_square, lemma_eqm_ops,
    lemma_eqm_reduced, lemma_eqm_ring,
};
use vstd::arithmetic::power2::pow2;
use vstd::prelude::*;

verus! {

/// What the row of one window holds, as numbers.
pub ghost struct RowView {
    pub coeffs: Seq<nat>,
    pub z: nat,
    pub u: Seq<nat>,
}

/// What a table holds, as numbers.
pub ghost struct TableView {
    pub width: nat,
    pub rows: Seq<RowView>,
}

/// The abscissas of a sequence of points.
pub open spec fn xs_of(pts: Seq<Pt>) -> Seq<nat> {
    pts.map_values(|p: Pt| p.x)
}

/// The ordinates of a sequence of points.
pub open spec fn ys_of(pts: Seq<Pt>) -> Seq<nat> {
    pts.map_values(|p: Pt| p.y)
}

/// The points that a vector of coordinate pairs holds.
pub open spec fn points_of<F: FieldElement>(v: Seq<Affine<F>>) -> Seq<Pt> {
    v.map_values(|p: Affine<F>| p@)
}

/// The point that a row gives for the digit `k`.
pub open spec fn row_point(m: nat, row: RowView, k: int) -> Pt {
    Pt {
        x: value_at(m, row.coeffs, k),
        y: fsub(m, fmul(m, row.u[k], row.u[k]), row.z % m),
    }
}

/// The offset `z` resolves the sign of every ordinate: `y + z` is a square
/// and `z - y` is not.
pub open spec fn resolves(m: nat, ys: Seq<nat>, z: nat) -> bool {
    forall|k: int|
        0 <= k < ys.len() ==> is_square(m, fadd(m, #[trigger] ys[k], z % m)) && !is_square(
            m,
            fsub(m, z % m, ys[k]),
        )
}

/// The least offset from `from` on and below `limit` that resolves the
/// ordinates.
pub open spec fn first_resolving(m: nat, ys: Seq<nat>, from: nat, limit: nat) -> Option<nat>
    decreases limit - from,
{
    if from >= limit {
        None
    } else if resolves(m, ys, from) {
        Some(from)
    } else {
        first_resolving(m, ys, from + 1, limit)
    }
}

/// The offset that the search finds resolves the ordinates, and no offset
/// before it does.
pub proof fn lemma_first_resolving(m: nat, ys: Seq<nat>, from: nat, limit: nat)
    ensures
        first_resolving(m, ys, from, limit) matches Some(z) ==> from <= z < limit && resolves(
            m,
            ys,
            z,
        ) && forall|w: nat| from <= w < z ==> !resolves(m, ys, w),
        first_resolving(m, ys, from, limit) is None ==> forall|w: nat|
            from <= w < limit ==> !resolves(m, ys, w),
    decreases limit - from,
{
    if from < limit && !resolves(m, ys, from) {
        lemma_first_resolving(m, ys, from + 1, limit);
    }
}

/// The row of a window with the given points, searched under `limit`: the
/// interpolating coefficients, the least resolving offset and the roots.
pub open spec fn row_spec<F: BaseField>(pts: Seq<Pt>, limit: nat) -> Option<RowView> {
    let m = F::modulus();
    if !nodes_invertible(m, pts.len()) {
        None
    } else {
        match first_resolving(m, ys_of(pts), 0, limit) {
            None => None,
            Some(z) => Some(
                RowView {
                    coeffs: newton(m, xs_of(pts), pts.len()),
                    z,
                    u: Seq::new(pts.len(), |k: int| F::root_of(fadd(m, pts[k].y, z % m))),
                },
            ),
        }
    }
}

/// The row of a window with the given points and the given offset, where
/// the offset resolves the ordinates.
pub open spec fn row_with<F: BaseField>(pts: Seq<Pt>, z: nat) -> Option<RowView> {
    let m = F::modulus();
    if nodes_invertible(m, pts.len()) && resolves(m, ys_of(pts), z) {
        Some(
            RowView {
                coeffs: newton(m, xs_of(pts), pts.len()),
                z,
                u: Seq::new(pts.len(), |k: int| F::root_of(fadd(m, pts[k].y, z % m))),
            },
        )
    } else {
        None
    }
}

/// The row that the search gives is the row of the offset that it finds.
pub proof fn lemma_row_spec<F: BaseField>(pts: Seq<Pt>, limit: nat)
    ensures
        row_spec::<F>(pts, limit) matches Some(row) ==> row_with::<F>(pts, row.z) == Some(row),
{
    lemma_first_resolving(F::modulus(), ys_of(pts), 0, limit);
}

/// The roots of `y + z` for every ordinate, if `z` resolves them all.
fn roots_for<F: BaseField>(ys: &Vec<F>, z: u64) -> (r: Option<Vec<F>>)
    ensures
        r is Some <==> resolves(F::modulus(), values(ys@), z as nat),
        r matches Some(us) ==> us.len() == ys.len() && forall|k: int|
            0 <= k < ys.len() ==> (#[trigger] us[k]).value() == F::root_of(
                fadd(F::modulus(), ys[k].value(), (z as nat) % F::modulus()),
            ) && is_root(
                F::modulus(),
                fadd(F::modulus(), ys[k].value(), (z as nat) % F::modulus()),
                us[k].value(),
            ),
{
    let ghost m = F::modulus();
    let zf = F::from_u64(z);
    let mut us: Vec<F> = Vec::new();
    let mut k: usize = 0;
    while k < ys.len()
        invariant
            m == F::modulus(),
            k <= ys.len(),
            us.len() == k,
            zf.value() == (z as nat) % m,
            forall|i: int|
                0 <= i < k ==> is_square(m, fadd(m, #[trigger] values(ys@)[i], zf.value()))
                    && !is_square(m, fsub(m, zf.value(), values(ys@)[i])),
            forall|i: int|
                0 <= i < k ==> (#[trigger] us[i]).value() == F::root_of(
                    fadd(m, ys[i].value(), zf.value()),
                ) && is_root(m, fadd(m, ys[i].value(), zf.value()), us[i].value()),
        decreases ys.len() - k,
    {
        proof {
            assert(values(ys@)[k as int] == ys[k as int].value());
        }
        if zf.minus(&ys[k]).sqrt().is_some() {
            return None;
        }
        match ys[k].plus(&zf).sqrt() {
            None => {
                return None;
            },
            Some(u) => {
                us.push(u);
            },
        }
        k = k + 1;
    }
    proof {
        assert forall|i: int| 0 <= i < ys.len() implies is_square(
            m,
            fadd(m, #[trigger] values(ys@)[i], (z as nat) % m),
        ) && !is_square(m, fsub(m, (z as nat) % m, values(ys@)[i])) by {}
    }
    Some(us)
}

/// The least offset below `limit` that resolves the ordinates, with the
/// roots that go with it.
pub fn find_offset<F: BaseField>(ys: &Vec<F>, limit: u64) -> (r: Option<(u64, Vec<F>)>)
    ensures
        (match r {
            Some((z, _)) => Some(z as nat),
            None => None,
        }) == first_resolving(F::modulus(), values(ys@), 0, limit as nat),
        r matches Some((z, us)) ==> us.len() == ys.len() && forall|k: int|
            0 <= k < ys.len() ==> (#[trigger] us[k]).value() == F::root_of(
                fadd(F::modulus(), ys[k].value(), (z as nat) % F::modulus()),
            ) && is_root(
                F::modulus(),
                fadd(F::modulus(), ys[k].value(), (z as nat) % F::modulus()),
                us[k].value(),
            ),
{
    let ghost m = F::modulus();
    let mut z: u64 = 0;
    while z < limit
        invariant
            m == F::modulus(),
            z <= limit,
            first_resolving(m, values(ys@), 0, limit as nat) == first_resolving(
                m,
                values(ys@),
                z as nat,
                limit as nat,
            ),
        decreases limit - z,
    {
        match roots_for(ys, z) {
            Some(us) => {
                return Some((z, us));
            },
            None => {},
        }
        z = z + 1;
    }
    None
}

/// The row of one window of a table.
#[derive(Debug)]
pub struct WindowRow<F: BaseField> {
    coeffs: Vec<F>,
    z: u64,
    u: Vec<F>,
}

impl<F: BaseField> View for WindowRow<F> {
    type V = RowView;

    closed spec fn view(&self) -> RowView {
        RowView { coeffs: values(self.coeffs@), z: self.z as nat, u: values(self.u@) }
    }
}

/// Subtracting what was added gives back the number.
proof fn lemma_add_then_sub(m: nat, y: nat, z: nat)
    requires
        m > 0,
        y < m,
    ensures
        fsub(m, fadd(m, y, z), z) == y,
{
    lemma_eqm_ops(m, y, z);
    lemma_eqm_ops(m, fadd(m, y, z), z);
    lemma_eqm_ring(m, fadd(m, y, z) as int, (y + z) as int, z as int, z as int);
    lemma_eqm_reduced(m, fsub(m, fadd(m, y, z), z), y);
}

impl<F: BaseField> WindowRow<F> {
    #[verifier::type_invariant]
    spec fn well_formed(self) -> bool {
        &&& self.coeffs.len() == self.u.len()
        &&& forall|k: int|
            0 <= k < self.u.len() ==> !is_square(
                F::modulus(),
                fsub(
                    F::modulus(),
                    self.z as nat % F::modulus(),
                    #[trigger] row_point(F::modulus(), self@, k).y,
                ),
            )
    }

    /// The number of digits that the row has a point for.
    pub fn size(&self) -> (r: usize)
        ensures
            r == self@.coeffs.len(),
            r == self@.u.len(),
    {
        proof {
            use_type_invariant(self);
        }
        self.coeffs.len()
    }

    /// The offset of the row.
    pub fn offset(&self) -> (r: u64)
        ensures
            r == self@.z,
    {
        self.z
    }

    /// Coefficient `k` of the row's polynomial, if there is one.
    pub fn coefficient(&self, k: usize) -> (r: Option<F>)
        ensures
            r is Some <==> k < self@.coeffs.len(),
            r matches Some(c) ==> c.value() == self@.coeffs[k as int],
    {
        if k < self.coeffs.len() {
            Some(self.coeffs[k])
        } else {
            None
        }
    }

    /// The root that the row holds for the digit `k`, if there is one.
    pub fn root(&self, k: usize) -> (r: Option<F>)
        ensures
            r is Some <==> k < self@.u.len(),
            r matches Some(c) ==> c.value() == self@.u[k as int],
    {
        if k < self.u.len() {
            Some(self.u[k])
        } else {
            None
        }
    }

    /// The point of the window for the digit `k`: the polynomial's value at
    /// `k`, and the ordinate `u^2 - z`. Its sign is resolved: `z - y` is no
    /// square. A digit that the row has no entry for fails the lookup.
    pub fn point(&self, k: u64) -> (r: Option<Affine<F>>)
        ensures
            r is Some <==> k < self@.u.len(),
            r matches Some(p) ==> p@ == row_point(F::modulus(), self@, k as int) && !is_square(
                F::modulus(),
                fsub(F::modulus(), self@.z % F::modulus(), p@.y),
            ),
    {
        proof {
            use_type_invariant(self);
        }
        if k >= self.u.len() as u64 {
            return None;
        }
        let at = F::from_u64(k);
        let x = eval(&self.coeffs, &at);
        let u = self.u[k as usize];
        let y = u.times(&u).minus(&F::from_u64(self.z));
        Some(Affine { x, y })
    }

    /// The row for the points of one window, one point for each digit, with
    /// the offset searched below `limit`.
    pub fn build(points: &Vec<Affine<F>>, limit: u64) -> (r: Option<WindowRow<F>>)
        ensures
            (match r {
                Some(row) => Some(row@),
                None => None,
            }) == row_spec::<F>(points_of(points@), limit as nat),
            r matches Some(row) ==> row@.u.len() == points.len() && row@.coeffs.len()
                == points.len(),
            r matches Some(row) ==> forall|k: int|
                0 <= k < points.len() ==> #[trigger] row_point(F::modulus(), row@, k)
                    == points[k]@,
    {
        if !Self::can_interpolate(points.len()) {
            return None;
        }
        let mut z: u64 = 0;
        while z < limit
            invariant
                z <= limit,
                nodes_invertible(F::modulus(), points.len() as nat),
                first_resolving(F::modulus(), ys_of(points_of(points@)), 0, limit as nat)
                    == first_resolving(
                    F::modulus(),
                    ys_of(points_of(points@)),
                    z as nat,
                    limit as nat,
                ),
            decreases limit - z,
        {
            match WindowRow::with_offset(points, z) {
                Some(row) => {
                    return Some(row);
                },
                None => {},
            }
            z = z + 1;
        }
        None
    }

    /// Whether as many values can be interpolated.
    fn can_interpolate(n: usize) -> (r: bool)
        ensures
            r == nodes_invertible(F::modulus(), n as nat),
    {
        proof {
            F::lemma_modulus();
            vstd::arithmetic::div_mod::lemma_small_mod(0, F::modulus());
        }
        let mut zeros: Vec<F> = Vec::new();
        let mut i: usize = 0;
        while i < n
            invariant
                i <= n,
                zeros.len() == i,
            decreases n - i,
        {
            zeros.push(F::from_u64(0));
            i = i + 1;
        }
        interpolate(&zeros).is_some()
    }

    /// The row for the points of one window, one point for each digit, with
    /// the given offset. There is none where the offset does not resolve
    /// the ordinates.
    pub fn with_offset(points: &Vec<Affine<F>>, z: u64) -> (r: Option<WindowRow<F>>)
        ensures
            (match r {
                Some(row) => Some(row@),
                None => None,
            }) == row_with::<F>(points_of(points@), z as nat),
            r matches Some(row) ==> row@.u.len() == points.len() && row@.coeffs.len()
                == points.len(),
            r matches Some(row) ==> forall|k: int|
                0 <= k < points.len() ==> #[trigger] row_point(F::modulus(), row@, k)
                    == points[k]@,
    {
        let ghost m = F::modulus();
        let ghost pts = points_of(points@);
        let mut xs: Vec<F> = Vec::new();
        let mut ys: Vec<F> = Vec::new();
        let mut i: usize = 0;
        while i < points.len()
            invariant
                i <= points.len(),
                xs.len() == i,
                ys.len() == i,
                pts == points_of(points@),
                forall|k: int| 0 <= k < i ==> (#[trigger] xs[k]).value() == pts[k].x,
                forall|k: int| 0 <= k < i ==> (#[trigger] ys[k]).value() == pts[k].y,
            decreases points.len() - i,
        {
            xs.push(points[i].x);
            ys.push(points[i].y);
            i = i + 1;
        }
        proof {
            assert(values(xs@) =~= xs_of(pts));
            assert(values(ys@) =~= ys_of(pts));
        }
        let u = match roots_for(&ys, z) {
            None => {
                return None;
            },
            Some(found) => found,
        };
        let coeffs = match interpolate(&xs) {
            None => {
                return None;
            },
            Some(c) => c,
        };
        let ghost view = RowView { coeffs: values(coeffs@), z: z as nat, u: values(u@) };
        proof {
            F::lemma_modulus();
            assert(view.u =~= Seq::new(pts.len(), |k: int| F::root_of(fadd(m, pts[k].y, view.z % m))));
            assert forall|k: int| 0 <= k < points.len() implies #[trigger] row_point(m, view, k)
                == points[k]@ && !is_square(m, fsub(m, view.z % m, row_point(m, view, k).y)) by {
                let y = pts[k].y;
                points[k].y.lemma_value();
                assert(ys_of(pts)[k] == y);
                assert(values(xs@)[k] == pts[k].x);
                assert(value_at(m, values(coeffs@), k) == values(xs@)[k]);
                assert(is_root(m, fadd(m, y, view.z % m), u[k].value()));
                lemma_add_then_sub(m, y, view.z % m);
            }
        }
        Some(WindowRow { coeffs, z, u })
    }
}

/// The rows of a table for the given points of each window, if every window
/// has `2^width` points and a row.
pub open spec fn table_spec<F: BaseField>(pts: Seq<Seq<Pt>>, width: nat, limit: nat) -> Option<
    TableView,
> {
    if 0 < width < 64 && pts.len() > 0 && (forall|w: int|
        0 <= w < pts.len() ==> (#[trigger] pts[w]).len() == pow2(width) && row_spec::<F>(
            pts[w],
            limit,
        ) is Some) {
        Some(
            TableView {
                width,
                rows: Seq::new(pts.len(), |w: int| row_spec::<F>(pts[w], limit).unwrap()),
            },
        )
    } else {
        None
    }
}

/// The rows of a table for the given points and the given offset of each
/// window.
pub open spec fn table_with<F: BaseField>(pts: Seq<Seq<Pt>>, width: nat, zs: Seq<u64>) -> Option<
    TableView,
> {
    if 0 < width < 64 && pts.len() > 0 && zs.len() == pts.len() && (forall|w: int|
        0 <= w < pts.len() ==> (#[trigger] pts[w]).len() == pow2(width) && row_with::<F>(
            pts[w],
            zs[w] as nat,
        ) is Some) {
        Some(
            TableView {
                width,
                rows: Seq::new(pts.len(), |w: int| row_with::<F>(pts[w], zs[w] as nat).unwrap()),
            },
        )
    } else {
        None
    }
}

/// Building is a function of its inputs: two tables built for the same
/// points, width and limit hold the same coefficients, offsets and roots.
pub proof fn lemma_build_deterministic<F: BaseField>(
    one: TableView,
    two: TableView,
    pts: Seq<Seq<Pt>>,
    width: nat,
    limit: nat,
)
    requires
        table_spec::<F>(pts, width, limit) == Some(one),
        table_spec::<F>(pts, width, limit) == Some(two),
    ensures
        one.width == two.width,
        one.rows.len() == two.rows.len(),
        forall|w: int|
            0 <= w < one.rows.len() ==> (#[trigger] one.rows[w]).coeffs == two.rows[w].coeffs
                && one.rows[w].z == two.rows[w].z && one.rows[w].u == two.rows[w].u,
{
}

/// The points that the windows of a table are built from.
pub open spec fn windows_of<F: FieldElement>(v: Seq<Vec<Affine<F>>>) -> Seq<Seq<Pt>> {
    v.map_values(|w: Vec<Affine<F>>| points_of(w@))
}

/// The table of one fixed base under one windowing of its scalars: a row for
/// each window, each with an entry for each of the `2^width` digits.
#[derive(Debug)]
pub struct WindowTable<F: BaseField> {
    width: u8,
    rows: Vec<WindowRow<F>>,
}

impl<F: BaseField> View for WindowTable<F> {
    type V = TableView;

    closed spec fn view(&self) -> TableView {
        TableView { width: self.width as nat, rows: self.rows@.map_values(|r: WindowRow<F>| r@) }
    }
}

impl<F: BaseField> WindowTable<F> {
    #[verifier::type_invariant]
    spec fn well_formed(self) -> bool {
        &&& 0 < self.width < 64
        &&& self.rows.len() > 0
        &&& forall|w: int|
            0 <= w < self.rows.len() ==> (#[trigger] self.rows[w])@.u.len() == pow2(
                self.width as nat,
            )
    }

    /// The width of a window in bits, between 1 and 63.
    pub fn width(&self) -> (r: u8)
        ensures
            r == self@.width,
            0 < r < 64,
    {
        proof {
            use_type_invariant(self);
        }
        self.width
    }

    /// The number of windows, which is not zero.
    pub fn num_windows(&self) -> (r: usize)
        ensures
            r == self@.rows.len(),
            r > 0,
    {
        proof {
            use_type_invariant(self);
        }
        self.rows.len()
    }

    /// The row of window `w`, if there is one.
    pub fn row(&self, w: usize) -> (r: Option<&WindowRow<F>>)
        ensures
            r is Some <==> w < self@.rows.len(),
            r matches Some(row) ==> row@ == self@.rows[w as int] && row@.u.len() == pow2(
                self@.width,
            ) && row@.coeffs.len() == row@.u.len(),
    {
        proof {
            use_type_invariant(self);
        }
        if w < self.rows.len() {
            let row = &self.rows[w];
            proof {
                use_type_invariant(row);
            }
            Some(row)
        } else {
            None
        }
    }

    /// The table for the points of each window, `2^width` points to a
    /// window, with the given offset for each window. Every entry of the
    /// table gives back the point that it was built from.
    pub fn with_offsets(points: &Vec<Vec<Affine<F>>>, width: u8, zs: &Vec<u64>) -> (r: Option<
        WindowTable<F>,
    >)
        ensures
            (match r {
                Some(t) => Some(t@),
                None => None,
            }) == table_with::<F>(windows_of(points@), width as nat, zs@),
            r matches Some(t) ==> forall|w: int, k: int|
                0 <= w < points.len() && 0 <= k < points[w].len() ==> #[trigger] row_point(
                    F::modulus(),
                    t@.rows[w],
                    k,
                ) == points[w][k]@,
    {
        let ghost pts = windows_of(points@);
        if width == 0 || width >= 64 || points.len() == 0 || zs.len() != points.len() {
            return None;
        }
        proof {
            vstd::bits::lemma_u64_pow2_no_overflow(width as nat);
            vstd::bits::lemma_u64_shl_is_mul(1, width as u64);
        }
        let size: u64 = 1u64 << (width as u64);
        let mut rows: Vec<WindowRow<F>> = Vec::new();
        let mut w: usize = 0;
        while w < points.len()
            invariant
                w <= points.len(),
                rows.len() == w,
                zs.len() == points.len(),
                pts == windows_of(points@),
                size == pow2(width as nat),
                forall|i: int|
                    0 <= i < w ==> (#[trigger] pts[i]).len() == size && row_with::<F>(
                        pts[i],
                        zs[i] as nat,
                    ) == Some(rows[i]@),
                forall|i: int| 0 <= i < w ==> (#[trigger] rows[i])@.u.len() == size,
                forall|i: int, k: int|
                    0 <= i < w && 0 <= k < points[i].len() ==> #[trigger] row_point(
                        F::modulus(),
                        rows[i]@,
                        k,
                    ) == points[i][k]@,
            decreases points.len() - w,
        {
            proof {
                assert(pts[w as int] == points_of(points[w as int]@));
            }
            if points[w].len() as u64 != size {
                return None;
            }
            match WindowRow::with_offset(&points[w], zs[w]) {
                None => {
                    return None;
                },
                Some(row) => {
                    rows.push(row);
                },
            }
            w = w + 1;
        }
        let ghost view = TableView {
            width: width as nat,
            rows: rows@.map_values(|r: WindowRow<F>| r@),
        };
        proof {
            assert(view.rows =~= Seq::new(
                pts.len(),
                |w: int| row_with::<F>(pts[w], zs[w] as nat).unwrap(),
            ));
        }
        Some(WindowTable { width, rows })
    }

    /// The table for the points of each window, `2^width` points to a
    /// window, with each offset searched below `limit`. Every entry of the
    /// table gives back the point that it was built from.
    pub fn build(points: &Vec<Vec<Affine<F>>>, width: u8, limit: u64) -> (r: Option<
        WindowTable<F>,
    >)
        ensures
            (match r {
                Some(t) => Some(t@),
                None => None,
            }) == table_spec::<F>(windows_of(points@), width as nat, limit as nat),
            r matches Some(t) ==> forall|w: int, k: int|
                0 <= w < points.len() && 0 <= k < points[w].len() ==> #[trigger] row_point(
                    F::modulus(),
                    t@.rows[w],
                    k,
                ) == points[w][k]@,
    {
        let ghost pts = windows_of(points@);
        if width == 0 || width >= 64 || points.len() == 0 {
            return None;
        }
        proof {
            vstd::bits::lemma_u64_pow2_no_overflow(width as nat);
            vstd::bits::lemma_u64_shl_is_mul(1, width as u64);
        }
        let size: u64 = 1u64 << (width as u64);
        let mut rows: Vec<WindowRow<F>> = Vec::new();
        let mut w: usize = 0;
        while w < points.len()
            invariant
                w <= points.len(),
                rows.len() == w,
                pts == windows_of(points@),
                size == pow2(width as nat),
                forall|i: int|
                    0 <= i < w ==> (#[trigger] pts[i]).len() == size && row_spec::<F>(
                        pts[i],
                        limit as nat,
                    ) == Some(rows[i]@),
                forall|i: int| 0 <= i < w ==> (#[trigger] rows[i])@.u.len() == size,
                forall|i: int, k: int|
                    0 <= i < w && 0 <= k < points[i].len() ==> #[trigger] row_point(
                        F::modulus(),
                        rows[i]@,
                        k,
                    ) == points[i][k]@,
            decreases points.len() - w,
        {
            proof {
                assert(pts[w as int] == points_of(points[w as int]@));
            }
            if points[w].len() as u64 != size {
                return None;
            }
            match WindowRow::build(&points[w], limit) {
                None => {
                    return None;
                },
                Some(row) => {
                    rows.push(row);
                },
            }
            w = w + 1;
        }
        let ghost view = TableView {
            width: width as nat,
            rows: rows@.map_values(|r: WindowRow<F>| r@),
        };
        proof {
            assert(view.rows =~= Seq::new(
                pts.len(),
                |w: int| row_spec::<F>(pts[w], limit as nat).unwrap(),
            ));
        }
        Some(WindowTable { width, rows })
    }
}

} // verus!
