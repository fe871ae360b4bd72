//! Witnessed values: a cell of the grid with the value that it holds where
//! the value is known, and the points and scalars made of such cells.

use crate::circuit::{Cell, Column, ConstraintSystem, laid_out, Region, RegionView};
use crate::ecc::config::{EccConfig, Sizes};
use crate::ecc::curve::{Affine, Curve, Pt};
use crate::ecc::decompose::window_count;
use crate::ecc::error::Error;
use crate::ecc::fixed_base::{table_with, TableView, WindowTable};
use crate::ecc::gates::{configure, configured, gates_added, lookup_added};
use crate::ecc::layout::{
    add_complete_laid, add_complete_ok, add_laid, add_ok, double_laid, double_ok, Laid, lay_add,
    lay_add_complete, lay_double, lay_mul, lay_mul_fixed, lay_mul_fixed_short, lay_point,
    lay_scalar_fixed, lay_scalar_fixed_short, lay_scalar_var, mul_fixed_laid, mul_fixed_ok,
    mul_fixed_short_laid, mul_fixed_short_ok, mul_laid, mul_ok, point_laid, point_ok,
    scalar_error, scalar_fixed_laid, scalar_fixed_ok, scalar_fixed_short_laid,
    scalar_fixed_short_ok, scalar_var_error, scalar_var_laid, scalar_var_ok, windows_error,
};
use crate::ecc::window_points::{window_points, window_points_spec};
use crate::field::{BaseField, FieldElement};
use vstd::arithmetic::power2::pow2;
use vstd::prelude::*;

verus! {

/// A cell and the value assigned to it: known while proving, unknown while
/// only the shape of the circuit is laid out.
#[derive(Clone, Copy, Debug)]
pub struct CellValue<F: FieldElement> {
    pub cell: Cell,
    pub value: Option<F>,
}

impl<F: FieldElement> CellValue<F> {
    pub fn new(cell: Cell, value: Option<F>) -> (r: Self)
        ensures
            r.cell == cell,
            r.value == value,
    {
        CellValue { cell, value }
    }
}

/// A curve point in affine coordinates, each assigned to a cell.
#[derive(Clone, Copy, Debug)]
pub struct EccPoint<F: FieldElement> {
    pub x: CellValue<F>,
    pub y: CellValue<F>,
}

impl<F: FieldElement> EccPoint<F> {
    /// The coordinates, where both are known.
    pub open spec fn known(&self) -> Option<Pt> {
        match (self.x.value, self.y.value) {
            (Some(x), Some(y)) => Some(Pt { x: x.value(), y: y.value() }),
            _ => None,
        }
    }

    /// The values of the coordinates, where both are known.
    pub open spec fn coordinates(&self) -> Option<Affine<F>> {
        match (self.x.value, self.y.value) {
            (Some(x), Some(y)) => Some(Affine { x, y }),
            _ => None,
        }
    }

    /// The coordinates, where both are known.
    pub fn point(&self) -> (r: Option<Affine<F>>)
        ensures
            r == self.coordinates(),
            (match r {
                Some(p) => Some(p@),
                None => None,
            }) == self.known(),
    {
        match (self.x.value, self.y.value) {
            (Some(x), Some(y)) => Some(Affine { x, y }),
            _ => None,
        }
    }
}

/// A scalar for variable-base multiplication, decomposed into bits, most
/// significant first, after the curve's offset was added to it.
#[derive(Debug)]
pub struct EccScalarVar<C: Curve> {
    pub value: Option<C::Scalar>,
    pub bits: Option<Vec<bool>>,
    pub k_bits: Vec<CellValue<C::Base>>,
}

/// A full-width scalar for fixed-base multiplication, decomposed into
/// windows, least significant first.
#[derive(Debug)]
pub struct EccScalarFixed<C: Curve> {
    pub value: Option<C::Scalar>,
    pub digits: Option<Vec<u64>>,
    pub k_bits: Vec<CellValue<C::Base>>,
}

/// A short signed scalar for fixed-base multiplication: the windows of its
/// magnitude, least significant first, and its sign.
#[derive(Debug)]
pub struct EccScalarFixedShort<C: Curve> {
    pub magnitude: Option<C::Scalar>,
    pub negative: Option<bool>,
    pub digits: Option<Vec<u64>>,
    pub sign: CellValue<C::Base>,
    pub k_bits: Vec<CellValue<C::Base>>,
}

/// The fixed bases of the protocol.
#[derive(Clone, Copy, Debug, PartialEq, Eq, Structural, PartialOrd, Ord, Hash)]
pub enum EccFixedPoints {
    CommitIvkR,
    NoteCommitR,
    NullifierK,
    ValueCommitR,
    ValueCommitV,
}

impl EccFixedPoints {
    /// The name of the base; the bases are ordered as their names are.
    pub fn name(&self) -> (r: &'static str)
        ensures
            r@ == (match self {
                EccFixedPoints::CommitIvkR => "CommitIvkR"@,
                EccFixedPoints::NoteCommitR => "NoteCommitR"@,
                EccFixedPoints::NullifierK => "NullifierK"@,
                EccFixedPoints::ValueCommitR => "ValueCommitR"@,
                EccFixedPoints::ValueCommitV => "ValueCommitV"@,
            }),
    {
        match self {
            EccFixedPoints::CommitIvkR => "CommitIvkR",
            EccFixedPoints::NoteCommitR => "NoteCommitR",
            EccFixedPoints::NullifierK => "NullifierK",
            EccFixedPoints::ValueCommitR => "ValueCommitR",
            EccFixedPoints::ValueCommitV => "ValueCommitV",
        }
    }

    /// The place of the base among the five.
    pub fn index(&self) -> (r: usize)
        ensures
            r < 5,
            r == (match self {
                EccFixedPoints::CommitIvkR => 0usize,
                EccFixedPoints::NoteCommitR => 1usize,
                EccFixedPoints::NullifierK => 2usize,
                EccFixedPoints::ValueCommitR => 3usize,
                EccFixedPoints::ValueCommitV => 4usize,
            }),
    {
        match self {
            EccFixedPoints::CommitIvkR => 0,
            EccFixedPoints::NoteCommitR => 1,
            EccFixedPoints::NullifierK => 2,
            EccFixedPoints::ValueCommitR => 3,
            EccFixedPoints::ValueCommitV => 4,
        }
    }
}

/// A curve with the fixed bases of the protocol: the generator of each, the
/// sizes of scalars and windows, and for each generator and windowing the
/// offset `z` of each window.
pub trait FixedBases: Curve {
    /// The sizes that the protocol fixes.
    spec fn sizes() -> Sizes;

    /// The generator of a fixed base.
    spec fn generator(id: EccFixedPoints) -> Pt;

    /// The offsets of the windows of a fixed base, for full-width scalars
    /// or for short ones.
    spec fn offsets(id: EccFixedPoints, short: bool) -> Seq<u64>;

    fn protocol_sizes() -> (r: Sizes)
        ensures
            r == Self::sizes(),
            0 < r.window_width < 64,
    ;

    fn fixed_base(id: EccFixedPoints) -> (r: Affine<Self::Base>)
        ensures
            r@ == Self::generator(id),
    ;

    fn fixed_offsets(id: EccFixedPoints, short: bool) -> (r: Vec<u64>)
        ensures
            r@ == Self::offsets(id, short),
    ;
}

/// The tables of one fixed base: for full-width scalars and for short ones.
#[derive(Debug)]
pub struct EccFixedPoint<F: BaseField> {
    pub fixed_point: EccFixedPoints,
    pub full: WindowTable<F>,
    pub short: WindowTable<F>,
}

/// The table of a fixed base of the curve under one of the two windowings.
pub open spec fn protocol_table<C: FixedBases>(id: EccFixedPoints, short: bool) -> Option<
    TableView,
> {
    let sizes = C::sizes();
    let width = sizes.window_width as nat;
    let bits = if short {
        sizes.short_bits
    } else {
        sizes.scalar_bits
    };
    let n = window_count(bits as nat, width);
    table_with::<C::Base>(
        window_points_spec::<C>(C::generator(id), width, n),
        width,
        C::offsets(id, short),
    )
}

/// The five fixed bases in their order.
pub open spec fn fixed_points() -> Seq<EccFixedPoints> {
    seq![
        EccFixedPoints::CommitIvkR,
        EccFixedPoints::NoteCommitR,
        EccFixedPoints::NullifierK,
        EccFixedPoints::ValueCommitR,
        EccFixedPoints::ValueCommitV,
    ]
}

/// The tables of the fixed bases of the protocol, computed once and read
/// from then on.
#[derive(Debug)]
pub struct EccLoaded<F: BaseField> {
    tables: Vec<EccFixedPoint<F>>,
}

impl<F: BaseField> EccLoaded<F> {
    /// The tables that are loaded, in the order in which they were loaded.
    pub closed spec fn tables(&self) -> Seq<EccFixedPoint<F>> {
        self.tables@
    }

    /// The given tables, loaded in their order.
    pub fn with_tables(tables: Vec<EccFixedPoint<F>>) -> (r: Self)
        ensures
            r.tables() == tables@,
    {
        EccLoaded { tables }
    }

    /// `i` is the first place at which tables are loaded under the name.
    pub open spec fn first_of(&self, id: EccFixedPoints, i: int) -> bool {
        &&& 0 <= i < self.tables().len()
        &&& self.tables()[i].fixed_point == id
        &&& forall|j: int| 0 <= j < i ==> (#[trigger] self.tables()[j]).fixed_point != id
    }

    /// The tables of a fixed base: the first that are loaded under its
    /// name, if any are.
    pub open spec fn table_of(&self, id: EccFixedPoints) -> Option<EccFixedPoint<F>> {
        if exists|i: int| self.first_of(id, i) {
            Some(self.tables()[choose|i: int| self.first_of(id, i)])
        } else {
            None
        }
    }

    /// The tables of a fixed base: the first that are loaded under its
    /// name, if any are.
    pub fn get(&self, id: EccFixedPoints) -> (r: Option<&EccFixedPoint<F>>)
        ensures
            (match r {
                Some(t) => Some(*t),
                None => None,
            }) == self.table_of(id),
    {
        let mut i: usize = 0;
        while i < self.tables.len()
            invariant
                i <= self.tables.len(),
                forall|j: int| 0 <= j < i ==> (#[trigger] self.tables[j]).fixed_point != id,
            decreases self.tables.len() - i,
        {
            if self.tables[i].fixed_point == id {
                proof {
                    assert(self.first_of(id, i as int));
                    let k = choose|k: int| self.first_of(id, k);
                    assert(k == i);
                }
                return Some(&self.tables[i]);
            }
            i = i + 1;
        }
        None
    }

    /// The tables of one fixed base of the curve, built from its generator
    /// and the offsets of its windows.
    pub fn table_for<C: FixedBases<Base = F>>(id: EccFixedPoints) -> (r: Option<EccFixedPoint<F>>)
        ensures
            r is Some <==> protocol_table::<C>(id, false) is Some && protocol_table::<C>(
                id,
                true,
            ) is Some,
            r matches Some(t) ==> t.fixed_point == id && Some(t.full@) == protocol_table::<C>(
                id,
                false,
            ) && Some(t.short@) == protocol_table::<C>(id, true),
    {
        let sizes = C::protocol_sizes();
        let base = C::fixed_base(id);
        let full = match one_table::<C>(&base, id, sizes.scalar_bits, false) {
            Some(t) => t,
            None => {
                return None;
            },
        };
        let short = match one_table::<C>(&base, id, sizes.short_bits, true) {
            Some(t) => t,
            None => {
                return None;
            },
        };
        Some(EccFixedPoint { fixed_point: id, full, short })
    }

    /// Loads the tables of the five fixed bases of the curve. It fails where
    /// an offset does not resolve its window.
    pub fn load<C: FixedBases<Base = F>>() -> (r: Result<Self, Error>)
        ensures
            r is Ok <==> forall|i: int|
                0 <= i < 5 ==> protocol_table::<C>(#[trigger] fixed_points()[i], false) is Some
                    && protocol_table::<C>(fixed_points()[i], true) is Some,
            r matches Err(e) ==> e == Error::Synthesis,
            r matches Ok(loaded) ==> loaded.tables().len() == 5 && forall|i: int|
                0 <= i < 5 ==> {
                    let t = #[trigger] loaded.tables()[i];
                    &&& t.fixed_point == fixed_points()[i]
                    &&& Some(t.full@) == protocol_table::<C>(t.fixed_point, false)
                    &&& Some(t.short@) == protocol_table::<C>(t.fixed_point, true)
                },
    {
        let ids: [EccFixedPoints; 5] = [
            EccFixedPoints::CommitIvkR,
            EccFixedPoints::NoteCommitR,
            EccFixedPoints::NullifierK,
            EccFixedPoints::ValueCommitR,
            EccFixedPoints::ValueCommitV,
        ];
        let mut tables: Vec<EccFixedPoint<F>> = Vec::new();
        let mut i: usize = 0;
        while i < 5
            invariant
                i <= 5,
                ids@ == fixed_points(),
                tables.len() == i,
                forall|j: int|
                    0 <= j < i ==> {
                        let t = #[trigger] tables[j];
                        &&& t.fixed_point == fixed_points()[j]
                        &&& Some(t.full@) == protocol_table::<C>(t.fixed_point, false)
                        &&& Some(t.short@) == protocol_table::<C>(t.fixed_point, true)
                    },
            decreases 5 - i,
        {
            match Self::table_for::<C>(ids[i]) {
                Some(t) => {
                    tables.push(t);
                },
                None => {
                    return Err(Error::Synthesis);
                },
            }
            i = i + 1;
        }
        proof {
            assert forall|j: int| 0 <= j < 5 implies protocol_table::<C>(
                #[trigger] fixed_points()[j],
                false,
            ) is Some && protocol_table::<C>(fixed_points()[j], true) is Some by {
                assert(tables[j].fixed_point == fixed_points()[j]);
            }
        }
        Ok(EccLoaded { tables })
    }
}

/// The table of a fixed base under one windowing.
fn one_table<C: FixedBases>(
    base: &Affine<C::Base>,
    id: EccFixedPoints,
    bits: u16,
    short: bool,
) -> (r: Option<WindowTable<C::Base>>)
    requires
        base@ == C::generator(id),
        bits == (if short {
            C::sizes().short_bits
        } else {
            C::sizes().scalar_bits
        }),
    ensures
        (match r {
            Some(t) => Some(t@),
            None => None,
        }) == protocol_table::<C>(id, short),
{
    let sizes = C::protocol_sizes();
    let width = sizes.window_width;
    proof {
        let total = bits as int + width as int - 1;
        let q = total / (width as int);
        vstd::arithmetic::div_mod::lemma_fundamental_div_mod(total, width as int);
        assert(0 <= q <= bits) by (nonlinear_arith)
            requires
                total == (width as int) * q + total % (width as int),
                0 <= total % (width as int) < width,
                total == bits as int + width as int - 1,
                width >= 1,
                bits >= 0,
        ;
    }
    let n: usize = ((bits as usize) + (width as usize) - 1) / (width as usize);
    let offsets = C::fixed_offsets(id, short);
    match window_points::<C>(base, width, n) {
        None => None,
        Some(points) => WindowTable::with_offsets(&points, width, &offsets),
    }
}

/// The gadgets on one circuit: their configuration, the tables of the
/// fixed bases, the region that they assign, and the first row that is not
/// yet used.
#[derive(Debug)]
pub struct EccChip<C: Curve> {
    pub config: EccConfig,
    pub loaded: EccLoaded<C::Base>,
    pub region: Region<C::Base>,
    pub next_row: usize,
}

/// What placing a layout does to a chip: where the rows fit and the region
/// can take every step, the region has taken them, the layout's result is
/// handed out and the rows are used up; elsewhere nothing can be
/// witnessed.
pub open spec fn placed<C: Curve, T>(
    before: EccChip<C>,
    after: EccChip<C>,
    l: Laid<T, C::Base>,
    r: Result<T, Error>,
) -> bool {
    &&& after.config == before.config
    &&& after.loaded == before.loaded
    &&& r is Ok <==> before.next_row + l.rows <= usize::MAX && laid_out(
        before.region@,
        l.ops@,
    ) is Some
    &&& r matches Ok(v) ==> v == l.result && Some(after.region@) == laid_out(
        before.region@,
        l.ops@,
    ) && after.next_row == before.next_row + l.rows
    &&& r matches Err(e) ==> e == Error::Synthesis
}

/// A chip that handed out an error is as it was, but for its region.
pub open spec fn refused<C: Curve>(before: EccChip<C>, after: EccChip<C>) -> bool {
    &&& after.config == before.config
    &&& after.loaded == before.loaded
    &&& after.next_row == before.next_row
}

impl<C: Curve> EccChip<C> {
    /// Configures the gadgets on the given advice columns of a circuit.
    pub fn configure(
        meta: &mut ConstraintSystem<C::Base>,
        sizes: Sizes,
        bits: Column,
        u: Column,
        a: (Column, Column),
        p: (Column, Column),
        lambda: (Column, Column),
        add_complete_bool: [Column; 4],
        add_complete_inv: [Column; 4],
    ) -> (r: EccConfig)
        requires
            0 < sizes.window_width < 64,
            old(meta).num_selectors + 10 <= usize::MAX,
            old(meta).num_fixed + pow2(sizes.window_width as nat) + 1 <= usize::MAX,
        ensures
            configured(
                *old(meta),
                r,
                sizes,
                bits,
                u,
                a,
                p,
                lambda,
                add_complete_bool,
                add_complete_inv,
            ),
            final(meta).num_advice == old(meta).num_advice,
            final(meta).num_selectors == old(meta).num_selectors + 10,
            final(meta).num_fixed == old(meta).num_fixed + pow2(sizes.window_width as nat) + 1,
            final(meta).permutations@.len() == old(meta).permutations@.len() + 2,
            gates_added::<C>(old(meta).gates@, final(meta).gates@, r),
            lookup_added(old(meta).lookups@, final(meta).lookups@, r),
    {
        configure::<C>(meta, sizes, bits, u, a, p, lambda, add_complete_bool, add_complete_inv)
    }

    /// A chip on an empty region of `2^k` rows.
    pub fn new(config: EccConfig, loaded: EccLoaded<C::Base>, k: u32, proving: bool) -> (r: Option<
        Self,
    >)
        ensures
            r is Some <==> k < usize::BITS,
            r matches Some(chip) ==> chip.config == config && chip.loaded == loaded
                && chip.next_row == 0 && chip.region@ == (RegionView::<C::Base> {
                proving,
                rows: pow2(k as nat),
                cells: Seq::empty(),
                enabled: Seq::empty(),
                copies: Seq::empty(),
            }),
    {
        match Region::new(k, proving) {
            Some(region) => Some(EccChip { config, loaded, region, next_row: 0 }),
            None => None,
        }
    }

    /// Carries out a layout on the region, from the first unused row on.
    pub fn place<T>(&mut self, laid: Laid<T, C::Base>) -> (r: Result<T, Error>)
        ensures
            placed(*old(self), *final(self), laid, r),
    {
        if self.next_row > usize::MAX - laid.rows {
            return Err(Error::Synthesis);
        }
        match self.region.run(&laid.ops) {
            Ok(()) => {},
            Err(e) => {
                return Err(e);
            },
        }
        self.next_row = self.next_row + laid.rows;
        Ok(laid.result)
    }

    /// Witnesses a point. A known pair of coordinates must lie on the
    /// curve.
    pub fn witness_point(&mut self, value: Option<Affine<C::Base>>) -> (r: Result<
        EccPoint<C::Base>,
        Error,
    >)
        ensures
            !point_ok::<C>(value) ==> r == Err::<EccPoint<C::Base>, Error>(Error::InvalidPoint)
                && refused(*old(self), *final(self)),
            point_ok::<C>(value) ==> exists|l: Laid<EccPoint<C::Base>, C::Base>| #[trigger]
                point_laid::<C>(old(self).config, value, old(self).next_row, l) && placed(
                    *old(self),
                    *final(self),
                    l,
                    r,
                ),
    {
        let laid = match lay_point::<C>(&self.config, value, self.next_row) {
            Ok(l) => l,
            Err(e) => {
                return Err(e);
            },
        };
        let ghost l = laid;
        let r = self.place(laid);
        proof {
            assert(point_laid::<C>(old(self).config, value, old(self).next_row, l));
        }
        r
    }

    /// The tables of a fixed base, where they are loaded.
    pub fn get_fixed(&self, fixed_point: EccFixedPoints) -> (r: Result<
        &EccFixedPoint<C::Base>,
        Error,
    >)
        ensures
            (match r {
                Ok(t) => Some(*t),
                Err(_) => None,
            }) == self.loaded.table_of(fixed_point),
            r matches Err(e) ==> e == Error::Synthesis,
    {
        match self.loaded.get(fixed_point) {
            Some(t) => Ok(t),
            None => Err(Error::Synthesis),
        }
    }

    /// Witnesses a scalar for variable-base multiplication.
    pub fn witness_scalar_var(&mut self, value: Option<C::Scalar>) -> (r: Result<
        EccScalarVar<C>,
        Error,
    >)
        ensures
            !scalar_var_ok::<C>(old(self).config, value, old(self).next_row) ==> r == Err::<
                EccScalarVar<C>,
                Error,
            >(scalar_var_error(old(self).config, old(self).next_row)) && refused(
                *old(self),
                *final(self),
            ),
            scalar_var_ok::<C>(old(self).config, value, old(self).next_row) ==> exists|
                l: Laid<EccScalarVar<C>, C::Base>,
            | #[trigger]
                scalar_var_laid::<C>(old(self).config, value, old(self).next_row, l) && placed(
                    *old(self),
                    *final(self),
                    l,
                    r,
                ),
    {
        let laid = match lay_scalar_var::<C>(&self.config, value, self.next_row) {
            Ok(l) => l,
            Err(e) => {
                return Err(e);
            },
        };
        let ghost l = laid;
        let r = self.place(laid);
        proof {
            assert(scalar_var_laid::<C>(old(self).config, value, old(self).next_row, l));
        }
        r
    }

    /// Witnesses a full-width scalar for fixed-base multiplication.
    pub fn witness_scalar_fixed(&mut self, value: Option<C::Scalar>) -> (r: Result<
        EccScalarFixed<C>,
        Error,
    >)
        requires
            0 < old(self).config.sizes.window_width < 64,
        ensures
            !scalar_fixed_ok::<C>(old(self).config, value, old(self).next_row) ==> r == Err::<
                EccScalarFixed<C>,
                Error,
            >(scalar_error(value, old(self).config.sizes.scalar_bits)) && refused(
                *old(self),
                *final(self),
            ),
            scalar_fixed_ok::<C>(old(self).config, value, old(self).next_row) ==> exists|
                l: Laid<EccScalarFixed<C>, C::Base>,
            | #[trigger]
                scalar_fixed_laid::<C>(old(self).config, value, old(self).next_row, l) && placed(
                    *old(self),
                    *final(self),
                    l,
                    r,
                ),
    {
        let laid = match lay_scalar_fixed::<C>(&self.config, value, self.next_row) {
            Ok(l) => l,
            Err(e) => {
                return Err(e);
            },
        };
        let ghost l = laid;
        let r = self.place(laid);
        proof {
            assert(scalar_fixed_laid::<C>(old(self).config, value, old(self).next_row, l));
        }
        r
    }

    /// Witnesses a short signed scalar for fixed-base multiplication: its
    /// magnitude and its sign, which is set for a negative scalar.
    pub fn witness_scalar_fixed_short(
        &mut self,
        magnitude: Option<C::Scalar>,
        sign: Option<bool>,
    ) -> (r: Result<EccScalarFixedShort<C>, Error>)
        requires
            0 < old(self).config.sizes.window_width < 64,
        ensures
            !scalar_fixed_short_ok::<C>(old(self).config, magnitude, sign, old(self).next_row)
                ==> r == Err::<EccScalarFixedShort<C>, Error>(
                scalar_error(magnitude, old(self).config.sizes.short_bits),
            ) && refused(*old(self), *final(self)),
            scalar_fixed_short_ok::<C>(old(self).config, magnitude, sign, old(self).next_row)
                ==> exists|l: Laid<EccScalarFixedShort<C>, C::Base>| #[trigger]
                scalar_fixed_short_laid::<C>(
                    old(self).config,
                    magnitude,
                    sign,
                    old(self).next_row,
                    l,
                ) && placed(*old(self), *final(self), l, r),
    {
        let laid = match lay_scalar_fixed_short::<C>(&self.config, magnitude, sign, self.next_row) {
            Ok(l) => l,
            Err(e) => {
                return Err(e);
            },
        };
        let ghost l = laid;
        let r = self.place(laid);
        proof {
            assert(scalar_fixed_short_laid::<C>(
                old(self).config,
                magnitude,
                sign,
                old(self).next_row,
                l,
            ));
        }
        r
    }

    /// Adds two points that differ in their abscissa.
    pub fn add(&mut self, a: &EccPoint<C::Base>, b: &EccPoint<C::Base>) -> (r: Result<
        EccPoint<C::Base>,
        Error,
    >)
        ensures
            !add_ok(old(self).config, *a, *b, old(self).next_row) ==> r == Err::<
                EccPoint<C::Base>,
                Error,
            >(Error::Synthesis) && refused(*old(self), *final(self)),
            add_ok(old(self).config, *a, *b, old(self).next_row) ==> exists|
                l: Laid<EccPoint<C::Base>, C::Base>,
            | #[trigger]
                add_laid(old(self).config, *a, *b, old(self).next_row, l) && placed(
                    *old(self),
                    *final(self),
                    l,
                    r,
                ),
    {
        let laid = match lay_add(&self.config, a, b, self.next_row) {
            Ok(l) => l,
            Err(e) => {
                return Err(e);
            },
        };
        let ghost l = laid;
        let r = self.place(laid);
        proof {
            assert(add_laid(old(self).config, *a, *b, old(self).next_row, l));
        }
        r
    }

    /// Adds any two points.
    pub fn add_complete(&mut self, a: &EccPoint<C::Base>, b: &EccPoint<C::Base>) -> (r: Result<
        EccPoint<C::Base>,
        Error,
    >)
        ensures
            !add_complete_ok(old(self).config, *a, *b, old(self).next_row) ==> r == Err::<
                EccPoint<C::Base>,
                Error,
            >(Error::Synthesis) && refused(*old(self), *final(self)),
            add_complete_ok(old(self).config, *a, *b, old(self).next_row) ==> exists|
                l: Laid<EccPoint<C::Base>, C::Base>,
            | #[trigger]
                add_complete_laid(old(self).config, *a, *b, old(self).next_row, l) && placed(
                    *old(self),
                    *final(self),
                    l,
                    r,
                ),
    {
        let laid = match lay_add_complete(&self.config, a, b, self.next_row) {
            Ok(l) => l,
            Err(e) => {
                return Err(e);
            },
        };
        let ghost l = laid;
        let r = self.place(laid);
        proof {
            assert(add_complete_laid(old(self).config, *a, *b, old(self).next_row, l));
        }
        r
    }

    /// Doubles a point of order above two.
    pub fn double(&mut self, a: &EccPoint<C::Base>) -> (r: Result<EccPoint<C::Base>, Error>)
        ensures
            !double_ok(old(self).config, *a, old(self).next_row) ==> r == Err::<
                EccPoint<C::Base>,
                Error,
            >(Error::Synthesis) && refused(*old(self), *final(self)),
            double_ok(old(self).config, *a, old(self).next_row) ==> exists|
                l: Laid<EccPoint<C::Base>, C::Base>,
            | #[trigger]
                double_laid(old(self).config, *a, old(self).next_row, l) && placed(
                    *old(self),
                    *final(self),
                    l,
                    r,
                ),
    {
        let laid = match lay_double(&self.config, a, self.next_row) {
            Ok(l) => l,
            Err(e) => {
                return Err(e);
            },
        };
        let ghost l = laid;
        let r = self.place(laid);
        proof {
            assert(double_laid(old(self).config, *a, old(self).next_row, l));
        }
        r
    }

    /// Multiplies a point by a witnessed scalar.
    pub fn mul(&mut self, scalar: &EccScalarVar<C>, base: &EccPoint<C::Base>) -> (r: Result<
        EccPoint<C::Base>,
        Error,
    >)
        ensures
            !mul_ok::<C>(old(self).config, *scalar, *base, old(self).next_row) ==> r == Err::<
                EccPoint<C::Base>,
                Error,
            >(Error::Synthesis) && refused(*old(self), *final(self)),
            mul_ok::<C>(old(self).config, *scalar, *base, old(self).next_row) ==> exists|
                l: Laid<EccPoint<C::Base>, C::Base>,
            | #[trigger]
                mul_laid::<C>(old(self).config, *scalar, *base, old(self).next_row, l) && placed(
                    *old(self),
                    *final(self),
                    l,
                    r,
                ),
    {
        let laid = match lay_mul::<C>(&self.config, scalar, base, self.next_row) {
            Ok(l) => l,
            Err(e) => {
                return Err(e);
            },
        };
        let ghost l = laid;
        let r = self.place(laid);
        proof {
            assert(mul_laid::<C>(old(self).config, *scalar, *base, old(self).next_row, l));
        }
        r
    }

    /// Multiplies a fixed base by a witnessed full-width scalar. The tables
    /// of the base must be loaded.
    pub fn mul_fixed(&mut self, scalar: &EccScalarFixed<C>, base: EccFixedPoints) -> (r: Result<
        EccPoint<C::Base>,
        Error,
    >)
        ensures
            old(self).loaded.table_of(base) is None ==> r == Err::<EccPoint<C::Base>, Error>(
                Error::Synthesis,
            ) && refused(*old(self), *final(self)),
            old(self).loaded.table_of(base) matches Some(t) ==> {
                &&& !mul_fixed_ok::<C>(old(self).config, *scalar, t.full, old(self).next_row)
                    ==> r == Err::<EccPoint<C::Base>, Error>(
                    windows_error(scalar.digits, t.full@),
                ) && refused(*old(self), *final(self))
                &&& mul_fixed_ok::<C>(old(self).config, *scalar, t.full, old(self).next_row)
                    ==> exists|l: Laid<EccPoint<C::Base>, C::Base>| #[trigger]
                    mul_fixed_laid::<C>(
                        old(self).config,
                        *scalar,
                        t.full,
                        old(self).next_row,
                        l,
                    ) && placed(*old(self), *final(self), l, r)
            },
    {
        let table = match self.loaded.get(base) {
            Some(t) => t,
            None => {
                return Err(Error::Synthesis);
            },
        };
        let ghost full = table.full;
        let laid = match lay_mul_fixed::<C>(&self.config, scalar, &table.full, self.next_row) {
            Ok(l) => l,
            Err(e) => {
                return Err(e);
            },
        };
        let ghost l = laid;
        let r = self.place(laid);
        proof {
            assert(mul_fixed_laid::<C>(old(self).config, *scalar, full, old(self).next_row, l));
        }
        r
    }

    /// Multiplies a fixed base by a witnessed short signed scalar. The
    /// tables of the base must be loaded.
    pub fn mul_fixed_short(&mut self, scalar: &EccScalarFixedShort<C>, base: EccFixedPoints) -> (r:
        Result<EccPoint<C::Base>, Error>)
        ensures
            old(self).loaded.table_of(base) is None ==> r == Err::<EccPoint<C::Base>, Error>(
                Error::Synthesis,
            ) && refused(*old(self), *final(self)),
            old(self).loaded.table_of(base) matches Some(t) ==> {
                &&& !mul_fixed_short_ok::<C>(
                    old(self).config,
                    *scalar,
                    t.short,
                    old(self).next_row,
                ) ==> r == Err::<EccPoint<C::Base>, Error>(
                    windows_error(scalar.digits, t.short@),
                ) && refused(*old(self), *final(self))
                &&& mul_fixed_short_ok::<C>(old(self).config, *scalar, t.short, old(self).next_row)
                    ==> exists|l: Laid<EccPoint<C::Base>, C::Base>| #[trigger]
                    mul_fixed_short_laid::<C>(
                        old(self).config,
                        *scalar,
                        t.short,
                        old(self).next_row,
                        l,
                    ) && placed(*old(self), *final(self), l, r)
            },
    {
        let table = match self.loaded.get(base) {
            Some(t) => t,
            None => {
                return Err(Error::Synthesis);
            },
        };
        let ghost short = table.short;
        let laid = match lay_mul_fixed_short::<C>(&self.config, scalar, &table.short, self.next_row) {
            Ok(l) => l,
            Err(e) => {
                return Err(e);
            },
        };
        let ghost l = laid;
        let r = self.place(laid);
        proof {
            assert(mul_fixed_short_laid::<C>(
                old(self).config,
                *scalar,
                short,
                old(self).next_row,
                l,
            ));
        }
        r
    }

    /// The abscissa of a witnessed point.
    pub fn extract_p(point: &EccPoint<C::Base>) -> (r: &CellValue<C::Base>)
        ensures
            *r == point.x,
    {
        &point.x
    }
}

} // verus!
