//! The grid that gadgets write to and the gates that constrain it, held in
//! memory: columns and selectors, cells that are assigned once, polynomial
//! gates over the cells of a row and the next, and the check that every
//! enabled gate vanishes.

use crate::ecc::error::Error;
use crate::field::{fadd, FieldElement, fmul, fsub};
use vstd::arithmetic::div_mod::lemma_small_mod;
use vstd::prelude::*;

verus! {

/// The two kinds of column: advice columns hold witnesses, fixed columns
/// hold constants of the circuit.
#[derive(Clone, Copy, Debug, PartialEq, Eq, Structural)]
pub enum ColumnKind {
    Advice,
    Fixed,
}

/// A column of the grid.
#[derive(Clone, Copy, Debug, PartialEq, Eq, Structural)]
pub struct Column {
    pub kind: ColumnKind,
    pub index: usize,
}

/// A flag for each row that enables the gates that name it.
#[derive(Clone, Copy, Debug, PartialEq, Eq, Structural)]
pub struct Selector {
    pub index: usize,
}

/// A place in the grid.
#[derive(Clone, Copy, Debug, PartialEq, Eq, Structural)]
pub struct Cell {
    pub column: Column,
    pub row: usize,
}

/// A cell that was assigned, with its value where the value is known.
#[derive(Clone, Copy, Debug)]
pub struct Assigned<F: FieldElement> {
    pub cell: Cell,
    pub value: Option<F>,
}

/// A polynomial over the cells of a row and of the row after it.
#[derive(Debug)]
pub enum Expression<F: FieldElement> {
    /// A constant of the field.
    Constant(F),
    /// One on the rows where the selector is enabled, zero elsewhere.
    Enabled(Selector),
    /// The cell of the column on this row, or on the next.
    Query(Column, bool),
    Sum(Box<Expression<F>>, Box<Expression<F>>),
    Difference(Box<Expression<F>>, Box<Expression<F>>),
    Product(Box<Expression<F>>, Box<Expression<F>>),
}

/// A named polynomial that must vanish on every row.
#[derive(Debug)]
pub struct Gate<F: FieldElement> {
    pub name: &'static str,
    pub poly: Expression<F>,
}

/// The number that an assigned cell counts as: its value, or zero where the
/// value is unknown.
pub open spec fn assigned_value<F: FieldElement>(a: Assigned<F>) -> nat {
    match a.value {
        Some(v) => v.value(),
        None => 0,
    }
}

/// The cell is among the assigned ones.
pub open spec fn is_assigned<F: FieldElement>(cells: Seq<Assigned<F>>, cell: Cell) -> bool {
    exists|i: int| 0 <= i < cells.len() && (#[trigger] cells[i]).cell == cell
}

/// `i` is the first place at which the cell is assigned.
pub open spec fn first_at<F: FieldElement>(cells: Seq<Assigned<F>>, cell: Cell, i: int) -> bool {
    &&& 0 <= i < cells.len()
    &&& cells[i].cell == cell
    &&& forall|j: int| 0 <= j < i ==> (#[trigger] cells[j]).cell != cell
}

/// The number in a cell: that of its assignment, or zero where it has none.
pub open spec fn cell_value<F: FieldElement>(cells: Seq<Assigned<F>>, cell: Cell) -> nat {
    if exists|i: int| first_at(cells, cell, i) {
        assigned_value(cells[choose|i: int| first_at(cells, cell, i)])
    } else {
        0
    }
}

/// No cell is assigned twice.
pub open spec fn single_assignment<F: FieldElement>(cells: Seq<Assigned<F>>) -> bool {
    forall|i: int, j: int|
        0 <= i < j < cells.len() ==> (#[trigger] cells[i]).cell != (#[trigger] cells[j]).cell
}

/// What a region holds.
pub ghost struct RegionView<F: FieldElement> {
    pub proving: bool,
    pub rows: nat,
    pub cells: Seq<Assigned<F>>,
    pub enabled: Seq<(Selector, usize)>,
    pub copies: Seq<(Cell, Cell)>,
}

/// One step of a layout: a value for a cell, a selector for a row, or an
/// equality between two cells.
#[derive(Clone, Copy, Debug)]
pub enum Op<F: FieldElement> {
    Assign(Column, usize, Option<F>),
    Enable(Selector, usize),
    Copy(Cell, Cell),
}

/// The region after one step, where the step can be taken: a cell is
/// assigned once, within the rows of the region, and in a proving region
/// with a known value; a selector is enabled within the rows of the region.
pub open spec fn step<F: FieldElement>(g: RegionView<F>, op: Op<F>) -> Option<RegionView<F>> {
    match op {
        Op::Assign(column, row, value) => {
            let cell = Cell { column, row };
            if row < g.rows && !is_assigned(g.cells, cell) && (g.proving ==> value is Some) {
                Some(RegionView { cells: g.cells.push(Assigned { cell, value }), ..g })
            } else {
                None
            }
        },
        Op::Enable(selector, row) => if row < g.rows {
            Some(RegionView { enabled: g.enabled.push((selector, row)), ..g })
        } else {
            None
        },
        Op::Copy(left, right) => Some(RegionView { copies: g.copies.push((left, right)), ..g }),
    }
}

/// The region after all steps of a layout, where each can be taken in turn.
pub open spec fn laid_out<F: FieldElement>(g: RegionView<F>, ops: Seq<Op<F>>) -> Option<
    RegionView<F>,
>
    decreases ops.len(),
{
    if ops.len() == 0 {
        Some(g)
    } else {
        match laid_out(g, ops.drop_last()) {
            Some(before) => step(before, ops.last()),
            None => None,
        }
    }
}

/// A layout whose first steps cannot be taken cannot be taken.
pub proof fn lemma_laid_out_prefix<F: FieldElement>(g: RegionView<F>, ops: Seq<Op<F>>, n: int)
    requires
        0 <= n <= ops.len(),
        laid_out(g, ops.take(n)) is None,
    ensures
        laid_out(g, ops) is None,
    decreases ops.len() - n,
{
    if n < ops.len() {
        assert(ops.take(n + 1).drop_last() =~= ops.take(n));
        lemma_laid_out_prefix(g, ops, n + 1);
    } else {
        assert(ops.take(n) =~= ops);
    }
}

/// What a step does, with the number that it assigns in place of the field
/// element that stands for it.
pub ghost enum Expect {
    Assign(Column, usize, Option<nat>),
    Enable(Selector, usize),
    Copy(Cell, Cell),
}

/// What a step does, as numbers.
pub open spec fn expect_of<F: FieldElement>(op: Op<F>) -> Expect {
    match op {
        Op::Assign(column, row, value) => Expect::Assign(
            column,
            row,
            match value {
                Some(v) => Some(v.value()),
                None => None,
            },
        ),
        Op::Enable(selector, row) => Expect::Enable(selector, row),
        Op::Copy(left, right) => Expect::Copy(left, right),
    }
}

/// What the steps of a layout do, as numbers.
pub open spec fn expects<F: FieldElement>(ops: Seq<Op<F>>) -> Seq<Expect> {
    ops.map_values(|op: Op<F>| expect_of(op))
}

/// Adds a step to a layout.
pub fn push_op<F: FieldElement>(ops: &mut Vec<Op<F>>, op: Op<F>)
    ensures
        final(ops)@ == old(ops)@.push(op),
        expects(final(ops)@) == expects(old(ops)@).push(expect_of(op)),
{
    ops.push(op);
    proof {
        assert(expects(final(ops)@) =~= expects(old(ops)@).push(expect_of(op)));
    }
}

/// The number that a step assigns: that of its value, or zero where it
/// assigns no value.
pub open spec fn assigned_number<F: FieldElement>(value: Option<F>) -> nat {
    match value {
        Some(v) => v.value(),
        None => 0,
    }
}

/// Assigning a cell that was not assigned puts its number there and leaves
/// every other cell as it was.
pub proof fn lemma_push_value<F: FieldElement>(cells: Seq<Assigned<F>>, a: Assigned<F>, c: Cell)
    requires
        !is_assigned(cells, a.cell),
    ensures
        is_assigned(cells.push(a), a.cell),
        cell_value(cells.push(a), a.cell) == assigned_value(a),
        c != a.cell ==> cell_value(cells.push(a), c) == cell_value(cells, c) && (is_assigned(
            cells.push(a),
            c,
        ) <==> is_assigned(cells, c)),
{
    let after = cells.push(a);
    let n = cells.len() as int;
    assert(after[n] == a);
    assert forall|j: int| 0 <= j < n implies (#[trigger] after[j]).cell != a.cell by {
        assert(after[j] == cells[j]);
    }
    assert(first_at(after, a.cell, n));
    let k = choose|k: int| first_at(after, a.cell, k);
    assert(k == n);
    if c != a.cell {
        if is_assigned(after, c) {
            let j = choose|j: int| 0 <= j < after.len() && (#[trigger] after[j]).cell == c;
            assert(j < n);
            assert(cells[j] == after[j]);
        }
        if is_assigned(cells, c) {
            let j = choose|j: int| 0 <= j < cells.len() && (#[trigger] cells[j]).cell == c;
            assert(after[j] == cells[j]);
        }
        assert forall|i: int| first_at(cells, c, i) <==> first_at(after, c, i) by {
            if first_at(cells, c, i) {
                assert(after[i] == cells[i]);
                assert forall|j: int| 0 <= j < i implies (#[trigger] after[j]).cell != c by {
                    assert(after[j] == cells[j]);
                }
            }
            if first_at(after, c, i) {
                assert(i < n);
                assert(after[i] == cells[i]);
                assert forall|j: int| 0 <= j < i implies (#[trigger] cells[j]).cell != c by {
                    assert(after[j] == cells[j]);
                }
            }
        }
        if exists|i: int| first_at(cells, c, i) {
            let i = choose|i: int| first_at(cells, c, i);
            assert(first_at(after, c, i));
            let i2 = choose|i: int| first_at(after, c, i);
            assert(first_at(cells, c, i2));
            assert(i == i2);
            assert(after[i] == cells[i]);
        } else {
            assert(!exists|i: int| first_at(after, c, i));
        }
    }
}

/// A region that has taken every step of a layout holds, in each cell that
/// a step assigns, the number that the step assigns.
pub proof fn lemma_laid_out_assigns<F: FieldElement>(g: RegionView<F>, ops: Seq<Op<F>>, i: int)
    requires
        laid_out(g, ops) is Some,
        0 <= i < ops.len(),
        ops[i] is Assign,
    ensures
        ({
            let after = laid_out(g, ops).unwrap();
            let cell = Cell { column: ops[i]->Assign_0, row: ops[i]->Assign_1 };
            is_assigned(after.cells, cell) && cell_value(after.cells, cell) == assigned_number(
                ops[i]->Assign_2,
            )
        }),
    decreases ops.len(),
{
    let before = laid_out(g, ops.drop_last()).unwrap();
    let last = ops.last();
    let cell = Cell { column: ops[i]->Assign_0, row: ops[i]->Assign_1 };
    if i == ops.len() - 1 {
        lemma_push_value(before.cells, Assigned { cell, value: ops[i]->Assign_2 }, cell);
    } else {
        assert(ops.drop_last()[i] == ops[i]);
        lemma_laid_out_assigns(g, ops.drop_last(), i);
        match last {
            Op::Assign(column, row, value) => {
                let a = Assigned { cell: Cell { column, row }, value };
                lemma_push_value(before.cells, a, cell);
            },
            _ => {},
        }
    }
}

/// A region that has taken every step of a layout holds, in each cell that
/// a part of the layout assigns a number to, that number.
pub proof fn lemma_expect_in<F: FieldElement>(
    g: RegionView<F>,
    ops: Seq<Op<F>>,
    pre: Seq<Expect>,
    part: Seq<Expect>,
    post: Seq<Expect>,
    k: int,
)
    requires
        laid_out(g, ops) is Some,
        expects(ops) == pre + part + post,
        0 <= k < part.len(),
        part[k] is Assign,
        part[k]->Assign_2 is Some,
    ensures
        ({
            let after = laid_out(g, ops).unwrap();
            let cell = Cell { column: part[k]->Assign_0, row: part[k]->Assign_1 };
            is_assigned(after.cells, cell) && cell_value(after.cells, cell) == part[k]->Assign_2.unwrap()
        }),
{
    let i = pre.len() + k;
    assert(expects(ops).len() == ops.len());
    assert((pre + part + post)[i] == part[k]);
    assert(expects(ops)[i] == expect_of(ops[i]));
    lemma_laid_out_assigns(g, ops, i);
}

/// The region holds the number of the step, where the step assigns one.
pub open spec fn step_held<F: FieldElement>(g: RegionView<F>, e: Expect) -> bool {
    match e {
        Expect::Assign(column, row, Some(n)) => cell_value(g.cells, Cell { column, row }) == n,
        _ => true,
    }
}

/// A region that has taken every step of a layout holds the number of every
/// step of a part of the layout.
pub proof fn lemma_expect_all<F: FieldElement>(
    g: RegionView<F>,
    ops: Seq<Op<F>>,
    pre: Seq<Expect>,
    part: Seq<Expect>,
    post: Seq<Expect>,
)
    requires
        laid_out(g, ops) is Some,
        expects(ops) == pre + part + post,
    ensures
        forall|k: int|
            0 <= k < part.len() ==> step_held(laid_out(g, ops).unwrap(), #[trigger] part[k]),
{
    assert forall|k: int| 0 <= k < part.len() implies step_held(
        laid_out(g, ops).unwrap(),
        #[trigger] part[k],
    ) by {
        match part[k] {
            Expect::Assign(column, row, Some(n)) => {
                lemma_expect_in(g, ops, pre, part, post, k);
            },
            _ => {},
        }
    }
}

/// The value of a polynomial on a row of the grid.
pub open spec fn eval_on<F: FieldElement>(e: Expression<F>, g: RegionView<F>, row: nat) -> nat
    decreases e,
{
    let m = F::modulus();
    match e {
        Expression::Constant(c) => c.value(),
        Expression::Enabled(s) => if g.enabled.contains((s, row as usize)) {
            1nat % m
        } else {
            0
        },
        Expression::Query(column, next) => if !next {
            cell_value(g.cells, Cell { column, row: row as usize })
        } else if row < usize::MAX {
            cell_value(g.cells, Cell { column, row: (row + 1) as usize })
        } else {
            0
        },
        Expression::Sum(a, b) => fadd(m, eval_on(*a, g, row), eval_on(*b, g, row)),
        Expression::Difference(a, b) => fsub(m, eval_on(*a, g, row), eval_on(*b, g, row)),
        Expression::Product(a, b) => fmul(m, eval_on(*a, g, row), eval_on(*b, g, row)),
    }
}

/// A fixed table of numbers, and the expression whose value must be one of
/// them on every row on which a selector is enabled.
#[derive(Debug)]
pub struct Lookup<F: FieldElement> {
    pub name: &'static str,
    pub input: Expression<F>,
    pub table: Vec<F>,
}

/// Whether the table holds the number.
pub open spec fn holds_number<F: FieldElement>(table: Seq<F>, v: nat) -> bool {
    exists|k: int| 0 <= k < table.len() && (#[trigger] table[k]).value() == v
}

/// Whether the value that the lookup takes on the row is in its table.
pub open spec fn found<F: FieldElement>(l: Lookup<F>, g: RegionView<F>, row: nat) -> bool {
    holds_number(l.table@, eval_on(l.input, g, row))
}

/// The columns, selectors, gates and lookups of a circuit.
#[derive(Debug)]
pub struct ConstraintSystem<F: FieldElement> {
    pub num_advice: usize,
    pub num_fixed: usize,
    pub num_selectors: usize,
    pub permutations: Vec<Vec<Column>>,
    pub gates: Vec<Gate<F>>,
    pub lookups: Vec<Lookup<F>>,
}

impl<F: FieldElement> ConstraintSystem<F> {
    /// A circuit with no columns, no gates and no lookups.
    pub fn new() -> (r: Self)
        ensures
            r.num_advice == 0,
            r.num_fixed == 0,
            r.num_selectors == 0,
            r.permutations@.len() == 0,
            r.gates@.len() == 0,
            r.lookups@.len() == 0,
    {
        ConstraintSystem {
            num_advice: 0,
            num_fixed: 0,
            num_selectors: 0,
            permutations: Vec::new(),
            gates: Vec::new(),
            lookups: Vec::new(),
        }
    }

    /// A new advice column.
    pub fn advice_column(&mut self) -> (r: Column)
        requires
            old(self).num_advice < usize::MAX,
        ensures
            r == (Column { kind: ColumnKind::Advice, index: old(self).num_advice }),
            *final(self) == (ConstraintSystem {
                num_advice: (old(self).num_advice + 1) as usize,
                ..*old(self)
            }),
    {
        let index = self.num_advice;
        self.num_advice = index + 1;
        Column { kind: ColumnKind::Advice, index }
    }

    /// A new fixed column.
    pub fn fixed_column(&mut self) -> (r: Column)
        requires
            old(self).num_fixed < usize::MAX,
        ensures
            r == (Column { kind: ColumnKind::Fixed, index: old(self).num_fixed }),
            *final(self) == (ConstraintSystem {
                num_fixed: (old(self).num_fixed + 1) as usize,
                ..*old(self)
            }),
    {
        let index = self.num_fixed;
        self.num_fixed = index + 1;
        Column { kind: ColumnKind::Fixed, index }
    }

    /// A new selector.
    pub fn selector(&mut self) -> (r: Selector)
        requires
            old(self).num_selectors < usize::MAX,
        ensures
            r == (Selector { index: old(self).num_selectors }),
            *final(self) == (ConstraintSystem {
                num_selectors: (old(self).num_selectors + 1) as usize,
                ..*old(self)
            }),
    {
        let index = self.num_selectors;
        self.num_selectors = index + 1;
        Selector { index }
    }

    /// Declares that cells of the given columns may be constrained equal.
    pub fn permutation(&mut self, columns: Vec<Column>)
        ensures
            final(self).permutations@ == old(self).permutations@.push(columns),
            final(self).gates == old(self).gates,
            final(self).lookups == old(self).lookups,
            final(self).num_advice == old(self).num_advice,
            final(self).num_fixed == old(self).num_fixed,
            final(self).num_selectors == old(self).num_selectors,
    {
        self.permutations.push(columns);
    }

    /// Adds a gate for each of the polynomials, in their order, all under
    /// one name.
    pub fn create_gates(&mut self, name: &'static str, polys: Vec<Expression<F>>)
        ensures
            final(self).gates@.len() == old(self).gates@.len() + polys@.len(),
            forall|i: int|
                0 <= i < old(self).gates@.len() ==> final(self).gates@[i] == old(self).gates@[i],
            forall|i: int|
                0 <= i < polys@.len() ==> (#[trigger] final(self).gates@[old(self).gates@.len()
                    + i]) == (Gate { name, poly: polys@[i] }),
            final(self).lookups == old(self).lookups,
            final(self).permutations == old(self).permutations,
            final(self).num_advice == old(self).num_advice,
            final(self).num_fixed == old(self).num_fixed,
            final(self).num_selectors == old(self).num_selectors,
    {
        let ghost all = polys@;
        let ghost start = self.gates@;
        let count = polys.len();
        let mut rest = polys;
        let mut done: usize = 0;
        while rest.len() > 0
            invariant
                done + rest@.len() == all.len(),
                all.len() == count,
                rest@ == all.skip(done as int),
                self.gates@.len() == start.len() + done,
                forall|i: int| 0 <= i < start.len() ==> self.gates@[i] == start[i],
                forall|i: int|
                    0 <= i < done ==> (#[trigger] self.gates@[start.len() + i]) == (Gate {
                        name,
                        poly: all[i],
                    }),
                self.lookups == old(self).lookups,
                self.permutations == old(self).permutations,
                self.num_advice == old(self).num_advice,
                self.num_fixed == old(self).num_fixed,
                self.num_selectors == old(self).num_selectors,
                start == old(self).gates@,
            decreases rest@.len(),
        {
            let poly = rest.remove(0);
            proof {
                assert(rest@ =~= all.skip(done + 1));
            }
            self.gates.push(Gate { name, poly });
            done = done + 1;
        }
    }

    /// Adds a gate: the polynomial must vanish on every row.
    pub fn create_gate(&mut self, name: &'static str, poly: Expression<F>)
        ensures
            final(self).gates@ == old(self).gates@.push(Gate { name, poly }),
            final(self).lookups == old(self).lookups,
            final(self).permutations == old(self).permutations,
            final(self).num_advice == old(self).num_advice,
            final(self).num_fixed == old(self).num_fixed,
            final(self).num_selectors == old(self).num_selectors,
    {
        self.gates.push(Gate { name, poly });
    }

    /// Adds a lookup: on every row the value of the input must be in the
    /// table.
    pub fn lookup(&mut self, name: &'static str, input: Expression<F>, table: Vec<F>)
        ensures
            final(self).lookups@ == old(self).lookups@.push(Lookup { name, input, table }),
            final(self).gates == old(self).gates,
            final(self).permutations == old(self).permutations,
            final(self).num_advice == old(self).num_advice,
            final(self).num_fixed == old(self).num_fixed,
            final(self).num_selectors == old(self).num_selectors,
    {
        self.lookups.push(Lookup { name, input, table });
    }
}

/// The part of the grid that gadgets assign: each cell at most once.
#[derive(Debug)]
pub struct Region<F: FieldElement> {
    proving: bool,
    rows: usize,
    cells: Vec<Assigned<F>>,
    enabled: Vec<(Selector, usize)>,
    copies: Vec<(Cell, Cell)>,
}

impl<F: FieldElement> View for Region<F> {
    type V = RegionView<F>;

    closed spec fn view(&self) -> RegionView<F> {
        RegionView {
            proving: self.proving,
            rows: self.rows as nat,
            cells: self.cells@,
            enabled: self.enabled@,
            copies: self.copies@,
        }
    }
}

impl<F: FieldElement> Region<F> {
    /// An empty region of `2^k` rows. In a proving region every assigned
    /// value must be known; otherwise only the shape of the circuit is laid
    /// out.
    pub fn new(k: u32, proving: bool) -> (r: Option<Self>)
        ensures
            r is Some <==> k < usize::BITS,
            r matches Some(region) ==> region@ == (RegionView::<F> {
                proving,
                rows: vstd::arithmetic::power2::pow2(k as nat),
                cells: Seq::empty(),
                enabled: Seq::empty(),
                copies: Seq::empty(),
            }),
    {
        if k >= usize::BITS {
            return None;
        }
        proof {
            vstd::bits::lemma_usize_pow2_no_overflow(k as nat);
            vstd::bits::lemma_usize_shl_is_mul(1, k as usize);
        }
        let rows: usize = 1usize << (k as usize);
        Some(
            Region { proving, rows, cells: Vec::new(), enabled: Vec::new(), copies: Vec::new() },
        )
    }

    /// The assignment of a cell, if it has one.
    pub fn find(&self, cell: Cell) -> (r: Option<Assigned<F>>)
        ensures
            r is Some <==> is_assigned(self@.cells, cell),
            r matches Some(a) ==> a.cell == cell && assigned_value(a) == cell_value(
                self@.cells,
                cell,
            ) && self@.cells.contains(a),
            r is None ==> cell_value(self@.cells, cell) == 0,
    {
        let mut i: usize = 0;
        while i < self.cells.len()
            invariant
                i <= self.cells.len(),
                forall|j: int| 0 <= j < i ==> (#[trigger] self.cells[j]).cell != cell,
            decreases self.cells.len() - i,
        {
            if self.cells[i].cell == cell {
                proof {
                    assert(first_at(self.cells@, cell, i as int));
                    let k = choose|k: int| first_at(self.cells@, cell, k);
                    assert(k == i);
                }
                return Some(self.cells[i]);
            }
            i = i + 1;
        }
        None
    }

    /// Assigns a value to a cell. It fails where the row lies outside the
    /// region, where the cell was assigned before, and, in a proving
    /// region, where the value is absent.
    pub fn assign(&mut self, column: Column, row: usize, value: Option<F>) -> (r: Result<
        Cell,
        Error,
    >)
        ensures
            r is Ok <==> row < old(self)@.rows && !is_assigned(
                old(self)@.cells,
                Cell { column, row },
            ) && (old(self)@.proving ==> value is Some),
            r matches Ok(cell) ==> cell == (Cell { column, row }) && final(self)@ == (RegionView {
                cells: old(self)@.cells.push(Assigned { cell, value }),
                ..old(self)@
            }) && (single_assignment(old(self)@.cells) ==> single_assignment(final(self)@.cells)),
            r matches Err(e) ==> e == Error::Synthesis && final(self)@ == old(self)@,
    {
        let cell = Cell { column, row };
        if row >= self.rows || (self.proving && value.is_none()) {
            return Err(Error::Synthesis);
        }
        if self.find(cell).is_some() {
            return Err(Error::Synthesis);
        }
        self.cells.push(Assigned { cell, value });
        Ok(cell)
    }

    /// Enables a selector on a row of the region.
    pub fn enable(&mut self, selector: Selector, row: usize) -> (r: Result<(), Error>)
        ensures
            r is Ok <==> row < old(self)@.rows,
            r is Ok ==> final(self)@ == (RegionView {
                enabled: old(self)@.enabled.push((selector, row)),
                ..old(self)@
            }),
            r matches Err(e) ==> e == Error::Synthesis && final(self)@ == old(self)@,
    {
        if row >= self.rows {
            return Err(Error::Synthesis);
        }
        self.enabled.push((selector, row));
        Ok(())
    }

    /// Records that two cells must hold the same value.
    pub fn constrain_equal(&mut self, left: Cell, right: Cell)
        ensures
            final(self)@ == (RegionView {
                copies: old(self)@.copies.push((left, right)),
                ..old(self)@
            }),
    {
        self.copies.push((left, right));
    }

    /// Carries out one step of a layout.
    pub fn apply(&mut self, op: &Op<F>) -> (r: Result<(), Error>)
        ensures
            r is Ok <==> step(old(self)@, *op) is Some,
            r is Ok ==> final(self)@ == step(old(self)@, *op).unwrap(),
            r matches Err(e) ==> e == Error::Synthesis,
    {
        match op {
            Op::Assign(column, row, value) => match self.assign(*column, *row, *value) {
                Ok(_) => Ok(()),
                Err(e) => Err(e),
            },
            Op::Enable(selector, row) => self.enable(*selector, *row),
            Op::Copy(left, right) => {
                self.constrain_equal(*left, *right);
                Ok(())
            },
        }
    }

    /// Carries out a layout, step by step, up to the first step that fails.
    pub fn run(&mut self, ops: &Vec<Op<F>>) -> (r: Result<(), Error>)
        ensures
            r is Ok <==> laid_out(old(self)@, ops@) is Some,
            r is Ok ==> final(self)@ == laid_out(old(self)@, ops@).unwrap(),
            r matches Err(e) ==> e == Error::Synthesis,
    {
        let ghost start = self@;
        let mut i: usize = 0;
        while i < ops.len()
            invariant
                i <= ops.len(),
                start == old(self)@,
                laid_out(start, ops@.take(i as int)) == Some(self@),
            decreases ops.len() - i,
        {
            proof {
                assert(ops@.take(i + 1).drop_last() =~= ops@.take(i as int));
                assert(ops@.take(i + 1).last() == ops@[i as int]);
                assert(laid_out(start, ops@.take(i + 1)) == step(self@, ops@[i as int]));
            }
            match self.apply(&ops[i]) {
                Ok(()) => {},
                Err(e) => {
                    proof {
                        lemma_laid_out_prefix(start, ops@, i + 1);
                    }
                    return Err(e);
                },
            }
            i = i + 1;
        }
        proof {
            assert(ops@.take(ops.len() as int) =~= ops@);
        }
        Ok(())
    }

    /// Whether the selector is enabled on the row.
    pub fn is_enabled(&self, selector: Selector, row: usize) -> (r: bool)
        ensures
            r == self@.enabled.contains((selector, row)),
    {
        let mut i: usize = 0;
        while i < self.enabled.len()
            invariant
                i <= self.enabled.len(),
                forall|j: int| 0 <= j < i ==> (#[trigger] self.enabled[j]) != (selector, row),
            decreases self.enabled.len() - i,
        {
            let (s, at) = self.enabled[i];
            if s == selector && at == row {
                return true;
            }
            i = i + 1;
        }
        false
    }

    /// The number of cells that were assigned.
    pub fn num_assigned(&self) -> (r: usize)
        ensures
            r == self@.cells.len(),
    {
        self.cells.len()
    }
}

/// The number in the cell of a column on a row.
pub open spec fn at<F: FieldElement>(g: RegionView<F>, column: Column, row: nat) -> nat {
    cell_value(g.cells, Cell { column, row: row as usize })
}

/// The number in the cell of a column on the row after `row`.
pub open spec fn after<F: FieldElement>(g: RegionView<F>, column: Column, row: nat) -> nat {
    if row < usize::MAX {
        cell_value(g.cells, Cell { column, row: (row + 1) as usize })
    } else {
        0
    }
}

/// One where the selector is enabled on the row, zero elsewhere.
pub open spec fn flag<F: FieldElement>(g: RegionView<F>, selector: Selector, row: nat) -> nat {
    if g.enabled.contains((selector, row as usize)) {
        1nat % F::modulus()
    } else {
        0
    }
}

impl<F: FieldElement> Expression<F> {
    /// The constant polynomial of the given number.
    pub fn number(v: u64) -> (r: Self)
        ensures
            forall|g: RegionView<F>, row: nat| #[trigger]
                eval_on(r, g, row) == (v as nat) % F::modulus(),
    {
        Expression::Constant(F::from_u64(v))
    }

    /// The polynomial that reads a selector.
    pub fn enabled(s: Selector) -> (r: Self)
        ensures
            forall|g: RegionView<F>, row: nat| #[trigger] eval_on(r, g, row) == flag(g, s, row),
    {
        Expression::Enabled(s)
    }

    /// The polynomial that reads a column on the row.
    pub fn cur(column: Column) -> (r: Self)
        ensures
            forall|g: RegionView<F>, row: nat| #[trigger] eval_on(r, g, row) == at(g, column, row),
    {
        Expression::Query(column, false)
    }

    /// The polynomial that reads a column on the next row.
    pub fn next(column: Column) -> (r: Self)
        ensures
            forall|g: RegionView<F>, row: nat| #[trigger]
                eval_on(r, g, row) == after(g, column, row),
    {
        Expression::Query(column, true)
    }

    /// The sum of two polynomials.
    pub fn plus(self, rhs: Self) -> (r: Self)
        ensures
            forall|g: RegionView<F>, row: nat| #[trigger]
                eval_on(r, g, row) == fadd(
                    F::modulus(),
                    eval_on(self, g, row),
                    eval_on(rhs, g, row),
                ),
    {
        Expression::Sum(Box::new(self), Box::new(rhs))
    }

    /// The difference of two polynomials.
    pub fn minus(self, rhs: Self) -> (r: Self)
        ensures
            forall|g: RegionView<F>, row: nat| #[trigger]
                eval_on(r, g, row) == fsub(
                    F::modulus(),
                    eval_on(self, g, row),
                    eval_on(rhs, g, row),
                ),
    {
        Expression::Difference(Box::new(self), Box::new(rhs))
    }

    /// The product of two polynomials.
    pub fn times(self, rhs: Self) -> (r: Self)
        ensures
            forall|g: RegionView<F>, row: nat| #[trigger]
                eval_on(r, g, row) == fmul(
                    F::modulus(),
                    eval_on(self, g, row),
                    eval_on(rhs, g, row),
                ),
    {
        Expression::Product(Box::new(self), Box::new(rhs))
    }

    /// A copy of the polynomial.
    pub fn duplicate(&self) -> (r: Self)
        ensures
            r == *self,
        decreases self,
    {
        match self {
            Expression::Constant(c) => Expression::Constant(*c),
            Expression::Enabled(s) => Expression::Enabled(*s),
            Expression::Query(column, next) => Expression::Query(*column, *next),
            Expression::Sum(a, b) => Expression::Sum(
                Box::new(a.duplicate()),
                Box::new(b.duplicate()),
            ),
            Expression::Difference(a, b) => Expression::Difference(
                Box::new(a.duplicate()),
                Box::new(b.duplicate()),
            ),
            Expression::Product(a, b) => Expression::Product(
                Box::new(a.duplicate()),
                Box::new(b.duplicate()),
            ),
        }
    }

    /// The value of the polynomial on a row of the region.
    pub fn evaluate(&self, region: &Region<F>, row: usize) -> (r: F)
        ensures
            r.value() == eval_on(*self, region@, row as nat),
        decreases self,
    {
        proof {
            F::lemma_modulus();
            lemma_small_mod(0, F::modulus());
            lemma_small_mod(1, F::modulus());
        }
        match self {
            Expression::Constant(c) => {
                proof {
                    c.lemma_value();
                }
                *c
            },
            Expression::Enabled(s) => {
                if region.is_enabled(*s, row) {
                    F::from_u64(1)
                } else {
                    F::from_u64(0)
                }
            },
            Expression::Query(column, next) => {
                if *next && row == usize::MAX {
                    return F::from_u64(0);
                }
                let at = if *next {
                    row + 1
                } else {
                    row
                };
                match region.find(Cell { column: *column, row: at }) {
                    Some(Assigned { cell: _, value: Some(v) }) => v,
                    _ => F::from_u64(0),
                }
            },
            Expression::Sum(a, b) => a.evaluate(region, row).plus(&b.evaluate(region, row)),
            Expression::Difference(a, b) => a.evaluate(region, row).minus(&b.evaluate(region, row)),
            Expression::Product(a, b) => {
                // a factor that vanishes decides the product
                let left = a.evaluate(region, row);
                if left.equals(&F::from_u64(0)) {
                    proof {
                        assert(0 * eval_on(**b, region@, row as nat) == 0);
                    }
                    return left;
                }
                left.times(&b.evaluate(region, row))
            },
        }
    }
}

/// Every gate vanishes on every row on which a selector is enabled.
pub open spec fn gates_vanish<F: FieldElement>(gates: Seq<Gate<F>>, g: RegionView<F>) -> bool {
    forall|i: int, j: int|
        0 <= i < gates.len() && 0 <= j < g.enabled.len() ==> eval_on(
            (#[trigger] gates[i]).poly,
            g,
            (#[trigger] g.enabled[j]).1 as nat,
        ) == 0
}

/// The two cells of every recorded equality hold the same number.
pub open spec fn copies_agree<F: FieldElement>(g: RegionView<F>) -> bool {
    forall|k: int|
        0 <= k < g.copies.len() ==> cell_value(g.cells, (#[trigger] g.copies[k]).0) == cell_value(
            g.cells,
            g.copies[k].1,
        )
}

/// The region satisfies the gates: they vanish and its copies agree.
pub open spec fn satisfied<F: FieldElement>(gates: Seq<Gate<F>>, g: RegionView<F>) -> bool {
    gates_vanish(gates, g) && copies_agree(g)
}

/// Every lookup finds its value on every row on which a selector is enabled.
pub open spec fn lookups_hold<F: FieldElement>(lookups: Seq<Lookup<F>>, g: RegionView<F>) -> bool {
    forall|i: int, j: int|
        0 <= i < lookups.len() && 0 <= j < g.enabled.len() ==> found(
            #[trigger] lookups[i],
            g,
            (#[trigger] g.enabled[j]).1 as nat,
        )
}

/// The number in a cell of the region.
pub fn value_in<F: FieldElement>(region: &Region<F>, cell: Cell) -> (r: F)
    ensures
        r.value() == cell_value(region@.cells, cell),
{
    proof {
        F::lemma_modulus();
        lemma_small_mod(0, F::modulus());
    }
    match region.find(cell) {
        Some(Assigned { cell: _, value: Some(v) }) => v,
        _ => F::from_u64(0),
    }
}

/// Checks every recorded equality between two cells.
pub fn check_copies<F: FieldElement>(region: &Region<F>) -> (r: bool)
    ensures
        r == copies_agree(region@),
{
    let mut k: usize = 0;
    while k < region.copies.len()
        invariant
            k <= region.copies.len(),
            region@.copies == region.copies@,
            forall|i: int|
                0 <= i < k ==> cell_value(region@.cells, (#[trigger] region@.copies[i]).0)
                    == cell_value(region@.cells, region@.copies[i].1),
        decreases region.copies.len() - k,
    {
        let (left, right) = region.copies[k];
        if !value_in(region, left).equals(&value_in(region, right)) {
            return false;
        }
        k = k + 1;
    }
    true
}

/// Whether the table holds the number.
pub fn in_table<F: FieldElement>(table: &Vec<F>, v: &F) -> (r: bool)
    ensures
        r == holds_number(table@, v.value()),
{
    let mut k: usize = 0;
    while k < table.len()
        invariant
            k <= table.len(),
            forall|i: int| 0 <= i < k ==> (#[trigger] table@[i]).value() != v.value(),
        decreases table.len() - k,
    {
        if table[k].equals(v) {
            return true;
        }
        k = k + 1;
    }
    false
}

/// Checks every lookup on every row on which a selector is enabled.
pub fn check_lookups<F: FieldElement>(cs: &ConstraintSystem<F>, region: &Region<F>) -> (r: bool)
    ensures
        r == lookups_hold(cs.lookups@, region@),
{
    let mut i: usize = 0;
    while i < cs.lookups.len()
        invariant
            i <= cs.lookups.len(),
            forall|a: int, b: int|
                0 <= a < i && 0 <= b < region@.enabled.len() ==> found(
                    #[trigger] cs.lookups@[a],
                    region@,
                    (#[trigger] region@.enabled[b]).1 as nat,
                ),
        decreases cs.lookups.len() - i,
    {
        let mut j: usize = 0;
        while j < region.enabled.len()
            invariant
                i < cs.lookups.len(),
                j <= region.enabled.len(),
                region@.enabled == region.enabled@,
                forall|b: int|
                    0 <= b < j ==> found(
                        cs.lookups@[i as int],
                        region@,
                        (#[trigger] region@.enabled[b]).1 as nat,
                    ),
            decreases region.enabled.len() - j,
        {
            let row = region.enabled[j].1;
            let value = cs.lookups[i].input.evaluate(region, row);
            if !in_table(&cs.lookups[i].table, &value) {
                return false;
            }
            j = j + 1;
        }
        i = i + 1;
    }
    true
}

/// Checks every gate and every lookup on every row on which a selector is
/// enabled, and every recorded equality. A gate that does not vanish there,
/// or two cells that differ, leave the circuit unsatisfied; with those in
/// order, a value that its table does not hold is a failed lookup.
pub fn verify<F: FieldElement>(cs: &ConstraintSystem<F>, region: &Region<F>) -> (r: Result<
    (),
    Error,
>)
    ensures
        r is Ok <==> satisfied(cs.gates@, region@) && lookups_hold(cs.lookups@, region@),
        r == Err::<(), Error>(Error::ConstraintUnsatisfied) <==> !satisfied(cs.gates@, region@),
        r == Err::<(), Error>(Error::TableLookup) <==> satisfied(cs.gates@, region@)
            && !lookups_hold(cs.lookups@, region@),
{
    proof {
        F::lemma_modulus();
        lemma_small_mod(0, F::modulus());
    }
    if !check_copies(region) {
        return Err(Error::ConstraintUnsatisfied);
    }
    let zero = F::from_u64(0);
    let mut i: usize = 0;
    while i < cs.gates.len()
        invariant
            i <= cs.gates.len(),
            zero.value() == 0,
            copies_agree(region@),
            forall|a: int, b: int|
                0 <= a < i && 0 <= b < region@.enabled.len() ==> eval_on(
                    (#[trigger] cs.gates[a]).poly,
                    region@,
                    (#[trigger] region@.enabled[b]).1 as nat,
                ) == 0,
        decreases cs.gates.len() - i,
    {
        let mut j: usize = 0;
        while j < region.enabled.len()
            invariant
                i < cs.gates.len(),
                j <= region.enabled.len(),
                zero.value() == 0,
                region@.enabled == region.enabled@,
                forall|b: int|
                    0 <= b < j ==> eval_on(
                        cs.gates[i as int].poly,
                        region@,
                        (#[trigger] region@.enabled[b]).1 as nat,
                    ) == 0,
            decreases region.enabled.len() - j,
        {
            let row = region.enabled[j].1;
            if !cs.gates[i].poly.evaluate(region, row).equals(&zero) {
                return Err(Error::ConstraintUnsatisfied);
            }
            j = j + 1;
        }
        i = i + 1;
    }
    if !check_lookups(cs, region) {
        return Err(Error::TableLookup);
    }
    Ok(())
}

} // verus!
