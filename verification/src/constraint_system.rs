//! The constraint system that a chip is configured in.
use crate::array::into_array;
use crate::column::{distinct, same_query, AdviceColumn, AnyColumn, FixedColumn, Query, CUR};
use crate::field::Felt;
use crate::gate::{Gate, GateModel, Poly};
use halo2_proofs::pasta::group::ff::PrimeField;
use halo2_proofs::pasta::Fp;
use halo2_proofs::plonk::{ConstraintSystem, Expression, VirtualCells};
use halo2_proofs::poly::Rotation;
use vstd::prelude::*;

verus! {

/// The element type that expressions range over; opaque here.
#[verifier::external_type_specification]
#[verifier::external_body]
pub struct ExFp(Fp);

/// An expression of the proof system; opaque here.
#[verifier::external_type_specification]
#[verifier::external_body]
#[verifier::reject_recursive_types(F)]
pub struct ExExpression<F>(Expression<F>);

/// A constraint system under construction.
#[verifier::external_body]
pub struct Meta<'a>(pub &'a mut ConstraintSystem<Fp>);

/// The cells that a gate under construction may ask for.
#[verifier::external_body]
pub struct GateCells<'a, 'r>(pub &'a mut VirtualCells<'r, Fp>);

/// What a constraint system holds.
pub struct MetaModel {
    /// The advice columns that it has allocated.
    pub advice_columns: Set<AdviceColumn>,
    /// The fixed columns that it has allocated.
    pub fixed_columns: Set<FixedColumn>,
    /// The columns between whose cells equality can be enforced, in the order of enabling.
    pub equality: Seq<AnyColumn>,
    /// The distinct cells of advice columns that were asked for, in order.
    pub advice_queries: Seq<(AdviceColumn, i32)>,
    /// The distinct cells of fixed columns that were asked for, in order.
    pub fixed_queries: Seq<(FixedColumn, i32)>,
    pub gates: Seq<GateModel>,
    /// The number of instance columns.
    pub instance_columns: nat,
    /// The distinct cells of instance columns that were asked for, by the number of the column.
    pub instance_queries: Seq<(nat, i32)>,
    /// The number of selectors that are no columns yet.
    pub selectors: nat,
    /// The columns that selectors became.
    pub selector_columns: Seq<FixedColumn>,
    /// The lookup arguments: their inputs and their tables.
    pub lookups: Seq<(Seq<Expression<Fp>>, Seq<Expression<Fp>>)>,
    /// The columns for constants.
    pub constants: Seq<FixedColumn>,
    pub minimum_degree: Option<nat>,
}

/// What a constraint system holds at a moment.
pub uninterp spec fn meta_contents(meta: Meta<'_>) -> MetaModel;

impl<'a> View for Meta<'a> {
    type V = MetaModel;

    open spec fn view(&self) -> MetaModel {
        meta_contents(*self)
    }
}

/// `s` with `x` at its end, unless it is there already.
pub open spec fn with<A>(s: Seq<A>, x: A) -> Seq<A> {
    if s.contains(x) {
        s
    } else {
        s.push(x)
    }
}

impl MetaModel {
    /// The contents after a cell was asked for.
    pub open spec fn with_query(self, query: Query) -> MetaModel {
        match query {
            Query::Advice(column, rotation) => MetaModel {
                advice_queries: with(self.advice_queries, (column, rotation)),
                ..self
            },
            Query::Fixed(column, rotation) => MetaModel {
                fixed_queries: with(self.fixed_queries, (column, rotation)),
                ..self
            },
        }
    }

    /// The contents after the first `n` of `queries` were asked for.
    pub open spec fn with_queries(self, queries: Seq<Query>, n: nat) -> MetaModel
        decreases n,
    {
        if n == 0 {
            self
        } else {
            self.with_queries(queries, (n - 1) as nat).with_query(queries[n - 1])
        }
    }

    /// The contents after equality was enabled for a column.
    pub open spec fn with_equality(self, column: AnyColumn) -> MetaModel {
        let asked = match column {
            AnyColumn::Advice(c) => self.with_query(Query::Advice(c, CUR)),
            AnyColumn::Fixed(c) => self.with_query(Query::Fixed(c, CUR)),
        };
        MetaModel { equality: with(self.equality, column), ..asked }
    }

    /// The contents after equality was enabled for the first `n` of `columns`.
    pub open spec fn with_equalities(self, columns: Seq<AnyColumn>, n: nat) -> MetaModel
        decreases n,
    {
        if n == 0 {
            self
        } else {
            self.with_equalities(columns, (n - 1) as nat).with_equality(columns[n - 1])
        }
    }

    /// The contents after an advice column was allocated.
    pub open spec fn with_advice_column(self, column: AdviceColumn) -> MetaModel {
        MetaModel { advice_columns: self.advice_columns.insert(column), ..self }
    }

    /// The contents after a fixed column was allocated.
    pub open spec fn with_fixed_column(self, column: FixedColumn) -> MetaModel {
        MetaModel { fixed_columns: self.fixed_columns.insert(column), ..self }
    }

    /// The contents after a gate was added.
    pub open spec fn with_gate(self, gate: GateModel) -> MetaModel {
        let asked = self.with_queries(gate.queries, gate.queries.len());
        MetaModel { gates: self.gates.push(gate), ..asked }
    }

    /// The contents after the first `n` of `gates` were added.
    pub open spec fn with_gates(self, gates: Seq<GateModel>, n: nat) -> MetaModel
        decreases n,
    {
        if n == 0 {
            self
        } else {
            self.with_gates(gates, (n - 1) as nat).with_gate(gates[n - 1])
        }
    }

    /// Two constraint systems agree in their advice and instance columns, selectors, lookups,
    /// constants and minimum degree.
    pub open spec fn same_frame(self, other: MetaModel) -> bool {
        &&& self.advice_columns == other.advice_columns
        &&& self.instance_columns == other.instance_columns
        &&& self.instance_queries == other.instance_queries
        &&& self.selectors == other.selectors
        &&& self.selector_columns == other.selector_columns
        &&& self.lookups == other.lookups
        &&& self.constants == other.constants
        &&& self.minimum_degree == other.minimum_degree
    }

    /// The cells that a gate asks for lie in allocated columns.
    pub open spec fn covers(self, gate: GateModel) -> bool {
        forall|i: int|
            0 <= i < gate.queries.len() ==> match #[trigger] gate.queries[i] {
                Query::Advice(column, _) => self.advice_columns.contains(column),
                Query::Fixed(_, _) => true,
            }
    }
}

/// The cells that a gate under construction has asked for, in order.
pub uninterp spec fn cells_asked(cells: GateCells<'_, '_>) -> Seq<Query>;

/// The advice columns of the constraint system that a gate under construction belongs to.
pub uninterp spec fn cells_columns(cells: GateCells<'_, '_>) -> Set<AdviceColumn>;

/// The polynomial that an expression stands for, where it is built from cells, sums,
/// differences, products and scalings.
pub uninterp spec fn denoted(expression: Expression<Fp>) -> Option<Poly>;

/// `ConstraintSystem::enable_equality` on an advice column: the column is asked for on the row
/// itself and joins the columns of the equality argument.
#[verifier::external_body]
fn enable_advice_equality(meta: &mut Meta<'_>, column: AdviceColumn)
    requires
        meta_contents(*old(meta)).advice_columns.contains(column),
    ensures
        meta_contents(*final(meta)) == meta_contents(*old(meta)).with_equality(AnyColumn::Advice(column)),
{
    meta.0.enable_equality(column.0)
}

/// `ConstraintSystem::enable_equality` on a fixed column: the column is asked for on the row
/// itself and joins the columns of the equality argument.
#[verifier::external_body]
fn enable_fixed_equality(meta: &mut Meta<'_>, column: FixedColumn)
    ensures
        meta_contents(*final(meta)) == meta_contents(*old(meta)).with_equality(AnyColumn::Fixed(column)),
{
    meta.0.enable_equality(column.0)
}

/// `ConstraintSystem::advice_column`: allocates a column that was not allocated before.
#[verifier::external_body]
fn new_advice_column(meta: &mut Meta<'_>) -> (r: AdviceColumn)
    ensures
        !meta_contents(*old(meta)).advice_columns.contains(r),
        meta_contents(*final(meta)) == meta_contents(*old(meta)).with_advice_column(r),
{
    AdviceColumn(meta.0.advice_column())
}

/// `ConstraintSystem::fixed_column`: allocates a column that was not allocated before.
#[verifier::external_body]
pub(crate) fn fixed_column(meta: &mut Meta<'_>) -> (r: FixedColumn)
    ensures
        !meta_contents(*old(meta)).fixed_columns.contains(r),
        meta_contents(*final(meta)) == meta_contents(*old(meta)).with_fixed_column(r),
{
    FixedColumn(meta.0.fixed_column())
}

/// `VirtualCells::query_advice`: asks for a cell of an advice column and gives the expression
/// of its value.
#[verifier::external_body]
fn query_advice(cells: &mut GateCells<'_, '_>, column: AdviceColumn, rotation: i32) -> (r:
    Expression<Fp>)
    requires
        cells_columns(*old(cells)).contains(column),
    ensures
        denoted(r) == Some(Poly::Cell(Query::Advice(column, rotation))),
        cells_asked(*final(cells)) == cells_asked(*old(cells)).push(
            Query::Advice(column, rotation),
        ),
        cells_columns(*final(cells)) == cells_columns(*old(cells)),
{
    cells.0.query_advice(column.0, Rotation(rotation))
}

/// `VirtualCells::query_fixed`: asks for a cell of a fixed column and gives the expression of
/// its value.
#[verifier::external_body]
fn query_fixed(cells: &mut GateCells<'_, '_>, column: FixedColumn, rotation: i32) -> (r: Expression<
    Fp,
>)
    ensures
        denoted(r) == Some(Poly::Cell(Query::Fixed(column, rotation))),
        cells_asked(*final(cells)) == cells_asked(*old(cells)).push(Query::Fixed(column, rotation)),
        cells_columns(*final(cells)) == cells_columns(*old(cells)),
{
    cells.0.query_fixed(column.0, Rotation(rotation))
}

/// `Expression::clone`: the same expression.
#[verifier::external_body]
fn expression_clone(a: &Expression<Fp>) -> (r: Expression<Fp>)
    ensures
        r == *a,
{
    a.clone()
}

/// `Expression::add`: the sum of two expressions that hold no selector.
#[verifier::external_body]
fn expression_sum(a: Expression<Fp>, b: Expression<Fp>) -> (r: Expression<Fp>)
    requires
        denoted(a) is Some,
        denoted(b) is Some,
    ensures
        denoted(r) == Some(denoted(a)->0.sum(denoted(b)->0)),
{
    a + b
}

/// `Expression::sub`: the difference of two expressions that hold no selector.
#[verifier::external_body]
fn expression_difference(a: Expression<Fp>, b: Expression<Fp>) -> (r: Expression<Fp>)
    requires
        denoted(a) is Some,
        denoted(b) is Some,
    ensures
        denoted(r) == Some(denoted(a)->0.difference(denoted(b)->0)),
{
    a - b
}

/// `Expression::mul` with an expression: the product of two expressions that hold no selector.
#[verifier::external_body]
fn expression_product(a: Expression<Fp>, b: Expression<Fp>) -> (r: Expression<Fp>)
    requires
        denoted(a) is Some,
        denoted(b) is Some,
    ensures
        denoted(r) == Some(denoted(a)->0.product(denoted(b)->0)),
{
    a * b
}

/// `Expression::mul` with an element: the scaled expression.
#[verifier::external_body]
fn expression_scaled(a: Expression<Fp>, factor: Felt) -> (r: Expression<Fp>)
    requires
        denoted(a) is Some,
    ensures
        denoted(r) == Some(denoted(a)->0.scaled(factor)),
{
    a * Fp::from_repr(factor.repr).unwrap()
}

/// The expressions at hand stand for the cells that were asked for.
spec fn at_hand(queries: Seq<Query>, expressions: Seq<Expression<Fp>>) -> bool {
    &&& queries.len() == expressions.len()
    &&& forall|i: int|
        0 <= i < queries.len() ==> denoted(#[trigger] expressions[i]) == Some(
            Poly::Cell(queries[i]),
        )
}

/// The expression of a polynomial, built from the expressions of its cells.
fn lower(poly: &Poly, queries: &Vec<Query>, expressions: &Vec<Expression<Fp>>) -> (r: Expression<
    Fp,
>)
    requires
        at_hand(queries@, expressions@),
        poly.queries_within(queries@),
    ensures
        denoted(r) == Some(*poly),
    decreases poly,
{
    match poly {
        Poly::Cell(query) => {
            assert(queries.len() <= usize::MAX);
            let mut i: usize = 0;
            while !same_query(&queries[i], query)
                invariant
                    i < queries@.len(),
                    queries@.len() <= usize::MAX,
                    queries@.len() == expressions@.len(),
                    queries@.contains(*query),
                    forall|j: int| 0 <= j < i ==> queries@[j] != *query,
                decreases queries@.len() - i,
            {
                assert(i + 1 < queries@.len()) by {
                    let j = choose|j: int| 0 <= j < queries@.len() && queries@[j] == *query;
                    assert(j > i);
                }
                i = i + 1;
            }
            expression_clone(&expressions[i])
        },
        Poly::Sum(a, b) => {
            let x = lower(a, queries, expressions);
            let y = lower(b, queries, expressions);
            expression_sum(x, y)
        },
        Poly::Difference(a, b) => {
            let x = lower(a, queries, expressions);
            let y = lower(b, queries, expressions);
            expression_difference(x, y)
        },
        Poly::Product(a, b) => {
            let x = lower(a, queries, expressions);
            let y = lower(b, queries, expressions);
            expression_product(x, y)
        },
        Poly::Scaled(a, factor) => {
            let x = lower(a, queries, expressions);
            expression_scaled(x, *factor)
        },
    }
}

/// Asks for the cells of a gate, in order, and builds the expressions of its polynomials.
fn lower_gate(cells: &mut GateCells<'_, '_>, gate: &Gate) -> (r: Vec<Expression<Fp>>)
    requires
        gate@.well_formed(),
        forall|i: int|
            0 <= i < gate.queries@.len() ==> match #[trigger] gate.queries@[i] {
                Query::Advice(column, _) => cells_columns(*old(cells)).contains(column),
                Query::Fixed(_, _) => true,
            },
    ensures
        cells_asked(*final(cells)) == cells_asked(*old(cells)) + gate.queries@,
        r@.len() == gate.polys@.len(),
        forall|i: int|
            0 <= i < r@.len() ==> denoted(#[trigger] r@[i]) == Some(gate.polys@[i]),
{
    let ghost columns = cells_columns(*cells);
    let ghost asked = cells_asked(*cells);
    let mut expressions: Vec<Expression<Fp>> = Vec::new();
    let mut i: usize = 0;
    while i < gate.queries.len()
        invariant
            i <= gate.queries@.len(),
            cells_columns(*cells) == columns,
            cells_asked(*cells) == asked + gate.queries@.take(i as int),
            at_hand(gate.queries@.take(i as int), expressions@),
            forall|i: int|
                0 <= i < gate.queries@.len() ==> match #[trigger] gate.queries@[i] {
                    Query::Advice(column, _) => columns.contains(column),
                    Query::Fixed(_, _) => true,
                },
        decreases gate.queries@.len() - i,
    {
        assert(gate.queries@.take(i + 1) =~= gate.queries@.take(i as int).push(
            gate.queries@[i as int],
        ));
        let expression = match gate.queries[i] {
            Query::Advice(column, rotation) => query_advice(cells, column, rotation),
            Query::Fixed(column, rotation) => query_fixed(cells, column, rotation),
        };
        expressions.push(expression);
        i = i + 1;
    }
    assert(gate.queries@.take(i as int) =~= gate.queries@);
    let mut lowered: Vec<Expression<Fp>> = Vec::new();
    let mut k: usize = 0;
    while k < gate.polys.len()
        invariant
            k <= gate.polys@.len(),
            lowered@.len() == k,
            at_hand(gate.queries@, expressions@),
            gate@.well_formed(),
            forall|j: int|
                0 <= j < k ==> denoted(#[trigger] lowered@[j]) == Some(gate.polys@[j]),
        decreases gate.polys@.len() - k,
    {
        assert(gate@.polys[k as int].queries_within(gate@.queries));
        lowered.push(lower(&gate.polys[k], &gate.queries, &expressions));
        k = k + 1;
    }
    lowered
}

/// `ConstraintSystem::create_gate`: hands the cells of the constraint system to the closure once,
/// and adds the expressions that come back as a gate, without names of their own. What the
/// closure asks for joins the queries of the constraint system.
#[verifier::external_body]
pub(crate) fn create_gate(meta: &mut Meta<'_>, gate: &Gate)
    requires
        gate@.well_formed(),
        meta_contents(*old(meta)).covers(gate@),
    ensures
        meta_contents(*final(meta)) == meta_contents(*old(meta)).with_gate(gate@),
{
    meta.0.create_gate(gate.name, |cells| lower_gate(&mut GateCells(cells), gate))
}

/// Enables equality for every one of `columns`, in order.
pub(crate) fn enable_equalities(meta: &mut Meta<'_>, columns: &Vec<AnyColumn>)
    requires
        forall|i: int|
            0 <= i < columns@.len() ==> match #[trigger] columns@[i] {
                AnyColumn::Advice(column) => old(meta)@.advice_columns.contains(column),
                AnyColumn::Fixed(_) => true,
            },
    ensures
        final(meta)@ == old(meta)@.with_equalities(columns@, columns@.len()),
{
    let ghost before = meta@;
    let mut i: usize = 0;
    while i < columns.len()
        invariant
            i <= columns@.len(),
            meta@ == before.with_equalities(columns@, i as nat),
            meta@.advice_columns == before.advice_columns,
            forall|j: int|
                0 <= j < columns@.len() ==> match #[trigger] columns@[j] {
                    AnyColumn::Advice(column) => before.advice_columns.contains(column),
                    AnyColumn::Fixed(_) => true,
                },
        decreases columns@.len() - i,
    {
        match columns[i] {
            AnyColumn::Advice(column) => enable_advice_equality(meta, column),
            AnyColumn::Fixed(column) => enable_fixed_equality(meta, column),
        }
        i = i + 1;
    }
}

/// Allocates advice columns: all of them new, and all different.
pub fn advice_columns<const N: usize>(meta: &mut Meta<'_>) -> (r: [AdviceColumn; N])
    ensures
        forall|i: int|
            0 <= i < N ==> {
                &&& !old(meta)@.advice_columns.contains(#[trigger] r@[i])
                &&& final(meta)@.advice_columns.contains(r@[i])
            },
        distinct(r@),
        final(meta)@ == (MetaModel {
            advice_columns: old(meta)@.advice_columns.union(r@.to_set()),
            ..old(meta)@
        }),
{
    let ghost before = meta@;
    let mut columns: Vec<AdviceColumn> = Vec::new();
    assert(before.advice_columns.union(columns@.to_set()) =~= before.advice_columns);
    for i in 0..N
        invariant
            before == old(meta)@,
            columns@.len() == i,
            forall|k: int| 0 <= k < i ==> !before.advice_columns.contains(#[trigger] columns@[k]),
            distinct(columns@),
            meta@ == (MetaModel {
                advice_columns: before.advice_columns.union(columns@.to_set()),
                ..before
            }),
    {
        let column = new_advice_column(meta);
        let ghost earlier = columns@;
        columns.push(column);
        proof {
            lemma_one_more(earlier, column);
            assert(meta@.advice_columns =~= before.advice_columns.union(columns@.to_set()));
        }
    }
    assert forall|i: int| 0 <= i < N implies columns@.to_set().contains(
        #[trigger] columns@[i],
    ) by {}
    into_array(columns)
}

/// Allocates fixed columns: all of them new, and all different.
pub fn fixed_columns<const N: usize>(meta: &mut Meta<'_>) -> (r: [FixedColumn; N])
    ensures
        forall|i: int|
            0 <= i < N ==> {
                &&& !old(meta)@.fixed_columns.contains(#[trigger] r@[i])
                &&& final(meta)@.fixed_columns.contains(r@[i])
            },
        distinct(r@),
        final(meta)@ == (MetaModel {
            fixed_columns: old(meta)@.fixed_columns.union(r@.to_set()),
            ..old(meta)@
        }),
{
    let ghost before = meta@;
    let mut columns: Vec<FixedColumn> = Vec::new();
    assert(before.fixed_columns.union(columns@.to_set()) =~= before.fixed_columns);
    for i in 0..N
        invariant
            before == old(meta)@,
            columns@.len() == i,
            forall|k: int| 0 <= k < i ==> !before.fixed_columns.contains(#[trigger] columns@[k]),
            distinct(columns@),
            meta@ == (MetaModel {
                fixed_columns: before.fixed_columns.union(columns@.to_set()),
                ..before
            }),
    {
        let column = fixed_column(meta);
        let ghost earlier = columns@;
        columns.push(column);
        proof {
            lemma_one_more(earlier, column);
            assert(meta@.fixed_columns =~= before.fixed_columns.union(columns@.to_set()));
        }
    }
    assert forall|i: int| 0 <= i < N implies columns@.to_set().contains(
        #[trigger] columns@[i],
    ) by {}
    into_array(columns)
}

/// A column that is not among distinct columns makes distinct columns with them.
proof fn lemma_one_more<C>(columns: Seq<C>, column: C)
    requires
        distinct(columns),
        !columns.contains(column),
    ensures
        distinct(columns.push(column)),
        columns.push(column).to_set() == columns.to_set().insert(column),
{
    let more = columns.push(column);
    assert forall|i: int, j: int|
        0 <= i < more.len() && 0 <= j < more.len() && #[trigger] more[i]
            == #[trigger] more[j] implies i == j by {
        if i < columns.len() && j < columns.len() {
            assert(columns[i] == columns[j]);
        }
        if i < columns.len() {
            assert(columns[i] == more[i]);
        }
        if j < columns.len() {
            assert(columns[j] == more[j]);
        }
    }
    assert forall|c: C| more.contains(c) == columns.to_set().insert(column).contains(c) by {
        if columns.contains(c) {
            let i = choose|i: int| 0 <= i < columns.len() && columns[i] == c;
            assert(more[i] == c);
        }
        assert(more[columns.len() as int] == column);
    }
    assert(more.to_set() =~= columns.to_set().insert(column));
}

} // verus!
