//! Columns of a constraint system, and the cells that a gate looks at.
use halo2_proofs::plonk::{Advice, Column, Fixed};
use vstd::prelude::*;

verus! {

/// A column of witness values.
#[verifier::external_body]
#[derive(Debug)]
pub struct AdviceColumn(pub Column<Advice>);

impl Clone for AdviceColumn {
    /// `Column::clone`: the same column.
    #[verifier::external_body]
    fn clone(&self) -> (r: Self)
        ensures
            r == *self,
    {
        AdviceColumn(self.0.clone())
    }
}

impl Copy for AdviceColumn {

}

/// A column of values that are fixed with the circuit.
#[verifier::external_body]
#[derive(Debug)]
pub struct FixedColumn(pub Column<Fixed>);

impl Clone for FixedColumn {
    /// `Column::clone`: the same column.
    #[verifier::external_body]
    fn clone(&self) -> (r: Self)
        ensures
            r == *self,
    {
        FixedColumn(self.0.clone())
    }
}

impl Copy for FixedColumn {

}

/// `Column::eq` on two advice columns: whether they are the same column.
#[verifier::external_body]
pub(crate) fn same_advice_column(a: &AdviceColumn, b: &AdviceColumn) -> (r: bool)
    ensures
        r == (*a == *b),
{
    a.0 == b.0
}

/// `Column::eq` on two fixed columns: whether they are the same column.
#[verifier::external_body]
pub(crate) fn same_fixed_column(a: &FixedColumn, b: &FixedColumn) -> (r: bool)
    ensures
        r == (*a == *b),
{
    a.0 == b.0
}

/// A column of either kind.
#[derive(Clone, Copy, Debug)]
pub enum AnyColumn {
    Advice(AdviceColumn),
    Fixed(FixedColumn),
}

/// No column occurs twice.
pub open spec fn distinct<C>(columns: Seq<C>) -> bool {
    forall|i: int, j: int|
        0 <= i < columns.len() && 0 <= j < columns.len() && #[trigger] columns[i]
            == #[trigger] columns[j] ==> i == j
}

/// One row up.
pub const PREV: i32 = -1;

/// The row itself.
pub const CUR: i32 = 0;

/// One row down.
pub const NEXT: i32 = 1;

/// A cell relative to the row on which a gate is evaluated: the column, and how many rows
/// further down.
#[derive(Clone, Copy, Debug)]
pub enum Query {
    Advice(AdviceColumn, i32),
    Fixed(FixedColumn, i32),
}

/// Whether two queries ask for the same cell.
pub(crate) fn same_query(a: &Query, b: &Query) -> (r: bool)
    ensures
        r == (*a == *b),
{
    match (a, b) {
        (Query::Advice(c, i), Query::Advice(d, j)) => same_advice_column(c, d) && *i == *j,
        (Query::Fixed(c, i), Query::Fixed(d, j)) => same_fixed_column(c, d) && *i == *j,
        _ => false,
    }
}

} // verus!
