//! Polynomial constraints on cells, and what they demand of a table of values.
use crate::column::{AdviceColumn, FixedColumn, Query, CUR};
use crate::field::{fadd, fmul, fsub, in_field, Felt};
use vstd::prelude::*;

verus! {

/// A polynomial in the values of cells around a row.
#[derive(Debug)]
pub enum Poly {
    Cell(Query),
    Sum(Box<Poly>, Box<Poly>),
    Difference(Box<Poly>, Box<Poly>),
    Product(Box<Poly>, Box<Poly>),
    Scaled(Box<Poly>, Felt),
}

/// The values of all cells, by column and row.
pub struct Table {
    pub advice: spec_fn(AdviceColumn, int) -> int,
    pub fixed: spec_fn(FixedColumn, int) -> int,
}

impl Table {
    /// The value that a query finds from row `row`.
    pub open spec fn at(self, query: Query, row: int) -> int {
        match query {
            Query::Advice(column, rotation) => (self.advice)(column, row + rotation),
            Query::Fixed(column, rotation) => (self.fixed)(column, row + rotation),
        }
    }

    /// Every cell holds a least residue.
    pub open spec fn well_formed(self) -> bool {
        &&& forall|column: AdviceColumn, row: int| in_field(#[trigger] (self.advice)(column, row))
        &&& forall|column: FixedColumn, row: int| in_field(#[trigger] (self.fixed)(column, row))
    }
}

impl Poly {
    /// The value of the polynomial on row `row` of a table.
    pub open spec fn eval(self, table: Table, row: int) -> int
        decreases self,
    {
        match self {
            Poly::Cell(query) => table.at(query, row),
            Poly::Sum(a, b) => fadd(a.eval(table, row), b.eval(table, row)),
            Poly::Difference(a, b) => fsub(a.eval(table, row), b.eval(table, row)),
            Poly::Product(a, b) => fmul(a.eval(table, row), b.eval(table, row)),
            Poly::Scaled(a, factor) => fmul(a.eval(table, row), factor@),
        }
    }

    /// Every cell of the polynomial is among `queries`.
    pub open spec fn queries_within(self, queries: Seq<Query>) -> bool
        decreases self,
    {
        match self {
            Poly::Cell(query) => queries.contains(query),
            Poly::Sum(a, b) => a.queries_within(queries) && b.queries_within(queries),
            Poly::Difference(a, b) => a.queries_within(queries) && b.queries_within(queries),
            Poly::Product(a, b) => a.queries_within(queries) && b.queries_within(queries),
            Poly::Scaled(a, _) => a.queries_within(queries),
        }
    }

    pub open spec fn spec_sum(self, other: Poly) -> Poly {
        Poly::Sum(Box::new(self), Box::new(other))
    }

    pub open spec fn spec_difference(self, other: Poly) -> Poly {
        Poly::Difference(Box::new(self), Box::new(other))
    }

    pub open spec fn spec_product(self, other: Poly) -> Poly {
        Poly::Product(Box::new(self), Box::new(other))
    }

    pub open spec fn spec_scaled(self, factor: Felt) -> Poly {
        Poly::Scaled(Box::new(self), factor)
    }

    #[verifier::when_used_as_spec(spec_sum)]
    pub fn sum(self, other: Poly) -> (r: Poly)
        ensures
            r == self.sum(other),
    {
        Poly::Sum(Box::new(self), Box::new(other))
    }

    #[verifier::when_used_as_spec(spec_difference)]
    pub fn difference(self, other: Poly) -> (r: Poly)
        ensures
            r == self.difference(other),
    {
        Poly::Difference(Box::new(self), Box::new(other))
    }

    #[verifier::when_used_as_spec(spec_product)]
    pub fn product(self, other: Poly) -> (r: Poly)
        ensures
            r == self.product(other),
    {
        Poly::Product(Box::new(self), Box::new(other))
    }

    #[verifier::when_used_as_spec(spec_scaled)]
    pub fn scaled(self, factor: Felt) -> (r: Poly)
        ensures
            r == self.scaled(factor),
    {
        Poly::Scaled(Box::new(self), factor)
    }
}

/// The cell of an advice column `rotation` rows further down.
pub open spec fn spec_advice(column: AdviceColumn, rotation: i32) -> Poly {
    Poly::Cell(Query::Advice(column, rotation))
}

/// The cell of an advice column `rotation` rows further down.
#[verifier::when_used_as_spec(spec_advice)]
pub fn advice(column: AdviceColumn, rotation: i32) -> (r: Poly)
    ensures
        r == advice(column, rotation),
{
    Poly::Cell(Query::Advice(column, rotation))
}

/// The cell of a fixed column on the row itself.
pub open spec fn spec_fixed(column: FixedColumn) -> Poly {
    Poly::Cell(Query::Fixed(column, CUR))
}

/// The cell of a fixed column on the row itself.
#[verifier::when_used_as_spec(spec_fixed)]
pub fn fixed(column: FixedColumn) -> (r: Poly)
    ensures
        r == fixed(column),
{
    Poly::Cell(Query::Fixed(column, CUR))
}

/// A gate: the cells it asks for, in order, and the polynomials in them that must vanish.
#[derive(Debug)]
pub struct Gate {
    pub name: &'static str,
    pub queries: Vec<Query>,
    pub polys: Vec<Poly>,
}

/// What a gate consists of.
pub struct GateModel {
    pub name: Seq<char>,
    pub queries: Seq<Query>,
    pub polys: Seq<Poly>,
}

impl View for Gate {
    type V = GateModel;

    open spec fn view(&self) -> GateModel {
        GateModel { name: self.name@, queries: self.queries@, polys: self.polys@ }
    }
}

impl GateModel {
    /// There is a polynomial, and the polynomials look only at the cells asked for.
    pub open spec fn well_formed(self) -> bool {
        &&& self.polys.len() > 0
        &&& forall|i: int|
            0 <= i < self.polys.len() ==> (#[trigger] self.polys[i]).queries_within(self.queries)
    }

    /// Every polynomial vanishes on row `row`.
    pub open spec fn holds(self, table: Table, row: int) -> bool {
        forall|i: int|
            0 <= i < self.polys.len() ==> (#[trigger] self.polys[i]).eval(table, row) == 0
    }
}

} // verus!
