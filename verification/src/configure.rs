//! Configuring the chip: allocating its selectors and adding its gates.
use crate::chip::Pow5Chip;
use crate::column::{AdviceColumn, AnyColumn, FixedColumn, Query, CUR, NEXT, PREV};
use crate::config::{PoseidonSpec, Pow5Config};
use crate::constraint_system::{create_gate, enable_equalities, fixed_column, Meta, MetaModel};
use crate::field::{le_limbs, Felt};
use crate::gate::{advice, fixed, Gate, Poly};
use vstd::prelude::*;

verus! {

/// The cells of advice columns among `queries` lie in `columns`.
spec fn lie_in(queries: Seq<Query>, columns: Set<AdviceColumn>) -> bool {
    forall|i: int|
        0 <= i < queries.len() ==> match #[trigger] queries[i] {
            Query::Advice(column, _) => columns.contains(column),
            Query::Fixed(_, _) => true,
        }
}

proof fn lemma_push_lies(queries: Seq<Query>, query: Query, columns: Set<AdviceColumn>)
    requires
        lie_in(queries, columns),
        match query {
            Query::Advice(column, _) => columns.contains(column),
            Query::Fixed(_, _) => true,
        },
    ensures
        lie_in(queries.push(query), columns),
        queries.push(query).contains(query),
        forall|q: Query| queries.contains(q) ==> #[trigger] queries.push(query).contains(q),
{
    let after = queries.push(query);
    assert(after[queries.len() as int] == query);
    assert forall|q: Query| queries.contains(q) implies #[trigger] after.contains(q) by {
        let i = choose|i: int| 0 <= i < queries.len() && queries[i] == q;
        assert(after[i] == q);
    }
    assert forall|i: int| 0 <= i < after.len() implies match #[trigger] after[i] {
        Query::Advice(column, _) => columns.contains(column),
        Query::Fixed(_, _) => true,
    } by {
        if i < queries.len() {
            assert(after[i] == queries[i]);
        }
    }
}

impl<const WIDTH: usize, const RATE: usize> Pow5Config<WIDTH, RATE> {
    /// The advice columns of the configuration lie in `columns`.
    pub open spec fn columns_in(self, columns: Set<AdviceColumn>) -> bool {
        &&& forall|i: int| 0 <= i < WIDTH ==> columns.contains(#[trigger] self.state@[i])
        &&& forall|i: int| 0 <= i < WIDTH ==> columns.contains(#[trigger] self.state_rc_a@[i])
        &&& forall|i: int| 0 <= i < WIDTH ==> columns.contains(#[trigger] self.state_rc_a_sqr@[i])
        &&& columns.contains(self.partial_sbox)
        &&& columns.contains(self.mid_0_helper)
        &&& columns.contains(self.mid_0_helper_sqr)
        &&& columns.contains(self.cur_0_rc_a0)
        &&& columns.contains(self.cur_0_rc_a0_sqr)
    }

    /// The columns of the round constants lie in `columns`.
    pub open spec fn constants_in(self, columns: Set<FixedColumn>) -> bool {
        &&& forall|i: int| 0 <= i < WIDTH ==> columns.contains(#[trigger] self.rc_a@[i])
        &&& forall|i: int| 0 <= i < WIDTH ==> columns.contains(#[trigger] self.rc_b@[i])
    }

    proof fn lemma_rc_a_queries(self, columns: Set<AdviceColumn>, n: nat)
        requires
            self.columns_in(columns),
            n <= WIDTH,
        ensures
            lie_in(self.rc_a_queries(n), columns),
            self.rc_a_queries(n).contains(Query::Fixed(self.s_full, CUR)),
            forall|i: int|
                0 <= i < n ==> {
                    &&& self.rc_a_queries(n).contains(Query::Advice(#[trigger] self.state@[i], CUR))
                    &&& self.rc_a_queries(n).contains(Query::Fixed(self.rc_a@[i], CUR))
                    &&& self.rc_a_queries(n).contains(Query::Advice(self.state_rc_a@[i], CUR))
                },
        decreases n,
    {
        if n == 0 {
            assert(self.rc_a_queries(0)[0] == Query::Fixed(self.s_full, CUR));
        } else {
            self.lemma_rc_a_queries(columns, (n - 1) as nat);
            let a = self.rc_a_queries((n - 1) as nat);
            let x = Query::Advice(self.state@[n - 1], CUR);
            let y = Query::Fixed(self.rc_a@[n - 1], CUR);
            let z = Query::Advice(self.state_rc_a@[n - 1], CUR);
            lemma_push_lies(a, x, columns);
            lemma_push_lies(a.push(x), y, columns);
            lemma_push_lies(a.push(x).push(y), z, columns);
        }
    }

    proof fn lemma_rc_a_sqr_queries(self, columns: Set<AdviceColumn>, n: nat)
        requires
            self.columns_in(columns),
            n <= WIDTH,
        ensures
            lie_in(self.rc_a_sqr_queries(n), columns),
            self.rc_a_sqr_queries(n).contains(Query::Fixed(self.s_full, CUR)),
            forall|i: int|
                0 <= i < n ==> {
                    &&& self.rc_a_sqr_queries(n).contains(
                        Query::Advice(#[trigger] self.state_rc_a@[i], CUR),
                    )
                    &&& self.rc_a_sqr_queries(n).contains(
                        Query::Advice(self.state_rc_a_sqr@[i], CUR),
                    )
                },
        decreases n,
    {
        if n == 0 {
            assert(self.rc_a_sqr_queries(0)[0] == Query::Fixed(self.s_full, CUR));
        } else {
            self.lemma_rc_a_sqr_queries(columns, (n - 1) as nat);
            let a = self.rc_a_sqr_queries((n - 1) as nat);
            let x = Query::Advice(self.state_rc_a_sqr@[n - 1], CUR);
            let y = Query::Advice(self.state_rc_a@[n - 1], CUR);
            lemma_push_lies(a, x, columns);
            lemma_push_lies(a.push(x), y, columns);
        }
    }

    proof fn lemma_mixed_queries(self, base: Seq<Query>, columns: Set<AdviceColumn>, n: nat)
        requires
            self.columns_in(columns),
            lie_in(base, columns),
            n <= WIDTH,
        ensures
            lie_in(self.mixed_queries(base, n), columns),
            forall|q: Query| base.contains(q) ==> #[trigger] self.mixed_queries(base, n).contains(q),
            forall|i: int|
                0 <= i < n ==> {
                    &&& self.mixed_queries(base, n).contains(
                        Query::Advice(#[trigger] self.state_rc_a@[i], CUR),
                    )
                    &&& self.mixed_queries(base, n).contains(
                        Query::Advice(self.state_rc_a_sqr@[i], CUR),
                    )
                },
        decreases n,
    {
        if n > 0 {
            self.lemma_mixed_queries(base, columns, (n - 1) as nat);
            let a = self.mixed_queries(base, (n - 1) as nat);
            let x = Query::Advice(self.state_rc_a_sqr@[n - 1], CUR);
            let y = Query::Advice(self.state_rc_a@[n - 1], CUR);
            lemma_push_lies(a, x, columns);
            lemma_push_lies(a.push(x), y, columns);
        }
    }

    proof fn lemma_full_queries(self, columns: Set<AdviceColumn>, n: nat)
        requires
            self.columns_in(columns),
            n <= WIDTH,
        ensures
            lie_in(self.full_queries(n), columns),
            self.full_queries(n).contains(Query::Fixed(self.s_full, CUR)),
            forall|i: int|
                0 <= i < n ==> self.full_queries(n).contains(
                    Query::Advice(#[trigger] self.state@[i], NEXT),
                ),
            n > 0 ==> forall|i: int|
                0 <= i < WIDTH ==> {
                    &&& self.full_queries(n).contains(
                        Query::Advice(#[trigger] self.state_rc_a@[i], CUR),
                    )
                    &&& self.full_queries(n).contains(Query::Advice(self.state_rc_a_sqr@[i], CUR))
                },
        decreases n,
    {
        if n == 0 {
            assert(self.full_queries(0)[0] == Query::Fixed(self.s_full, CUR));
        } else {
            self.lemma_full_queries(columns, (n - 1) as nat);
            let a = self.full_queries((n - 1) as nat);
            let x = Query::Advice(self.state@[n - 1], NEXT);
            lemma_push_lies(a, x, columns);
            self.lemma_mixed_queries(a.push(x), columns, WIDTH as nat);
        }
    }

    proof fn lemma_mid_queries(self, base: Seq<Query>, columns: Set<AdviceColumn>, n: nat)
        requires
            self.columns_in(columns),
            lie_in(base, columns),
            n < WIDTH,
        ensures
            lie_in(self.mid_queries(base, n), columns),
            forall|q: Query| base.contains(q) ==> #[trigger] self.mid_queries(base, n).contains(q),
            forall|i: int|
                1 <= i <= n ==> {
                    &&& self.mid_queries(base, n).contains(
                        Query::Advice(#[trigger] self.state@[i], CUR),
                    )
                    &&& self.mid_queries(base, n).contains(Query::Fixed(self.rc_a@[i], CUR))
                },
        decreases n,
    {
        if n > 0 {
            self.lemma_mid_queries(base, columns, (n - 1) as nat);
            let a = self.mid_queries(base, (n - 1) as nat);
            let x = Query::Advice(self.state@[n as int], CUR);
            let y = Query::Fixed(self.rc_a@[n as int], CUR);
            lemma_push_lies(a, x, columns);
            lemma_push_lies(a.push(x), y, columns);
        }
    }

    proof fn lemma_next_queries(self, base: Seq<Query>, columns: Set<AdviceColumn>, n: nat)
        requires
            self.columns_in(columns),
            lie_in(base, columns),
            n <= WIDTH,
        ensures
            lie_in(self.next_queries(base, n), columns),
            forall|q: Query| base.contains(q) ==> #[trigger] self.next_queries(base, n).contains(q),
            forall|i: int|
                0 <= i < n ==> self.next_queries(base, n).contains(
                    Query::Advice(#[trigger] self.state@[i], NEXT),
                ),
        decreases n,
    {
        if n > 0 {
            self.lemma_next_queries(base, columns, (n - 1) as nat);
            lemma_push_lies(
                self.next_queries(base, (n - 1) as nat),
                Query::Advice(self.state@[n - 1], NEXT),
                columns,
            );
        }
    }

    proof fn lemma_partial_queries(self, columns: Set<AdviceColumn>, n: nat)
        requires
            self.columns_in(columns),
            n < WIDTH,
        ensures
            lie_in(self.partial_queries(n), columns),
            forall|q: Query|
                self.partial_base_queries().contains(q) ==> #[trigger] self.partial_queries(
                    n,
                ).contains(q),
            forall|i: int|
                0 <= i < WIDTH ==> self.partial_queries(n).contains(
                    Query::Advice(#[trigger] self.state@[i], NEXT),
                ),
            forall|i: int|
                1 <= i <= n ==> self.partial_queries(n).contains(
                    Query::Fixed(#[trigger] self.rc_b@[i], CUR),
                ),
            n > 0 ==> forall|i: int|
                1 <= i < WIDTH ==> {
                    &&& self.partial_queries(n).contains(
                        Query::Advice(#[trigger] self.state@[i], CUR),
                    )
                    &&& self.partial_queries(n).contains(Query::Fixed(self.rc_a@[i], CUR))
                },
        decreases n,
    {
        if n == 0 {
            assert(lie_in(self.partial_base_queries(), columns));
            self.lemma_next_queries(self.partial_base_queries(), columns, WIDTH as nat);
        } else {
            self.lemma_partial_queries(columns, (n - 1) as nat);
            let a = self.partial_queries((n - 1) as nat);
            let x = Query::Fixed(self.rc_b@[n as int], CUR);
            lemma_push_lies(a, x, columns);
            self.lemma_mid_queries(a.push(x), columns, (WIDTH - 1) as nat);
            self.lemma_next_queries(
                self.mid_queries(a.push(x), (WIDTH - 1) as nat),
                columns,
                WIDTH as nat,
            );
        }
    }

    proof fn lemma_pad_queries(self, columns: Set<AdviceColumn>, n: nat)
        requires
            self.columns_in(columns),
            RATE < WIDTH,
            n <= RATE,
        ensures
            lie_in(self.pad_queries(n), columns),
            self.pad_queries(n).contains(Query::Advice(self.state@[RATE as int], PREV)),
            self.pad_queries(n).contains(Query::Advice(self.state@[RATE as int], NEXT)),
            self.pad_queries(n).contains(Query::Fixed(self.s_pad_and_add, CUR)),
            forall|i: int|
                0 <= i < n ==> {
                    &&& self.pad_queries(n).contains(Query::Advice(#[trigger] self.state@[i], PREV))
                    &&& self.pad_queries(n).contains(Query::Advice(self.state@[i], CUR))
                    &&& self.pad_queries(n).contains(Query::Advice(self.state@[i], NEXT))
                },
        decreases n,
    {
        if n == 0 {
            let q = self.pad_queries(0);
            assert(q[0] == Query::Advice(self.state@[RATE as int], PREV));
            assert(q[1] == Query::Advice(self.state@[RATE as int], NEXT));
            assert(q[2] == Query::Fixed(self.s_pad_and_add, CUR));
        } else {
            self.lemma_pad_queries(columns, (n - 1) as nat);
            let a = self.pad_queries((n - 1) as nat);
            let x = Query::Advice(self.state@[n - 1], PREV);
            let y = Query::Advice(self.state@[n - 1], CUR);
            let z = Query::Advice(self.state@[n - 1], NEXT);
            lemma_push_lies(a, x, columns);
            lemma_push_lies(a.push(x), y, columns);
            lemma_push_lies(a.push(x).push(y), z, columns);
        }
    }

    proof fn lemma_mixed_within(self, queries: Seq<Query>, row: int, n: nat)
        requires
            n < WIDTH,
            forall|i: int|
                0 <= i < WIDTH ==> {
                    &&& queries.contains(Query::Advice(#[trigger] self.state_rc_a@[i], CUR))
                    &&& queries.contains(Query::Advice(self.state_rc_a_sqr@[i], CUR))
                },
        ensures
            self.mixed(row, n).queries_within(queries),
        decreases n,
    {
        reveal_with_fuel(Poly::queries_within, 5);
        assert(queries.contains(Query::Advice(self.state_rc_a@[n as int], CUR)));
        assert(self.mixed_term(row, n as int).queries_within(queries));
        if n > 0 {
            self.lemma_mixed_within(queries, row, (n - 1) as nat);
        }
    }

    proof fn lemma_mid_within(self, queries: Seq<Query>, row: int, n: nat)
        requires
            n < WIDTH,
            queries.contains(Query::Advice(self.partial_sbox, CUR)),
            forall|i: int|
                1 <= i <= n ==> {
                    &&& queries.contains(Query::Advice(#[trigger] self.state@[i], CUR))
                    &&& queries.contains(Query::Fixed(self.rc_a@[i], CUR))
                },
        ensures
            self.mid(row, n).queries_within(queries),
        decreases n,
    {
        reveal_with_fuel(Poly::queries_within, 5);
        if n > 0 {
            self.lemma_mid_within(queries, row, (n - 1) as nat);
            assert(queries.contains(Query::Advice(self.state@[n as int], CUR)));
        }
    }

    proof fn lemma_unmixed_within(
        self,
        m_inv: [[Felt; WIDTH]; WIDTH],
        queries: Seq<Query>,
        row: int,
        n: nat,
    )
        requires
            n < WIDTH,
            forall|i: int|
                0 <= i < WIDTH ==> queries.contains(
                    Query::Advice(#[trigger] self.state@[i], NEXT),
                ),
        ensures
            self.unmixed(m_inv, row, n).queries_within(queries),
        decreases n,
    {
        reveal_with_fuel(Poly::queries_within, 5);
        assert(queries.contains(Query::Advice(self.state@[n as int], NEXT)));
        if n > 0 {
            self.lemma_unmixed_within(m_inv, queries, row, (n - 1) as nat);
        }
    }

    /// Every gate of the chip can be added to a constraint system with its columns.
    proof fn lemma_gates_fit(self, m_inv: [[Felt; WIDTH]; WIDTH], columns: Set<AdviceColumn>)
        requires
            WIDTH == RATE + 1,
            self.columns_in(columns),
        ensures
            forall|g: int|
                0 <= g < self.gates(m_inv).len() ==> {
                    &&& (#[trigger] self.gates(m_inv)[g]).well_formed()
                    &&& lie_in(self.gates(m_inv)[g].queries, columns)
                },
    {
        reveal_with_fuel(Poly::queries_within, 8);
        let last = (WIDTH - 1) as nat;
        self.lemma_rc_a_queries(columns, WIDTH as nat);
        assert forall|i: int| 0 <= i < WIDTH implies (
        #[trigger] self.rc_a_gate().polys[i]).queries_within(self.rc_a_gate().queries) by {
            assert(self.rc_a_queries(WIDTH as nat).contains(Query::Advice(self.state@[i], CUR)));
        }
        self.lemma_rc_a_sqr_queries(columns, WIDTH as nat);
        assert forall|i: int| 0 <= i < WIDTH implies (
        #[trigger] self.rc_a_sqr_gate().polys[i]).queries_within(self.rc_a_sqr_gate().queries) by {
            assert(self.rc_a_sqr_queries(WIDTH as nat).contains(
                Query::Advice(self.state_rc_a@[i], CUR),
            ));
        }
        self.lemma_full_queries(columns, WIDTH as nat);
        assert forall|i: int| 0 <= i < WIDTH implies (
        #[trigger] self.full_gate().polys[i]).queries_within(self.full_gate().queries) by {
            self.lemma_mixed_within(self.full_gate().queries, i, last);
            assert(self.full_queries(WIDTH as nat).contains(Query::Advice(self.state@[i], NEXT)));
        }
        let q = self.cur_0_gate().queries;
        assert(q[0] == Query::Advice(self.state@[0], CUR));
        assert(q[1] == Query::Fixed(self.rc_a@[0], CUR));
        assert(q[2] == Query::Advice(self.cur_0_rc_a0, CUR));
        assert(q[3] == Query::Advice(self.cur_0_rc_a0_sqr, CUR));
        assert(q[4] == Query::Fixed(self.s_partial, CUR));
        assert(self.cur_0_gate().well_formed());
        assert(lie_in(q, columns));
        self.lemma_helper_gate_fits(columns);
        self.lemma_partial_gate_fits(m_inv, columns);
        self.lemma_pad_queries(columns, RATE as nat);
        assert forall|i: int| 0 <= i < WIDTH implies (
        #[trigger] self.pad_gate().polys[i]).queries_within(self.pad_gate().queries) by {
            assert(i < RATE ==> self.pad_queries(RATE as nat).contains(
                Query::Advice(self.state@[i], PREV),
            ));
        }
    }

    proof fn lemma_helper_gate_fits(self, columns: Set<AdviceColumn>)
        requires
            WIDTH > 0,
            self.columns_in(columns),
        ensures
            self.helper_gate().well_formed(),
            lie_in(self.helper_gate().queries, columns),
    {
        reveal_with_fuel(Poly::queries_within, 8);
        let last = (WIDTH - 1) as nat;
        let base = seq![
            Query::Advice(self.partial_sbox, CUR),
            Query::Fixed(self.rc_b@[0], CUR),
            Query::Advice(self.mid_0_helper, CUR),
            Query::Advice(self.mid_0_helper_sqr, CUR),
            Query::Fixed(self.s_partial, CUR),
        ];
        assert(lie_in(base, columns));
        self.lemma_mid_queries(base, columns, last);
        let q = self.helper_gate().queries;
        assert(base[0] == Query::Advice(self.partial_sbox, CUR));
        assert(base[1] == Query::Fixed(self.rc_b@[0], CUR));
        assert(base[2] == Query::Advice(self.mid_0_helper, CUR));
        assert(base[3] == Query::Advice(self.mid_0_helper_sqr, CUR));
        assert(base[4] == Query::Fixed(self.s_partial, CUR));
        assert(q.contains(base[0]) && q.contains(base[1]) && q.contains(base[2]) && q.contains(
            base[3],
        ) && q.contains(base[4]));
        self.lemma_mid_within(q, 0, last);
        assert(self.helper_poly().queries_within(q));
        assert(self.helper_sqr_poly().queries_within(q));
    }

    proof fn lemma_partial_gate_fits(
        self,
        m_inv: [[Felt; WIDTH]; WIDTH],
        columns: Set<AdviceColumn>,
    )
        requires
            WIDTH > 0,
            self.columns_in(columns),
        ensures
            self.partial_gate(m_inv).well_formed(),
            lie_in(self.partial_gate(m_inv).queries, columns),
    {
        reveal_with_fuel(Poly::queries_within, 8);
        let last = (WIDTH - 1) as nat;
        self.lemma_partial_queries(columns, last);
        let base = self.partial_base_queries();
        let q = self.partial_queries(last);
        assert(base[0] == Query::Advice(self.partial_sbox, CUR));
        assert(base[1] == Query::Advice(self.mid_0_helper, CUR));
        assert(base[2] == Query::Advice(self.mid_0_helper_sqr, CUR));
        assert(base[3] == Query::Advice(self.cur_0_rc_a0, CUR));
        assert(base[4] == Query::Advice(self.cur_0_rc_a0_sqr, CUR));
        assert(base[5] == Query::Fixed(self.s_partial, CUR));
        assert(q.contains(base[0]) && q.contains(base[1]) && q.contains(base[2]) && q.contains(
            base[3],
        ) && q.contains(base[4]) && q.contains(base[5]));
        let polys = self.partial_gate(m_inv).polys;
        assert forall|i: int| 0 <= i < WIDTH + 1 implies (#[trigger] polys[i]).queries_within(
            q,
        ) by {
            if i == 0 {
                assert(self.sbox_a_poly().queries_within(q));
            } else {
                self.lemma_unmixed_within(m_inv, q, i - 1, last);
                if i == 1 {
                    assert(self.sbox_b_poly(m_inv).queries_within(q));
                } else {
                    self.lemma_mid_within(q, i - 1, last);
                    assert(q.contains(Query::Fixed(self.rc_b@[i - 1], CUR)));
                    assert(self.linear_poly(m_inv, i - 1).queries_within(q));
                }
            }
        }
    }

    fn build_rc_a_gate(&self) -> (r: Gate)
        ensures
            r@ == self.rc_a_gate(),
    {
        let mut queries: Vec<Query> = vec![Query::Fixed(self.s_full, CUR)];
        let mut polys: Vec<Poly> = Vec::new();
        assert(queries@ =~= self.rc_a_queries(0));
        for i in 0..WIDTH
            invariant
                queries@ == self.rc_a_queries(i as nat),
                polys@.len() == i,
                forall|k: int| 0 <= k < i ==> #[trigger] polys@[k] == self.rc_a_poly(k),
        {
            queries.push(Query::Advice(self.state[i], CUR));
            queries.push(Query::Fixed(self.rc_a[i], CUR));
            queries.push(Query::Advice(self.state_rc_a[i], CUR));
            polys.push(
                advice(self.state[i], CUR).sum(fixed(self.rc_a[i])).difference(
                    advice(self.state_rc_a[i], CUR),
                ).product(fixed(self.s_full)),
            );
        }
        assert(polys@ =~= self.rc_a_gate().polys);
        Gate { name: "full round state_rc_a", queries, polys }
    }

    fn build_rc_a_sqr_gate(&self) -> (r: Gate)
        ensures
            r@ == self.rc_a_sqr_gate(),
    {
        let mut queries: Vec<Query> = vec![Query::Fixed(self.s_full, CUR)];
        let mut polys: Vec<Poly> = Vec::new();
        assert(queries@ =~= self.rc_a_sqr_queries(0));
        for i in 0..WIDTH
            invariant
                queries@ == self.rc_a_sqr_queries(i as nat),
                polys@.len() == i,
                forall|k: int| 0 <= k < i ==> #[trigger] polys@[k] == self.rc_a_sqr_poly(k),
        {
            queries.push(Query::Advice(self.state_rc_a_sqr[i], CUR));
            queries.push(Query::Advice(self.state_rc_a[i], CUR));
            polys.push(
                advice(self.state_rc_a[i], CUR).product(
                    advice(self.state_rc_a[i], CUR),
                ).difference(advice(self.state_rc_a_sqr[i], CUR)).product(fixed(self.s_full)),
            );
        }
        assert(polys@ =~= self.rc_a_sqr_gate().polys);
        Gate { name: "full round state_rc_a_sqr", queries, polys }
    }

    fn build_mixed_term(&self, row: usize, i: usize) -> (r: Poly)
        requires
            row < WIDTH,
            i < WIDTH,
        ensures
            r == self.mixed_term(row as int, i as int),
    {
        advice(self.state_rc_a[i], CUR).product(advice(self.state_rc_a_sqr[i], CUR)).product(
            advice(self.state_rc_a_sqr[i], CUR),
        ).scaled(self.m_reg[row][i])
    }

    fn build_full_gate(&self) -> (r: Gate)
        requires
            WIDTH > 0,
        ensures
            r@ == self.full_gate(),
    {
        let mut queries: Vec<Query> = vec![Query::Fixed(self.s_full, CUR)];
        let mut polys: Vec<Poly> = Vec::new();
        assert(queries@ =~= self.full_queries(0));
        for row in 0..WIDTH
            invariant
                queries@ == self.full_queries(row as nat),
                polys@.len() == row,
                forall|k: int| 0 <= k < row ==> #[trigger] polys@[k] == self.full_poly(k),
        {
            queries.push(Query::Advice(self.state[row], NEXT));
            let ghost base = queries@;
            queries.push(Query::Advice(self.state_rc_a_sqr[0], CUR));
            queries.push(Query::Advice(self.state_rc_a[0], CUR));
            let mut mixed = self.build_mixed_term(row, 0);
            assert(self.mixed_queries(base, 0) == base);
            for i in 1..WIDTH
                invariant
                    row < WIDTH,
                    queries@ == self.mixed_queries(base, i as nat),
                    mixed == self.mixed(row as int, (i - 1) as nat),
            {
                queries.push(Query::Advice(self.state_rc_a_sqr[i], CUR));
                queries.push(Query::Advice(self.state_rc_a[i], CUR));
                mixed = mixed.sum(self.build_mixed_term(row, i));
            }
            polys.push(
                fixed(self.s_full).product(mixed.difference(advice(self.state[row], NEXT))),
            );
        }
        assert(polys@ =~= self.full_gate().polys);
        Gate { name: "full round", queries, polys }
    }

    fn build_cur_0_gate(&self) -> (r: Gate)
        requires
            WIDTH > 0,
        ensures
            r@ == self.cur_0_gate(),
    {
        let queries: Vec<Query> = vec![
            Query::Advice(self.state[0], CUR),
            Query::Fixed(self.rc_a[0], CUR),
            Query::Advice(self.cur_0_rc_a0, CUR),
            Query::Advice(self.cur_0_rc_a0_sqr, CUR),
            Query::Fixed(self.s_partial, CUR),
        ];
        let polys: Vec<Poly> = vec![
            advice(self.cur_0_rc_a0, CUR).difference(advice(self.state[0], CUR)).difference(
                fixed(self.rc_a[0]),
            ).product(fixed(self.s_partial)),
            advice(self.cur_0_rc_a0_sqr, CUR).difference(
                advice(self.cur_0_rc_a0, CUR).product(advice(self.cur_0_rc_a0, CUR)),
            ).product(fixed(self.s_partial)),
        ];
        assert(queries@ =~= self.cur_0_gate().queries);
        assert(polys@ =~= self.cur_0_gate().polys);
        Gate { name: "cur0_rc_a0", queries, polys }
    }

    /// Asks for the cells of the state between two partial rounds, and gives one word of it.
    fn build_mid(&self, queries: &mut Vec<Query>, row: usize) -> (r: Poly)
        requires
            row < WIDTH,
        ensures
            final(queries)@ == self.mid_queries(old(queries)@, (WIDTH - 1) as nat),
            r == self.mid(row as int, (WIDTH - 1) as nat),
    {
        let ghost base = queries@;
        let mut mid = advice(self.partial_sbox, CUR).scaled(self.m_reg[row][0]);
        for i in 1..WIDTH
            invariant
                row < WIDTH,
                queries@ == self.mid_queries(base, (i - 1) as nat),
                mid == self.mid(row as int, (i - 1) as nat),
        {
            queries.push(Query::Advice(self.state[i], CUR));
            queries.push(Query::Fixed(self.rc_a[i], CUR));
            mid = mid.sum(
                advice(self.state[i], CUR).sum(fixed(self.rc_a[i])).scaled(self.m_reg[row][i]),
            );
        }
        mid
    }

    /// Asks for the cells of the next state, and gives one word of it taken back through the
    /// mixing matrix.
    fn build_unmixed(
        &self,
        queries: &mut Vec<Query>,
        m_inv: &[[Felt; WIDTH]; WIDTH],
        row: usize,
    ) -> (r: Poly)
        requires
            row < WIDTH,
        ensures
            final(queries)@ == self.next_queries(old(queries)@, WIDTH as nat),
            r == self.unmixed(*m_inv, row as int, (WIDTH - 1) as nat),
    {
        let ghost base = queries@;
        queries.push(Query::Advice(self.state[0], NEXT));
        let mut unmixed = advice(self.state[0], NEXT).scaled(m_inv[row][0]);
        assert(self.next_queries(base, 0) == base);
        for i in 1..WIDTH
            invariant
                row < WIDTH,
                queries@ == self.next_queries(base, i as nat),
                unmixed == self.unmixed(*m_inv, row as int, (i - 1) as nat),
        {
            queries.push(Query::Advice(self.state[i], NEXT));
            unmixed = unmixed.sum(advice(self.state[i], NEXT).scaled(m_inv[row][i]));
        }
        unmixed
    }

    fn build_helper_gate(&self) -> (r: Gate)
        requires
            WIDTH > 0,
        ensures
            r@ == self.helper_gate(),
    {
        let mut queries: Vec<Query> = vec![
            Query::Advice(self.partial_sbox, CUR),
            Query::Fixed(self.rc_b[0], CUR),
            Query::Advice(self.mid_0_helper, CUR),
            Query::Advice(self.mid_0_helper_sqr, CUR),
            Query::Fixed(self.s_partial, CUR),
        ];
        assert(queries@ =~= seq![
            Query::Advice(self.partial_sbox, CUR),
            Query::Fixed(self.rc_b@[0], CUR),
            Query::Advice(self.mid_0_helper, CUR),
            Query::Advice(self.mid_0_helper_sqr, CUR),
            Query::Fixed(self.s_partial, CUR),
        ]);
        let mid = self.build_mid(&mut queries, 0);
        let polys: Vec<Poly> = vec![
            advice(self.mid_0_helper, CUR).difference(mid).difference(
                fixed(self.rc_b[0]),
            ).product(fixed(self.s_partial)),
            advice(self.mid_0_helper_sqr, CUR).difference(
                advice(self.mid_0_helper, CUR).product(advice(self.mid_0_helper, CUR)),
            ).product(fixed(self.s_partial)),
        ];
        assert(polys@ =~= self.helper_gate().polys);
        Gate { name: "mid_0_helper", queries, polys }
    }

    fn build_partial_gate(&self, m_inv: &[[Felt; WIDTH]; WIDTH]) -> (r: Gate)
        requires
            WIDTH > 0,
        ensures
            r@ == self.partial_gate(*m_inv),
    {
        let mut queries: Vec<Query> = vec![
            Query::Advice(self.partial_sbox, CUR),
            Query::Advice(self.mid_0_helper, CUR),
            Query::Advice(self.mid_0_helper_sqr, CUR),
            Query::Advice(self.cur_0_rc_a0, CUR),
            Query::Advice(self.cur_0_rc_a0_sqr, CUR),
            Query::Fixed(self.s_partial, CUR),
        ];
        assert(queries@ =~= self.partial_base_queries());
        let mut polys: Vec<Poly> = Vec::new();
        // The first word in the first round.
        polys.push(
            fixed(self.s_partial).product(
                advice(self.cur_0_rc_a0_sqr, CUR).product(
                    advice(self.cur_0_rc_a0_sqr, CUR),
                ).product(advice(self.cur_0_rc_a0, CUR)).difference(
                    advice(self.partial_sbox, CUR),
                ),
            ),
        );
        // The first word in the second round.
        let unmixed = self.build_unmixed(&mut queries, m_inv, 0);
        polys.push(
            fixed(self.s_partial).product(
                advice(self.mid_0_helper_sqr, CUR).product(
                    advice(self.mid_0_helper_sqr, CUR),
                ).product(advice(self.mid_0_helper, CUR)).difference(unmixed),
            ),
        );
        for row in 1..WIDTH
            invariant
                queries@ == self.partial_queries((row - 1) as nat),
                polys@.len() == row + 1,
                polys@[0] == self.sbox_a_poly(),
                polys@[1] == self.sbox_b_poly(*m_inv),
                forall|k: int|
                    2 <= k < row + 1 ==> #[trigger] polys@[k] == self.linear_poly(*m_inv, k - 1),
        {
            queries.push(Query::Fixed(self.rc_b[row], CUR));
            let mid = self.build_mid(&mut queries, row);
            let unmixed = self.build_unmixed(&mut queries, m_inv, row);
            polys.push(
                fixed(self.s_partial).product(
                    mid.sum(fixed(self.rc_b[row])).difference(unmixed),
                ),
            );
        }
        assert(polys@ =~= self.partial_gate(*m_inv).polys);
        Gate { name: "partial rounds", queries, polys }
    }

    fn build_pad_gate(&self) -> (r: Gate)
        requires
            RATE < WIDTH,
        ensures
            r@ == self.pad_gate(),
    {
        let mut queries: Vec<Query> = vec![
            Query::Advice(self.state[RATE], PREV),
            Query::Advice(self.state[RATE], NEXT),
            Query::Fixed(self.s_pad_and_add, CUR),
        ];
        let mut polys: Vec<Poly> = Vec::new();
        assert(queries@ =~= self.pad_queries(0));
        for i in 0..RATE
            invariant
                RATE < WIDTH,
                queries@ == self.pad_queries(i as nat),
                polys@.len() == i,
                forall|k: int| 0 <= k < i ==> #[trigger] polys@[k] == self.pad_poly(k),
        {
            queries.push(Query::Advice(self.state[i], PREV));
            queries.push(Query::Advice(self.state[i], CUR));
            queries.push(Query::Advice(self.state[i], NEXT));
            polys.push(
                fixed(self.s_pad_and_add).product(
                    advice(self.state[i], PREV).sum(advice(self.state[i], CUR)).difference(
                        advice(self.state[i], NEXT),
                    ),
                ),
            );
        }
        // The capacity element is never altered by the input.
        polys.push(
            fixed(self.s_pad_and_add).product(
                advice(self.state[RATE], PREV).difference(advice(self.state[RATE], NEXT)),
            ),
        );
        assert(polys@ =~= self.pad_gate().polys);
        Gate { name: "pad-and-add", queries, polys }
    }
}

proof fn lemma_queries_keep_columns(model: MetaModel, queries: Seq<Query>, n: nat)
    ensures
        model.with_queries(queries, n).same_frame(model),
        model.with_queries(queries, n).fixed_columns == model.fixed_columns,
        model.with_queries(queries, n).equality == model.equality,
        model.with_queries(queries, n).gates == model.gates,
    decreases n,
{
    if n > 0 {
        lemma_queries_keep_columns(model, queries, (n - 1) as nat);
    }
}

proof fn lemma_equalities_keep_columns(model: MetaModel, columns: Seq<AnyColumn>, n: nat)
    ensures
        model.with_equalities(columns, n).same_frame(model),
        model.with_equalities(columns, n).fixed_columns == model.fixed_columns,
        model.with_equalities(columns, n).gates == model.gates,
    decreases n,
{
    if n > 0 {
        lemma_equalities_keep_columns(model, columns, (n - 1) as nat);
    }
}

proof fn lemma_equality_is_enabled(
    model: MetaModel,
    columns: Seq<AnyColumn>,
    n: nat,
    column: AnyColumn,
)
    requires
        n <= columns.len(),
        columns.take(n as int).contains(column),
    ensures
        model.with_equalities(columns, n).equality.contains(column),
    decreases n,
{
    let m = n - 1;
    let before = model.with_equalities(columns, m as nat).equality;
    let after = model.with_equalities(columns, n).equality;
    if column == columns[m] {
        if !before.contains(column) {
            assert(after[before.len() as int] == column);
        }
    } else {
        let i = choose|i: int| 0 <= i < n && columns.take(n as int)[i] == column;
        assert(columns.take(m)[i] == column);
        lemma_equality_is_enabled(model, columns, m as nat, column);
        let k = choose|k: int| 0 <= k < before.len() && before[k] == column;
        assert(after[k] == column);
    }
}

/// Adds a gate to a constraint system that has its columns.
fn add_gate(meta: &mut Meta<'_>, gate: &Gate)
    requires
        gate@.well_formed(),
        lie_in(gate@.queries, old(meta)@.advice_columns),
    ensures
        final(meta)@ == old(meta)@.with_gate(gate@),
        final(meta)@.same_frame(old(meta)@),
        final(meta)@.fixed_columns == old(meta)@.fixed_columns,
        final(meta)@.equality == old(meta)@.equality,
        final(meta)@.gates == old(meta)@.gates.push(gate@),
{
    proof {
        lemma_queries_keep_columns(meta@, gate@.queries, gate@.queries.len());
    }
    create_gate(meta, gate);
}

/// The columns that the chip enables equality for: those of the state, and then those of the
/// second round constants.
pub open spec fn equality_columns(state: Seq<AdviceColumn>, rc_b: Seq<FixedColumn>) -> Seq<
    AnyColumn,
> {
    Seq::new(state.len(), |i: int| AnyColumn::Advice(state[i])) + Seq::new(
        rc_b.len(),
        |i: int| AnyColumn::Fixed(rc_b[i]),
    )
}

impl<const WIDTH: usize, const RATE: usize> Pow5Chip<WIDTH, RATE> {
    /// Configures this chip for use in a circuit.
    ///
    /// # Side-effects
    ///
    /// All columns in `state` will be equality-enabled.
    pub fn configure(
        meta: &mut Meta<'_>,
        spec: PoseidonSpec<WIDTH>,
        state: [AdviceColumn; WIDTH],
        state_rc_a: [AdviceColumn; WIDTH],
        state_rc_a_sqr: [AdviceColumn; WIDTH],
        partial_sbox: AdviceColumn,
        mid_0_helper: AdviceColumn,
        mid_0_helper_sqr: AdviceColumn,
        cur_0_rc_a0: AdviceColumn,
        cur_0_rc_a0_sqr: AdviceColumn,
        rc_a: [FixedColumn; WIDTH],
        rc_b: [FixedColumn; WIDTH],
    ) -> (r: Pow5Config<WIDTH, RATE>)
        requires
            WIDTH == RATE + 1,
            spec.full_rounds % 2 == 0,
            spec.partial_rounds % 2 == 0,
            forall|i: int|
                0 <= i < WIDTH ==> {
                    &&& old(meta)@.advice_columns.contains(#[trigger] state@[i])
                    &&& old(meta)@.advice_columns.contains(state_rc_a@[i])
                    &&& old(meta)@.advice_columns.contains(state_rc_a_sqr@[i])
                },
            old(meta)@.advice_columns.contains(partial_sbox),
            old(meta)@.advice_columns.contains(mid_0_helper),
            old(meta)@.advice_columns.contains(mid_0_helper_sqr),
            old(meta)@.advice_columns.contains(cur_0_rc_a0),
            old(meta)@.advice_columns.contains(cur_0_rc_a0_sqr),
        ensures
            r.state == state,
            r.state_rc_a == state_rc_a,
            r.state_rc_a_sqr == state_rc_a_sqr,
            r.partial_sbox == partial_sbox,
            r.mid_0_helper == mid_0_helper,
            r.mid_0_helper_sqr == mid_0_helper_sqr,
            r.cur_0_rc_a0 == cur_0_rc_a0,
            r.cur_0_rc_a0_sqr == cur_0_rc_a0_sqr,
            r.rc_a == rc_a,
            r.rc_b == rc_b,
            r.half_full_rounds == spec.full_rounds / 2,
            r.half_partial_rounds == spec.partial_rounds / 2,
            r.alpha@ == seq![5u64, 0, 0, 0],
            r.round_constants == spec.round_constants,
            r.m_reg == spec.mds,
            r.permutation() == spec.permutation(),
            spec.full_rounds + spec.partial_rounds <= spec.round_constants@.len()
                <==> r.has_constants(),
            !old(meta)@.fixed_columns.contains(r.s_full),
            !old(meta)@.fixed_columns.contains(r.s_partial),
            !old(meta)@.fixed_columns.contains(r.s_pad_and_add),
            r.s_full != r.s_partial,
            r.s_full != r.s_pad_and_add,
            r.s_partial != r.s_pad_and_add,
            r.well_formed(),
            r.constants_in(old(meta)@.fixed_columns) ==> r.selectors_apart(),
            final(meta)@ == old(meta)@.with_equalities(
                equality_columns(state@, rc_b@),
                equality_columns(state@, rc_b@).len(),
            ).with_fixed_column(r.s_full).with_fixed_column(r.s_partial).with_fixed_column(
                r.s_pad_and_add,
            ).with_gates(r.gates(spec.mds_inv), r.gates(spec.mds_inv).len()),
            final(meta)@.same_frame(old(meta)@),
            final(meta)@.fixed_columns == old(meta)@.fixed_columns.insert(r.s_full).insert(
                r.s_partial,
            ).insert(r.s_pad_and_add),
            final(meta)@.gates == old(meta)@.gates + r.gates(spec.mds_inv),
            forall|i: int|
                0 <= i < WIDTH ==> final(meta)@.equality.contains(
                    AnyColumn::Advice(#[trigger] state@[i]),
                ),
            forall|i: int|
                0 <= i < WIDTH ==> final(meta)@.equality.contains(
                    AnyColumn::Fixed(#[trigger] rc_b@[i]),
                ),
    {
        let ghost before = meta@;
        // Generate constants for the Poseidon permutation.
        // This gadget requires the numbers of full and of partial rounds to be even.
        let half_full_rounds: usize = spec.full_rounds / 2;
        let half_partial_rounds: usize = spec.partial_rounds / 2;
        // This allows state words to be initialized (by constraining them equal to fixed
        // values), and used in a permutation from an arbitrary region. rc_a is used in
        // every permutation round, while rc_b is empty in the initial and final full
        // rounds, so we use rc_b as "scratch space" for fixed values (enabling potential
        // layouter optimisations).
        let mut columns: Vec<AnyColumn> = Vec::new();
        for i in 0..WIDTH
            invariant
                columns@.len() == i,
                forall|k: int| 0 <= k < i ==> #[trigger] columns@[k] == AnyColumn::Advice(state@[k]),
        {
            columns.push(AnyColumn::Advice(state[i]));
        }
        for i in 0..WIDTH
            invariant
                columns@.len() == WIDTH + i,
                forall|k: int|
                    0 <= k < WIDTH ==> #[trigger] columns@[k] == AnyColumn::Advice(state@[k]),
                forall|k: int|
                    WIDTH <= k < WIDTH + i ==> #[trigger] columns@[k] == AnyColumn::Fixed(
                        rc_b@[k - WIDTH],
                    ),
        {
            columns.push(AnyColumn::Fixed(rc_b[i]));
        }
        assert(columns@ =~= equality_columns(state@, rc_b@));
        enable_equalities(meta, &columns);
        proof {
            lemma_equalities_keep_columns(before, columns@, columns@.len());
            assert(columns@.take(columns@.len() as int) =~= columns@);
            assert forall|k: int| 0 <= k < columns@.len() implies meta@.equality.contains(
                #[trigger] columns@[k],
            ) by {
                lemma_equality_is_enabled(before, columns@, columns@.len(), columns@[k]);
            }
            assert forall|i: int| 0 <= i < WIDTH implies meta@.equality.contains(
                AnyColumn::Advice(#[trigger] state@[i]),
            ) by {
                assert(columns@[i] == AnyColumn::Advice(state@[i]));
            }
            assert forall|i: int| 0 <= i < WIDTH implies meta@.equality.contains(
                AnyColumn::Fixed(#[trigger] rc_b@[i]),
            ) by {
                assert(columns@[WIDTH + i] == AnyColumn::Fixed(rc_b@[i]));
            }
        }
        let s_full = fixed_column(meta);
        let s_partial = fixed_column(meta);
        let s_pad_and_add = fixed_column(meta);
        let config = Pow5Config {
            state,
            state_rc_a,
            state_rc_a_sqr,
            partial_sbox,
            mid_0_helper,
            mid_0_helper_sqr,
            cur_0_rc_a0,
            cur_0_rc_a0_sqr,
            rc_a,
            rc_b,
            s_full,
            s_partial,
            s_pad_and_add,
            half_full_rounds,
            half_partial_rounds,
            alpha: [5, 0, 0, 0],
            round_constants: spec.round_constants,
            m_reg: spec.mds,
        };
        let ghost base = meta@;
        let ghost gates = config.gates(spec.mds_inv);
        proof {
            assert forall|i: int| 0 <= i < WIDTH implies before.advice_columns.contains(
                #[trigger] config.state_rc_a@[i],
            ) && before.advice_columns.contains(config.state_rc_a_sqr@[i]) by {
                assert(before.advice_columns.contains(state@[i]));
            }
            assert forall|i: int| 0 <= i < WIDTH implies before.advice_columns.contains(
                #[trigger] config.state_rc_a_sqr@[i],
            ) by {
                assert(before.advice_columns.contains(state@[i]));
            }
            assert(config.columns_in(base.advice_columns));
            config.lemma_gates_fit(spec.mds_inv, base.advice_columns);
            assert(gates[0] == config.rc_a_gate());
            assert(gates[1] == config.rc_a_sqr_gate());
            assert(gates[2] == config.full_gate());
            assert(gates[3] == config.cur_0_gate());
            assert(gates[4] == config.helper_gate());
            assert(gates[5] == config.partial_gate(spec.mds_inv));
            assert(gates[6] == config.pad_gate());
            assert(base.with_gates(gates, 0) == base);
        }
        add_gate(meta, &config.build_rc_a_gate());
        assert(meta@ == base.with_gates(gates, 1));
        add_gate(meta, &config.build_rc_a_sqr_gate());
        assert(meta@ == base.with_gates(gates, 2));
        add_gate(meta, &config.build_full_gate());
        assert(meta@ == base.with_gates(gates, 3));
        add_gate(meta, &config.build_cur_0_gate());
        assert(meta@ == base.with_gates(gates, 4));
        add_gate(meta, &config.build_helper_gate());
        assert(meta@ == base.with_gates(gates, 5));
        add_gate(meta, &config.build_partial_gate(&spec.mds_inv));
        assert(meta@ == base.with_gates(gates, 6));
        add_gate(meta, &config.build_pad_gate());
        assert(meta@ == base.with_gates(gates, 7));
        proof {
            assert(le_limbs(config.alpha) == 5);
            assert(meta@.gates =~= before.gates + gates);
        }
        config
    }
}

} // verus!
