//! The table that a permutation fills: what it requests never contradicts itself.
use crate::column::{distinct, AdviceColumn, FixedColumn};
use crate::config::Pow5Config;
use crate::field::{fadd, fmul, group_in_field, in_field, lemma_felt_in_field, lemma_small_residues};
use crate::gate::Table;
use crate::laws::{agrees, all_agree, all_known, assigned_by, lemma_agree_in_parts};
use crate::linear::{lemma_residues_in_field, matrix, vector_in_field};
use crate::permutation::{
    add_constants, lemma_add_constants_in_field, lemma_row_in_field, partial_round, sbox_first,
};
use crate::plan::{entry, known, load_plan};
use crate::region::{assigned_cell, AssignedWord, Event, Request};
use crate::sponge::{Absorbing, InputTrace};
use crate::state::{cells, values, StateWord};
use vstd::prelude::*;

verus! {

/// The place of a column in a sequence of columns.
pub open spec fn place<C>(columns: Seq<C>, column: C) -> int {
    choose|i: int| 0 <= i < columns.len() && columns[i] == column
}

/// No column of one sequence occurs in the other.
pub open spec fn apart<C>(a: Seq<C>, b: Seq<C>) -> bool {
    forall|i: int, j: int|
        0 <= i < a.len() && 0 <= j < b.len() ==> #[trigger] a[i] != #[trigger] b[j]
}

proof fn lemma_place<C>(columns: Seq<C>, i: int)
    requires
        distinct(columns),
        0 <= i < columns.len(),
    ensures
        columns.contains(columns[i]),
        place(columns, columns[i]) == i,
{
    let j = place(columns, columns[i]);
    assert(columns[i] == columns[i]);
    assert(0 <= j < columns.len() && columns[j] == columns[i]);
}

impl<const WIDTH: usize, const RATE: usize> Pow5Config<WIDTH, RATE> {
    /// The advice columns that partial rounds have to themselves.
    pub open spec fn partial_columns(self) -> Seq<AdviceColumn> {
        seq![
            self.partial_sbox,
            self.mid_0_helper,
            self.mid_0_helper_sqr,
            self.cur_0_rc_a0,
            self.cur_0_rc_a0_sqr,
        ]
    }

    /// All columns of the configuration differ from one another.
    pub open spec fn columns_apart(self) -> bool {
        &&& self.selectors_apart()
        &&& distinct(self.state@)
        &&& distinct(self.state_rc_a@)
        &&& distinct(self.state_rc_a_sqr@)
        &&& distinct(self.partial_columns())
        &&& apart(self.state@, self.state_rc_a@)
        &&& apart(self.state@, self.state_rc_a_sqr@)
        &&& apart(self.state@, self.partial_columns())
        &&& apart(self.state_rc_a@, self.state_rc_a_sqr@)
        &&& distinct(self.rc_a@)
        &&& distinct(self.rc_b@)
        &&& apart(self.rc_a@, self.rc_b@)
    }

    /// The selector of row `k` of the permutation.
    pub open spec fn row_gate(self, k: nat) -> FixedColumn {
        if self.permutation().row_is_full(k) {
            self.s_full
        } else {
            self.s_partial
        }
    }

    /// What the helper cells of row `k` hold, if the row starts from `state`.
    pub open spec fn helper_value(self, column: AdviceColumn, k: nat, state: Seq<int>) -> int {
        let round = self.permutation().row_round(k);
        let q = add_constants(state, self.constants(round));
        if self.permutation().row_is_full(k) {
            if self.state_rc_a@.contains(column) {
                q[place(self.state_rc_a@, column)]
            } else if self.state_rc_a_sqr@.contains(column) {
                let x = q[place(self.state_rc_a_sqr@, column)];
                fmul(x, x)
            } else {
                0
            }
        } else {
            let mid = partial_round(matrix(self.m_reg), self.constants(round), state);
            let helper = fadd(mid[0], self.constants(round + 1)[0]);
            if column == self.partial_sbox {
                sbox_first(q)[0]
            } else if column == self.mid_0_helper {
                helper
            } else if column == self.mid_0_helper_sqr {
                fmul(helper, helper)
            } else if column == self.cur_0_rc_a0 {
                q[0]
            } else if column == self.cur_0_rc_a0_sqr {
                fmul(q[0], q[0])
            } else {
                0
            }
        }
    }

    /// What an advice cell at `offset` holds, if row `k` starts from state `k` of `states`.
    pub open spec fn advice_value(
        self,
        states: Seq<Seq<int>>,
        column: AdviceColumn,
        offset: int,
    ) -> int {
        let rows = self.permutation().rows();
        if !(0 <= offset <= rows) {
            0
        } else if self.state@.contains(column) {
            states[offset][place(self.state@, column)]
        } else if offset < rows {
            self.helper_value(column, offset as nat, states[offset])
        } else {
            0
        }
    }

    /// What a fixed cell at `offset` holds.
    pub open spec fn fixed_value(self, column: FixedColumn, offset: int) -> int {
        let p = self.permutation();
        if !(0 <= offset < p.rows()) {
            0
        } else {
            let k = offset as nat;
            if column == self.row_gate(k) {
                1
            } else if self.rc_a@.contains(column) {
                self.constants(p.row_round(k))[place(self.rc_a@, column)]
            } else if !p.row_is_full(k) && self.rc_b@.contains(column) {
                self.constants(p.row_round(k) + 1)[place(self.rc_b@, column)]
            } else {
                0
            }
        }
    }

    /// The table of a permutation through `states`, in a region that starts on row `start`.
    pub open spec fn honest_table(self, start: int, states: Seq<Seq<int>>) -> Table {
        Table {
            advice: |column: AdviceColumn, row: int|
                self.advice_value(states, column, row - start),
            fixed: |column: FixedColumn, row: int| self.fixed_value(column, row - start),
        }
    }

    /// Every state of a permutation has the width of the chip and holds least residues.
    pub open spec fn states_fit(self, states: Seq<Seq<int>>) -> bool {
        &&& states.len() == self.permutation().rows() + 1
        &&& forall|k: int|
            0 <= k < states.len() ==> (#[trigger] states[k]).len() == WIDTH && vector_in_field(
                states[k],
            )
    }

    proof fn lemma_honest_table_in_field(self, start: int, states: Seq<Seq<int>>)
        requires
            self.well_formed(),
            self.states_fit(states),
        ensures
            self.honest_table(start, states).well_formed(),
    {
        let table = self.honest_table(start, states);
        let p = self.permutation();
        lemma_small_residues();
        assert forall|column: AdviceColumn, row: int| in_field(
            #[trigger] (table.advice)(column, row),
        ) by {
            broadcast use group_in_field;

            let offset = row - start;
            if 0 <= offset <= p.rows() {
                let state = states[offset];
                assert(state.len() == WIDTH && vector_in_field(state));
                if self.state@.contains(column) {
                    assert(in_field(state[place(self.state@, column)]));
                } else if offset < p.rows() {
                    let round = p.row_round(offset as nat);
                    let q = add_constants(state, self.constants(round));
                    lemma_add_constants_in_field(state, self.constants(round));
                    if self.state_rc_a@.contains(column) {
                        assert(in_field(q[place(self.state_rc_a@, column)]));
                    }
                    assert(in_field(sbox_first(q)[0]));
                    assert(in_field(q[0]));
                }
            }
        }
        assert forall|column: FixedColumn, row: int| in_field(
            #[trigger] (table.fixed)(column, row),
        ) by {
            broadcast use lemma_residues_in_field;

            let offset = row - start;
            if 0 <= offset < p.rows() {
                let k = offset as nat;
                let a = self.constants(p.row_round(k));
                let b = self.constants(p.row_round(k) + 1);
                if self.rc_a@.contains(column) {
                    assert(in_field(a[place(self.rc_a@, column)]));
                }
                if self.rc_b@.contains(column) {
                    assert(in_field(b[place(self.rc_b@, column)]));
                }
            }
        }
    }

    /// The constants of a row stand in the table.
    proof fn lemma_honest_constants(self, start: int, states: Seq<Seq<int>>, k: nat)
        requires
            self.columns_apart(),
            k < self.permutation().rows(),
        ensures
            all_agree(
                self.honest_table(start, states),
                start,
                self.enable_plan(self.row_gate(k), k),
            ),
            all_agree(
                self.honest_table(start, states),
                start,
                self.constants_plan(self.rc_a@, self.permutation().row_round(k), k),
            ),
            !self.permutation().row_is_full(k) ==> all_agree(
                self.honest_table(start, states),
                start,
                self.constants_plan(self.rc_b@, self.permutation().row_round(k) + 1, k),
            ),
    {
        let table = self.honest_table(start, states);
        let round = self.permutation().row_round(k);
        let first = self.constants_plan(self.rc_a@, round, k);
        assert forall|i: int| 0 <= i < first.len() implies agrees(
            table,
            start,
            #[trigger] first[i],
        ) by {
            lemma_place(self.rc_a@, i);
            assert(self.rc_a@[i] != self.s_full);
        }
        if !self.permutation().row_is_full(k) {
            let second = self.constants_plan(self.rc_b@, round + 1, k);
            assert forall|i: int| 0 <= i < second.len() implies agrees(
                table,
                start,
                #[trigger] second[i],
            ) by {
                lemma_place(self.rc_b@, i);
                assert(self.rc_b@[i] != self.s_full);
                let column = self.rc_b@[i];
                if self.rc_a@.contains(column) {
                    let j = place(self.rc_a@, column);
                    assert(self.rc_a@[j] == self.rc_b@[i]);
                }
            }
        }
    }

    /// The cells of a state stand in the table.
    proof fn lemma_honest_state(self, start: int, states: Seq<Seq<int>>, k: nat, i: int)
        requires
            self.columns_apart(),
            k <= self.permutation().rows(),
            0 <= i < WIDTH,
        ensures
            (self.honest_table(start, states).advice)(self.state@[i], start + k)
                == states[k as int][i],
    {
        lemma_place(self.state@, i);
    }

    /// The cells inside a row of a full round stand in the table.
    proof fn lemma_honest_full_body(
        self,
        start: int,
        states: Seq<Seq<int>>,
        words: Seq<Option<int>>,
        k: nat,
    )
        requires
            self.columns_apart(),
            self.states_fit(states),
            k < self.permutation().rows(),
            self.permutation().row_is_full(k),
            known(words) == Some(states[k as int]),
        ensures
            all_agree(
                self.honest_table(start, states),
                start,
                self.full_body_plan(self.permutation().row_round(k), k, words),
            ),
    {
        let table = self.honest_table(start, states);
        let round = self.permutation().row_round(k);
        let body = self.full_body_plan(round, k, words);
        let q = add_constants(states[k as int], self.constants(round));
        assert(states[k as int].len() == WIDTH);
        assert forall|j: int| 0 <= j < body.len() implies agrees(
            table,
            start,
            #[trigger] body[j],
        ) by {
            let i = j / 2;
            lemma_place(self.state_rc_a@, i);
            lemma_place(self.state_rc_a_sqr@, i);
            let sum = self.state_rc_a@[i];
            let square = self.state_rc_a_sqr@[i];
            if self.state@.contains(sum) {
                let other = self.state@[place(self.state@, sum)];
            }
            if self.state@.contains(square) {
                let other = self.state@[place(self.state@, square)];
            }
            if self.state_rc_a@.contains(square) {
                let other = self.state_rc_a@[place(self.state_rc_a@, square)];
            }
            assert(entry(self.with_constants(round, words), i) == Some(q[i]));
        }
    }

    /// The cells inside a row of partial rounds stand in the table.
    proof fn lemma_honest_partial_body(
        self,
        start: int,
        states: Seq<Seq<int>>,
        words: Seq<Option<int>>,
        k: nat,
    )
        requires
            self.well_formed(),
            self.columns_apart(),
            self.states_fit(states),
            k < self.permutation().rows(),
            !self.permutation().row_is_full(k),
            known(words) == Some(states[k as int]),
        ensures
            all_agree(
                self.honest_table(start, states),
                start,
                self.partial_body_plan(self.permutation().row_round(k), k, words),
            ),
    {
        let table = self.honest_table(start, states);
        let round = self.permutation().row_round(k);
        let state = states[k as int];
        let sbox_cell = self.sbox_cell_plan(round, k, words);
        let constants = self.constants_plan(self.rc_b@, round + 1, k);
        let helpers = self.helper_cells_plan(round, k, words);
        let own = self.partial_columns();
        assert(state.len() == WIDTH);
        assert(own[0] == self.partial_sbox);
        assert(own[1] == self.mid_0_helper);
        assert(own[2] == self.mid_0_helper_sqr);
        assert(own[3] == self.cur_0_rc_a0);
        assert(own[4] == self.cur_0_rc_a0_sqr);
        assert forall|j: int| 0 <= j < own.len() implies !self.state@.contains(
            #[trigger] own[j],
        ) by {
            if self.state@.contains(own[j]) {
                let other = self.state@[place(self.state@, own[j])];
            }
        }
        assert(words.len() == WIDTH);
        assert(words[0] == Some(state[0])) by {
            assert(words[0] is Some);
            assert(known(words)->0[0] == state[0]);
        }
        assert(all_agree(table, start, sbox_cell));
        assert(all_agree(table, start, helpers)) by {
            assert(agrees(table, start, helpers[0]));
            assert(agrees(table, start, helpers[1]));
            assert(agrees(table, start, helpers[2]));
            assert(agrees(table, start, helpers[3]));
        }
        self.lemma_honest_constants(start, states, k);
        lemma_agree_in_parts(table, start, constants, helpers);
        lemma_agree_in_parts(table, start, sbox_cell, constants + helpers);
    }

    /// The first rows stand in the table.
    proof fn lemma_honest_rows(
        self,
        start: int,
        states: Seq<Seq<int>>,
        trace: Seq<Seq<StateWord>>,
        n: nat,
    )
        requires
            self.well_formed(),
            self.columns_apart(),
            self.states_fit(states),
            trace.len() == states.len(),
            n <= self.permutation().rows(),
            forall|k: int|
                0 <= k < trace.len() ==> known(values(#[trigger] trace[k])) == Some(states[k]),
            forall|k: int|
                0 <= k < self.permutation().rows() ==> self.after_permutation_row(
                    k as nat,
                    values(#[trigger] trace[k]),
                ) == states[k + 1],
        ensures
            all_agree(
                self.honest_table(start, states),
                start,
                self.permutation_rows_plan(trace, n),
            ),
        decreases n,
    {
        if n > 0 {
            let table = self.honest_table(start, states);
            let k = (n - 1) as nat;
            let words = values(trace[k as int]);
            let round = self.permutation().row_round(k);
            let full = self.permutation().row_is_full(k);
            let enable = self.enable_plan(self.row_gate(k), k);
            let constants = self.constants_plan(self.rc_a@, round, k);
            let body = if full {
                self.full_body_plan(round, k, words)
            } else {
                self.partial_body_plan(round, k, words)
            };
            let next_round = if full {
                round + 1
            } else {
                round + 2
            };
            let next = self.next_plan(next_round, k + 1, self.after_permutation_row(k, words));
            self.lemma_honest_rows(start, states, trace, k);
            self.lemma_honest_constants(start, states, k);
            if full {
                self.lemma_honest_full_body(start, states, words, k);
            } else {
                self.lemma_honest_partial_body(start, states, words, k);
            }
            assert forall|i: int| 0 <= i < next.len() implies agrees(
                table,
                start,
                #[trigger] next[i],
            ) by {
                self.lemma_honest_state(start, states, k + 1, i);
            }
            lemma_agree_in_parts(table, start, body, next);
            lemma_agree_in_parts(table, start, constants, body + next);
            lemma_agree_in_parts(table, start, enable, constants + (body + next));
            lemma_agree_in_parts(
                table,
                start,
                self.permutation_rows_plan(trace, k),
                self.permutation_row_plan(k, words),
            );
        }
    }

    /// The selector of a row is among what the row requests.
    proof fn lemma_row_sets_its_selector(
        self,
        trace: Seq<Seq<StateWord>>,
        n: nat,
        k: nat,
    )
        requires
            k < n,
        ensures
            assigned_by(self.permutation_rows_plan(trace, n), self.row_gate(k), k as int),
        decreases n,
    {
        let m = (n - 1) as nat;
        let head = self.permutation_rows_plan(trace, m);
        let row = self.permutation_row_plan(m, values(trace[m as int]));
        let plan = self.permutation_rows_plan(trace, n);
        if k < m {
            self.lemma_row_sets_its_selector(trace, m, k);
            let j = choose|j: int|
                0 <= j < head.len() && match #[trigger] head[j] {
                    Request::Fixed { label: _, column, offset, value: _ } => column
                        == self.row_gate(k) && offset == k as int,
                    _ => false,
                };
            assert(plan[j] == head[j]);
        } else {
            assert(row[0] == self.enable_plan(self.row_gate(k), k)[0]);
            assert(plan[head.len() as int] == row[0]);
        }
    }

    /// What a permutation requests never contradicts itself: with distinct columns there is a
    /// table that holds all of it, with the selectors zero elsewhere.
    pub proof fn law_the_requests_can_be_met(
        self,
        start: int,
        initial_state: Seq<StateWord>,
        trace: Seq<Seq<StateWord>>,
        before: Seq<Event>,
        after: Seq<Event>,
    ) -> (table: Table)
        requires
            self.well_formed(),
            self.has_constants(),
            self.columns_apart(),
            initial_state.len() == WIDTH,
            self.permuted(initial_state, trace, before, after, None),
            all_known(after, before.len() as int),
            forall|i: int|
                0 <= i < WIDTH ==> in_field((#[trigger] initial_state[i]).0.value()->0),
        ensures
            table.well_formed(),
            all_agree(table, start, self.permutation_plan(initial_state, trace)),
            forall|row: int|
                #![trigger (table.fixed)(self.s_full, row)]
                self.selectors_rest(
                    table,
                    start,
                    self.permutation_plan(initial_state, trace),
                    row,
                ),
    {
        let p = self.permutation();
        let rows = p.rows();
        let states = Seq::new(trace.len(), |k: int| known(values(trace[k]))->0);
        let table = self.honest_table(start, states);
        let load = load_plan(self, cells(initial_state));
        let rest = self.permutation_rows_plan(trace, rows);
        self.law_the_trace_is_known(initial_state, trace, before, after, None);
        assert(known(values(trace[0])) is Some);
        self.lemma_loaded_is_known(trace[0], initial_state);
        assert forall|i: int| 0 <= i < WIDTH implies values(initial_state)[i] == Some(
            #[trigger] states[0][i],
        ) && in_field(states[0][i]) by {
            assert(values(trace[0])[i] is Some);
            assert(in_field(initial_state[i].0.value()->0));
        }
        assert forall|k: int| 0 <= k < rows implies self.after_permutation_row(
            k as nat,
            values(#[trigger] trace[k]),
        ) == states[k + 1] by {
            assert(self.row_led(trace, k));
            assert(known(values(trace[k + 1])) is Some);
            self.lemma_settled_is_known(
                trace[k + 1],
                self.after_permutation_row(k as nat, values(trace[k])),
            );
        }
        assert(p.shaped(WIDTH as nat));
        assert forall|k: int| 0 <= k < states.len() implies (#[trigger] states[k]).len() == WIDTH
            && vector_in_field(states[k]) by {
            if k > 0 {
                let j = (k - 1) as nat;
                assert(known(values(trace[k - 1])) is Some);
                assert(self.after_permutation_row(j, values(trace[k - 1])) == states[k]);
                self.lemma_row_computes(j, values(trace[k - 1]));
                lemma_row_in_field(p, j, states[k - 1], WIDTH as nat);
            }
        }
        assert forall|k: int| 0 <= k < trace.len() implies known(values(#[trigger] trace[k]))
            == Some(states[k]) by {}
        self.lemma_honest_table_in_field(start, states);
        assert forall|i: int| 0 <= i < load.len() implies agrees(
            table,
            start,
            #[trigger] load[i],
        ) by {
            self.lemma_honest_state(start, states, 0, i);
            assert(values(initial_state)[i] == initial_state[i].0.value());
            let word = states[0][i];
        }
        self.lemma_honest_rows(start, states, trace, rows);
        lemma_agree_in_parts(table, start, load, rest);
        let plan = self.permutation_plan(initial_state, trace);
        assert forall|row: int|
            #![trigger (table.fixed)(self.s_full, row)]
            self.selectors_rest(table, start, plan, row) by {
            let offset = row - start;
            assert forall|i: int| 0 <= i < WIDTH implies #[trigger] self.rc_a@[i] != self.s_full
                && self.rc_a@[i] != self.s_partial && self.rc_a@[i] != self.s_pad_and_add by {}
            if 0 <= offset < rows {
                self.lemma_row_sets_its_selector(trace, rows, offset as nat);
                let gate = self.row_gate(offset as nat);
                let j = choose|j: int|
                    0 <= j < rest.len() && match #[trigger] rest[j] {
                        Request::Fixed { label: _, column, offset: o, value: _ } => column == gate
                            && o == offset,
                        _ => false,
                    };
                assert(plan[load.len() + j] == rest[j]);
                assert(assigned_by(plan, gate, offset));
            }
        }
        table
    }

    /// What an advice cell at `offset` of a region for absorbing holds.
    pub open spec fn absorbed_advice(
        self,
        loaded: Seq<int>,
        input: Seq<int>,
        sums: Seq<int>,
        column: AdviceColumn,
        offset: int,
    ) -> int {
        let i = place(self.state@, column);
        if !self.state@.contains(column) {
            0
        } else if offset == 0 {
            loaded[i]
        } else if offset == 1 && i < RATE {
            input[i]
        } else if offset == 2 {
            sums[i]
        } else {
            0
        }
    }

    /// What a fixed cell at `offset` of a region for absorbing holds.
    pub open spec fn absorbed_fixed(
        self,
        input: Absorbing<RATE>,
        column: FixedColumn,
        offset: int,
    ) -> int {
        let i = place(self.rc_b@, column);
        if offset != 1 {
            0
        } else if column == self.s_pad_and_add {
            1
        } else if self.rc_b@.contains(column) && i < RATE && input.0@[i]->0 is Padding {
            input.0@[i]->0->Padding_0@
        } else {
            0
        }
    }

    /// The table of absorbing `input`, in a region that starts on row `start`.
    pub open spec fn absorbed_table(
        self,
        start: int,
        loaded: Seq<int>,
        input: Absorbing<RATE>,
        sums: Seq<int>,
    ) -> Table {
        let words = Seq::new(RATE as nat, |i: int| input.0@[i]->0.value()->0);
        Table {
            advice: |column: AdviceColumn, row: int|
                self.absorbed_advice(loaded, words, sums, column, row - start),
            fixed: |column: FixedColumn, row: int|
                self.absorbed_fixed(input, column, row - start),
        }
    }

    /// The words of input stand in the table.
    proof fn lemma_absorbed_words(
        self,
        start: int,
        loaded: Seq<int>,
        input: Absorbing<RATE>,
        sums: Seq<int>,
        sources: Seq<AssignedWord>,
        inputs: Seq<StateWord>,
        n: nat,
    )
        requires
            self.well_formed(),
            self.columns_apart(),
            n <= RATE,
        ensures
            all_agree(
                self.absorbed_table(start, loaded, input, sums),
                start,
                self.words_plan(input, sources, inputs, n),
            ),
        decreases n,
    {
        if n > 0 {
            let table = self.absorbed_table(start, loaded, input, sums);
            let m = n - 1;
            let word = input.0@[m]->0;
            let tied = self.word_plan(word, m as nat).push(
                Request::Equal {
                    left: assigned_cell(inputs[m].0),
                    right: assigned_cell(sources[m]),
                },
            );
            self.lemma_absorbed_words(start, loaded, input, sums, sources, inputs, m as nat);
            lemma_place(self.state@, m);
            lemma_place(self.rc_b@, m);
            assert(self.rc_b@[m] != self.s_pad_and_add);
            assert forall|j: int| 0 <= j < tied.len() implies agrees(
                table,
                start,
                #[trigger] tied[j],
            ) by {}
            lemma_agree_in_parts(
                table,
                start,
                self.words_plan(input, sources, inputs, m as nat),
                tied,
            );
        }
    }

    /// What absorbing requests never contradicts itself: with distinct columns there is a table that
    /// holds all of it, with the selectors zero elsewhere.
    pub proof fn law_the_requests_of_absorbing_can_be_met(
        self,
        start: int,
        initial_state: Seq<StateWord>,
        input: Absorbing<RATE>,
        trace: InputTrace,
        before: Seq<Event>,
        after: Seq<Event>,
    ) -> (table: Table)
        requires
            self.well_formed(),
            self.columns_apart(),
            initial_state.len() == WIDTH,
            self.absorbed(initial_state, input, trace, before, after, None),
            all_known(after, before.len() as int),
            forall|i: int|
                0 <= i < WIDTH ==> in_field((#[trigger] initial_state[i]).0.value()->0),
            forall|i: int| 0 <= i < RATE ==> in_field((#[trigger] input.0@[i])->0.value()->0),
        ensures
            table.well_formed(),
            all_agree(table, start, self.input_plan(initial_state, input, trace)),
            forall|row: int|
                #![trigger (table.fixed)(self.s_full, row)]
                self.selectors_rest(
                    table,
                    start,
                    self.input_plan(initial_state, input, trace),
                    row,
                ),
    {
        let words = trace.loaded->0;
        let loaded = known(values(words))->0;
        let sums = self.output_values(values(words), values(trace.inputs));
        let table = self.absorbed_table(start, loaded, input, sums);
        let enable = self.enable_input_plan();
        let load = load_plan(self, cells(initial_state));
        let inputs = self.words_plan(input, trace.sources, trace.inputs, RATE as nat);
        let output = self.output_plan(sums);
        let plan = self.input_plan(initial_state, input, trace);
        lemma_small_residues();
        self.law_the_input_is_known(initial_state, input, trace, before, after, None);
        self.lemma_loaded_is_known(words, initial_state);
        assert forall|i: int| 0 <= i < WIDTH implies values(initial_state)[i] == Some(
            #[trigger] loaded[i],
        ) && in_field(loaded[i]) by {
            assert(values(words)[i] is Some);
            assert(in_field(initial_state[i].0.value()->0));
        }
        assert forall|column: AdviceColumn, row: int| in_field(
            #[trigger] (table.advice)(column, row),
        ) by {
            broadcast use group_in_field;

            if self.state@.contains(column) {
                let i = place(self.state@, column);
                assert(in_field(loaded[i]));
                assert(in_field(sums[i]));
                if i < RATE {
                    assert(in_field(input.0@[i]->0.value()->0));
                }
            }
        }
        assert forall|column: FixedColumn, row: int| in_field(
            #[trigger] (table.fixed)(column, row),
        ) by {
            broadcast use lemma_felt_in_field;

        }
        assert(all_agree(table, start, enable));
        assert forall|i: int| 0 <= i < load.len() implies agrees(
            table,
            start,
            #[trigger] load[i],
        ) by {
            lemma_place(self.state@, i);
            assert(values(initial_state)[i] == initial_state[i].0.value());
            let word = loaded[i];
        }
        assert forall|i: int| 0 <= i < output.len() implies agrees(
            table,
            start,
            #[trigger] output[i],
        ) by {
            lemma_place(self.state@, i);
        }
        self.lemma_absorbed_words(
            start,
            loaded,
            input,
            sums,
            trace.sources,
            trace.inputs,
            RATE as nat,
        );
        lemma_agree_in_parts(table, start, inputs, output);
        lemma_agree_in_parts(table, start, load, inputs + output);
        lemma_agree_in_parts(table, start, enable, load + (inputs + output));
        assert forall|row: int|
            #![trigger (table.fixed)(self.s_full, row)]
            self.selectors_rest(table, start, plan, row) by {
            let offset = row - start;
            assert forall|i: int| 0 <= i < WIDTH implies #[trigger] self.rc_b@[i] != self.s_full
                && self.rc_b@[i] != self.s_partial by {}
            if offset == 1 {
                assert(plan[0] == enable[0]);
                assert(assigned_by(plan, self.s_pad_and_add, offset));
            }
        }
        table
    }
}

} // verus!
