//! What the instructions and the gates of the chip amount to together.
use crate::column::FixedColumn;
use crate::config::Pow5Config;
use crate::field::{
    fadd, fmul, in_field, law_the_field_is_arithmetic_modulo_its_order, le_limbs, lemma_fadd_zero,
    Felt,
};
use crate::gate::Table;
use crate::label::numeral;
use crate::linear::{matrix, residues, undoes};
use crate::permutation::{
    absorb, add_constants, full_round, law_rows_compute_the_permutation, partial_round, sbox_first,
};
use crate::plan::{
    entry, follows, got_words, known, law_a_plan_is_followed_in_order, lies, load_plan,
};
use crate::region::{assigned_cell, assigned_value, AssignedWord, Event, Reply, Request};
use crate::sponge::{Absorbing, InputTrace, PaddedWord};
use crate::state::{all_settled, all_settled_on, cells, values, StateWord};
use halo2_proofs::circuit::Cell;
use halo2_proofs::plonk::Error;
use vstd::arithmetic::power::pow;
use vstd::prelude::*;

verus! {

/// A table holds what a request asks for, in a region that starts on row `start`. Nothing is asked
/// of a cell whose value is not known.
pub open spec fn agrees(table: Table, start: int, request: Request) -> bool {
    match request {
        Request::Advice { label: _, column, offset, value } => match value {
            Some(v) => (table.advice)(column, start + offset) == v,
            None => true,
        },
        Request::Fixed { label: _, column, offset, value } => (table.fixed)(column, start + offset)
            == value,
        Request::Constant { label: _, column, offset, value } => (table.advice)(
            column,
            start + offset,
        ) == value,
        Request::Copy { label: _, source, column, offset } => match source.value() {
            Some(v) => (table.advice)(column, start + offset) == v,
            None => true,
        },
        Request::Equal { left: _, right: _ } => true,
    }
}

/// A table holds what all of the requests ask for.
pub open spec fn all_agree(table: Table, start: int, requests: Seq<Request>) -> bool {
    forall|k: int| 0 <= k < requests.len() ==> agrees(table, start, #[trigger] requests[k])
}

/// A table holds what the requests ask for in fixed columns.
pub open spec fn fixed_agree(table: Table, start: int, requests: Seq<Request>) -> bool {
    forall|k: int|
        0 <= k < requests.len() ==> (#[trigger] requests[k] is Fixed ==> agrees(
            table,
            start,
            requests[k],
        ))
}

/// What the circuit itself makes sure of, whatever is put into the advice cells. Here `at` gives the
/// value of every cell, and `table` that of every column and row: the cell that comes back is the
/// one that was asked for, fixed cells and constants have their values, and ties hold.
pub open spec fn enforced(
    table: Table,
    start: int,
    at: spec_fn(Cell) -> int,
    event: Event,
) -> bool {
    !(event.reply is Refused) ==> match event.request {
        Request::Advice { label: _, column, offset, value: _ } => event.reply
            matches Reply::Assigned(word) ==> at(assigned_cell(word)) == (table.advice)(
            column,
            start + offset,
        ),
        Request::Fixed { label: _, column, offset, value } => {
            &&& (table.fixed)(column, start + offset) == value
            &&& event.reply matches Reply::Assigned(word) ==> at(assigned_cell(word)) == value
        },
        Request::Constant { label: _, column, offset, value } => {
            &&& (table.advice)(column, start + offset) == value
            &&& event.reply matches Reply::Assigned(word) ==> at(assigned_cell(word)) == value
        },
        Request::Copy { label: _, source, column, offset } => {
            &&& (table.advice)(column, start + offset) == at(assigned_cell(source))
            &&& event.reply matches Reply::Assigned(word) ==> at(assigned_cell(word)) == at(
                assigned_cell(source),
            )
        },
        Request::Equal { left, right } => at(left) == at(right),
    }
}

/// What the circuit itself makes sure of, for all events from `from` on.
pub open spec fn all_enforced(
    table: Table,
    start: int,
    at: spec_fn(Cell) -> int,
    events: Seq<Event>,
    from: int,
) -> bool {
    forall|k: int|
        from <= k < events.len() ==> enforced(table, start, at, #[trigger] events[k])
}

/// Every word that came back for an advice cell from event `from` on has a value: the region asked
/// for all of them. Whether it asked for the values of fixed cells is left open, as a region that
/// collects a witness has no use for them.
pub open spec fn all_known(events: Seq<Event>, from: int) -> bool {
    forall|k: int|
        from <= k < events.len() && !((#[trigger] events[k]).request is Fixed) ==> (
        events[k].reply matches Reply::Assigned(word) ==> word.value() is Some)
}

/// The values of the cells of a state.
pub open spec fn values_at(at: spec_fn(Cell) -> int, words: Seq<StateWord>) -> Seq<int> {
    Seq::new(words.len(), |i: int| at(assigned_cell(words[i].0)))
}

/// The value of a word of input: that of the cell of the message, or the padding.
pub open spec fn word_at(at: spec_fn(Cell) -> int, word: PaddedWord) -> int {
    match word {
        PaddedWord::Message(message) => at(assigned_cell(message)),
        PaddedWord::Padding(padding) => padding@,
    }
}

/// The values of the words of input.
pub open spec fn block_at<const RATE: usize>(
    at: spec_fn(Cell) -> int,
    input: Absorbing<RATE>,
) -> Seq<int> {
    Seq::new(RATE as nat, |i: int| word_at(at, input.0@[i]->0))
}

/// The values of the words of input, where they are known.
pub open spec fn block_values<const RATE: usize>(input: Absorbing<RATE>) -> Seq<int> {
    Seq::new(RATE as nat, |i: int| input.0@[i]->0.value()->0)
}

/// The requests assign the cell of a fixed column at an offset.
pub open spec fn assigned_by(requests: Seq<Request>, column: FixedColumn, offset: int) -> bool {
    exists|k: int|
        0 <= k < requests.len() && match #[trigger] requests[k] {
            Request::Fixed { label: _, column: c, offset: o, value: _ } => c == column && o
                == offset,
            _ => false,
        }
}

/// Every word of input takes requests.
proof fn lemma_some_requests<const RATE: usize>(input: Absorbing<RATE>, i: nat)
    ensures
        input.requests(i + 1) >= 2,
{
}

pub(crate) proof fn lemma_agree_in_parts(table: Table, start: int, first: Seq<Request>, second: Seq<Request>)
    ensures
        all_agree(table, start, first + second) <==> all_agree(table, start, first) && all_agree(
            table,
            start,
            second,
        ),
        fixed_agree(table, start, first + second) <==> fixed_agree(table, start, first)
            && fixed_agree(table, start, second),
{
    let both = first + second;
    assert forall|k: int| 0 <= k < first.len() implies #[trigger] first[k] == both[k] by {}
    assert forall|k: int| 0 <= k < second.len() implies #[trigger] second[k] == both[
        k + first.len()
    ] by {}
}

proof fn lemma_all_agree_on_fixed(table: Table, start: int, requests: Seq<Request>)
    requires
        all_agree(table, start, requests),
    ensures
        fixed_agree(table, start, requests),
{
}

proof fn lemma_assigned_in_parts(
    first: Seq<Request>,
    second: Seq<Request>,
    column: FixedColumn,
    offset: int,
)
    ensures
        assigned_by(first + second, column, offset) ==> assigned_by(first, column, offset)
            || assigned_by(second, column, offset),
{
    let both = first + second;
    if assigned_by(both, column, offset) {
        let k = choose|k: int|
            0 <= k < both.len() && match #[trigger] both[k] {
                Request::Fixed { label: _, column: c, offset: o, value: _ } => c == column && o
                    == offset,
                _ => false,
            };
        if k < first.len() {
            assert(first[k] == both[k]);
        } else {
            assert(second[k - first.len()] == both[k]);
        }
    }
}

impl<const WIDTH: usize, const RATE: usize> Pow5Config<WIDTH, RATE> {
    /// Every selector is zero on row `row` if the requests do not set it there.
    pub open spec fn selectors_rest(
        self,
        table: Table,
        start: int,
        requests: Seq<Request>,
        row: int,
    ) -> bool {
        &&& !assigned_by(requests, self.s_full, row - start) ==> (table.fixed)(self.s_full, row)
            == 0
        &&& !assigned_by(requests, self.s_partial, row - start) ==> (table.fixed)(
            self.s_partial,
            row,
        ) == 0
        &&& !assigned_by(requests, self.s_pad_and_add, row - start) ==> (table.fixed)(
            self.s_pad_and_add,
            row,
        ) == 0
    }

    /// The requests of a whole permutation.
    pub open spec fn permutation_plan(
        self,
        initial_state: Seq<StateWord>,
        trace: Seq<Seq<StateWord>>,
    ) -> Seq<Request> {
        load_plan(self, cells(initial_state)) + self.permutation_rows_plan(
            trace,
            self.permutation().rows(),
        )
    }

    /// The values of every state of `trace` are known.
    pub open spec fn trace_known(self, trace: Seq<Seq<StateWord>>) -> bool {
        forall|k: int| 0 <= k < trace.len() ==> known(values(#[trigger] trace[k])) is Some
    }

    /// The permutation of a chip has the parameters of its configuration: the halved numbers of
    /// rounds, the constants of every round and the entries of the mixing matrix. There have to be
    /// constants for twice the halved numbers of rounds.
    pub proof fn law_a_chip_permutes_with_its_parameters(self)
        ensures
            self.permutation().half_full_rounds == self.half_full_rounds,
            self.permutation().half_partial_rounds == self.half_partial_rounds,
            self.permutation().round_constants.len() == self.round_constants@.len(),
            forall|r: int, i: int|
                0 <= r < self.round_constants@.len() && 0 <= i < WIDTH
                    ==> #[trigger] self.permutation().round_constants[r][i]
                    == self.round_constants@[r]@[i]@,
            forall|r: int|
                0 <= r < self.round_constants@.len() ==> (
                #[trigger] self.permutation().round_constants[r]).len() == WIDTH,
            self.permutation().mds.len() == WIDTH,
            forall|i: int| 0 <= i < WIDTH ==> (#[trigger] self.permutation().mds[i]).len() == WIDTH,
            forall|i: int, j: int|
                0 <= i < WIDTH && 0 <= j < WIDTH ==> #[trigger] self.permutation().mds[i][j]
                    == self.m_reg@[i]@[j]@,
            self.has_constants() <==> 2 * self.half_full_rounds + 2 * self.half_partial_rounds
                <= self.round_constants@.len(),
            self.well_formed() <==> WIDTH == RATE + 1 && le_limbs(self.alpha) == 5,
    {
    }

    /// A row of a full round leads from known values to those after that round, with the constants
    /// of its number; a row of two partial rounds to those after the two. From values that are not
    /// known they lead to zeros.
    pub proof fn law_rows_lead_on(self, round: nat, values: Seq<Option<int>>)
        requires
            round + 1 < self.round_constants@.len(),
        ensures
            ({
                let m = matrix(self.m_reg);
                let c = residues(self.round_constants@[round as int]@);
                let d = residues(self.round_constants@[round as int + 1]@);
                match known(values) {
                    Some(p) => {
                        &&& self.after_full(round, values) == full_round(m, c, p)
                        &&& self.after_partials(round, values) == partial_round(
                            m,
                            d,
                            partial_round(m, c, p),
                        )
                    },
                    None => {
                        &&& self.after_full(round, values).len() == WIDTH
                        &&& self.after_partials(round, values).len() == WIDTH
                        &&& forall|i: int|
                            0 <= i < WIDTH ==> #[trigger] self.after_full(round, values)[i] == 0
                        &&& forall|i: int|
                            0 <= i < WIDTH ==> #[trigger] self.after_partials(round, values)[i] == 0
                    },
                }
            }),
    {
    }

    /// Loading asks for copies of the words, in order, into the columns of the state on the first
    /// row.
    pub proof fn law_loading_copies_the_words(self, words: Seq<AssignedWord>, i: int)
        requires
            0 <= i < WIDTH,
        ensures
            load_plan(self, words).len() == WIDTH,
            load_plan(self, words)[i] == (Request::Copy {
                label: "load state_"@ + numeral(i as nat),
                source: words[i],
                column: self.state@[i],
                offset: 0,
            }),
    {
    }

    /// What is asked for in a row of a full round: its selector, the constants of the round, for
    /// every word the sum with its constant and the square of that, and the state on the next row.
    pub proof fn law_a_full_row_asks_for(
        self,
        round: nat,
        offset: nat,
        values: Seq<Option<int>>,
        i: int,
    )
        requires
            round < self.round_constants@.len(),
            values.len() == WIDTH,
            0 <= i < WIDTH,
        ensures
            ({
                let plan = self.full_plan(round, offset, values);
                let w = WIDTH as int;
                let c = self.round_constants@[round as int]@[i]@;
                &&& plan.len() == 1 + 4 * w
                &&& plan[0] == (Request::Fixed {
                    label: "round"@,
                    column: self.s_full,
                    offset,
                    value: 1,
                })
                &&& plan[1 + i] == (Request::Fixed {
                    label: "round_"@ + numeral(round) + " rc_"@ + numeral(i as nat),
                    column: self.rc_a@[i],
                    offset,
                    value: c,
                })
                &&& plan[1 + w + 2 * i] == (Request::Advice {
                    label: "round_"@ + numeral(round) + " state_rc_a"@,
                    column: self.state_rc_a@[i],
                    offset,
                    value: match known(values) {
                        Some(p) => Some((p[i] + c) % 0x40000000000000000000000000000000224698fc094cf91b992d30ed00000001int),
                        None => None,
                    },
                })
                &&& plan[1 + w + 2 * i + 1] == (Request::Advice {
                    label: "round_"@ + numeral(round) + " state_rc_a_sqr"@,
                    column: self.state_rc_a_sqr@[i],
                    offset,
                    value: match known(values) {
                        Some(p) => {
                            let q = (p[i] + c) % 0x40000000000000000000000000000000224698fc094cf91b992d30ed00000001int;
                            Some((q * q) % 0x40000000000000000000000000000000224698fc094cf91b992d30ed00000001int)
                        },
                        None => None,
                    },
                })
                &&& plan[1 + 3 * w + i] == (Request::Advice {
                    label: "round_"@ + numeral(round + 1) + " state_"@ + numeral(i as nat),
                    column: self.state@[i],
                    offset: offset + 1,
                    value: Some(self.after_full(round, values)[i]),
                })
            }),
    {
        law_the_field_is_arithmetic_modulo_its_order(0, 0, 0);
        let enable = self.enable_plan(self.s_full, offset);
        let constants = self.constants_plan(self.rc_a@, round, offset);
        let body = self.full_body_plan(round, offset, values);
        let next = self.next_plan(round + 1, offset + 1, self.after_full(round, values));
        let plan = self.full_plan(round, offset, values);
        let w = WIDTH as int;
        assert(plan == enable + (constants + (body + next)));
        assert(plan[1 + i] == constants[i]);
        assert(plan[1 + w + 2 * i] == body[2 * i]);
        assert(plan[1 + w + 2 * i + 1] == body[2 * i + 1]);
        assert(plan[1 + 3 * w + i] == next[i]);
    }

    /// What is asked for in a row of two partial rounds: its selector, the constants of the first
    /// round, the fifth power of the first word, the constants of the second round, the inputs of
    /// the two S-boxes with their squares, and the state on the next row.
    pub proof fn law_a_partial_row_asks_for(
        self,
        round: nat,
        offset: nat,
        values: Seq<Option<int>>,
        i: int,
    )
        requires
            round + 1 < self.round_constants@.len(),
            values.len() == WIDTH,
            0 <= i < WIDTH,
        ensures
            ({
                let plan = self.partial_plan(round, offset, values);
                let w = WIDTH as int;
                let c = self.round_constants@[round as int]@;
                let d = self.round_constants@[round as int + 1]@;
                let helper = match known(values) {
                    Some(p) => Some(
                        (partial_round(matrix(self.m_reg), residues(c), p)[0] + d[0]@) % 0x40000000000000000000000000000000224698fc094cf91b992d30ed00000001int,
                    ),
                    None => None,
                };
                let first = match values[0] {
                    Some(x) => Some((x + c[0]@) % 0x40000000000000000000000000000000224698fc094cf91b992d30ed00000001int),
                    None => None,
                };
                &&& plan.len() == 6 + 3 * w
                &&& plan[0] == (Request::Fixed {
                    label: "round"@,
                    column: self.s_partial,
                    offset,
                    value: 1,
                })
                &&& plan[1 + i] == (Request::Fixed {
                    label: "round_"@ + numeral(round) + " rc_"@ + numeral(i as nat),
                    column: self.rc_a@[i],
                    offset,
                    value: c[i]@,
                })
                &&& plan[1 + w] == (Request::Advice {
                    label: "round_"@ + numeral(round) + " partial_sbox"@,
                    column: self.partial_sbox,
                    offset,
                    value: match known(values) {
                        Some(p) => Some(pow((p[0] + c[0]@) % 0x40000000000000000000000000000000224698fc094cf91b992d30ed00000001int, 5) % 0x40000000000000000000000000000000224698fc094cf91b992d30ed00000001int),
                        None => None,
                    },
                })
                &&& plan[2 + w + i] == (Request::Fixed {
                    label: "round_"@ + numeral(round + 1) + " rc_"@ + numeral(i as nat),
                    column: self.rc_b@[i],
                    offset,
                    value: d[i]@,
                })
                &&& plan[2 + 2 * w] == (Request::Advice {
                    label: "round_"@ + numeral(round) + " mid_0_helper_curr"@,
                    column: self.mid_0_helper,
                    offset,
                    value: helper,
                })
                &&& plan[3 + 2 * w] == (Request::Advice {
                    label: "round_"@ + numeral(round) + " mid_0_helper_sqr_curr"@,
                    column: self.mid_0_helper_sqr,
                    offset,
                    value: match helper {
                        Some(x) => Some((x * x) % 0x40000000000000000000000000000000224698fc094cf91b992d30ed00000001int),
                        None => None,
                    },
                })
                &&& plan[4 + 2 * w] == (Request::Advice {
                    label: "round_"@ + numeral(round) + " mid_0_helper_curr"@,
                    column: self.cur_0_rc_a0,
                    offset,
                    value: first,
                })
                &&& plan[5 + 2 * w] == (Request::Advice {
                    label: "round_"@ + numeral(round) + " mid_0_helper_sqr_curr"@,
                    column: self.cur_0_rc_a0_sqr,
                    offset,
                    value: match first {
                        Some(x) => Some((x * x) % 0x40000000000000000000000000000000224698fc094cf91b992d30ed00000001int),
                        None => None,
                    },
                })
                &&& plan[6 + 2 * w + i] == (Request::Advice {
                    label: "round_"@ + numeral(round + 2) + " state_"@ + numeral(i as nat),
                    column: self.state@[i],
                    offset: offset + 1,
                    value: Some(self.after_partials(round, values)[i]),
                })
            }),
    {
        law_the_field_is_arithmetic_modulo_its_order(0, 0, 0);
        let enable = self.enable_plan(self.s_partial, offset);
        let constants = self.constants_plan(self.rc_a@, round, offset);
        let sbox_cell = self.sbox_cell_plan(round, offset, values);
        let second = self.constants_plan(self.rc_b@, round + 1, offset);
        let helpers = self.helper_cells_plan(round, offset, values);
        let body = self.partial_body_plan(round, offset, values);
        let next = self.next_plan(round + 2, offset + 1, self.after_partials(round, values));
        let plan = self.partial_plan(round, offset, values);
        let w = WIDTH as int;
        assert(plan == enable + (constants + (body + next)));
        assert(body == sbox_cell + (second + helpers));
        assert(plan[1 + i] == constants[i]);
        assert(plan[1 + w] == sbox_cell[0]);
        assert(plan[2 + w + i] == second[i]);
        assert(plan[2 + 2 * w] == helpers[0]);
        assert(plan[3 + 2 * w] == helpers[1]);
        assert(plan[4 + 2 * w] == helpers[2]);
        assert(plan[5 + 2 * w] == helpers[3]);
        assert(plan[6 + 2 * w + i] == next[i]);
    }

    /// What absorbing asks for on its last row: for every word but the last one the sum of the loaded
    /// word and the input, and the loaded word itself for the last one. A value that is not known
    /// counts as zero.
    pub proof fn law_the_output_asked_for_is_the_sum(
        self,
        loaded: Seq<Option<int>>,
        inputs: Seq<Option<int>>,
        i: int,
    )
        requires
            self.well_formed(),
            loaded.len() == WIDTH,
            inputs.len() == RATE,
            0 <= i < WIDTH,
        ensures
            self.output_plan(self.output_values(loaded, inputs)).len() == WIDTH,
            ({
                let word = match loaded[i] {
                    Some(x) => x,
                    None => 0int,
                };
                let added = if i == RATE {
                    0int
                } else {
                    match inputs[i] {
                        Some(x) => x,
                        None => 0int,
                    }
                };
                self.output_plan(self.output_values(loaded, inputs))[i] == (Request::Advice {
                    label: "load output_"@ + numeral(i as nat),
                    column: self.state@[i],
                    offset: 2,
                    value: Some((word + added) % 0x40000000000000000000000000000000224698fc094cf91b992d30ed00000001int),
                })
            }),
    {
        law_the_field_is_arithmetic_modulo_its_order(0, 0, 0);
    }

    /// Words that came back with values have values.
    proof fn lemma_words_are_known(
        self,
        events: Seq<Event>,
        from: int,
        first: int,
        words: Seq<StateWord>,
        offset: nat,
    )
        requires
            from <= first,
            got_words(events, first, cells(words), self.state@, offset),
            all_known(events, from),
        ensures
            known(values(words)) is Some,
    {
        assert forall|i: int| 0 <= i < words.len() implies #[trigger] values(words)[i] is Some by {
            assert(cells(words)[i] == words[i].0);
            let event = events[first + i];
            assert(event.reply == Reply::Assigned(words[i].0));
        }
    }

    /// If the region asked for every advice value, the values of every state on the way are known.
    pub proof fn law_the_trace_is_known(
        self,
        initial_state: Seq<StateWord>,
        trace: Seq<Seq<StateWord>>,
        before: Seq<Event>,
        after: Seq<Event>,
        refusal: Option<Error>,
    )
        requires
            self.permuted(initial_state, trace, before, after, refusal),
            all_known(after, before.len() as int),
        ensures
            self.trace_known(trace),
    {
        assert forall|k: int| 0 <= k < trace.len() implies known(
            values(#[trigger] trace[k]),
        ) is Some by {
            assert(self.state_lies(trace, before, after, k));
            self.lemma_words_are_known(
                after,
                before.len() as int,
                before.len() as int + self.permutation_rows_plan(trace, k as nat).len(),
                trace[k],
                k as nat,
            );
        }
    }

    /// If the region asked for every advice value, those of the loaded state and of the input are
    /// known.
    pub proof fn law_the_input_is_known(
        self,
        initial_state: Seq<StateWord>,
        input: Absorbing<RATE>,
        trace: InputTrace,
        before: Seq<Event>,
        after: Seq<Event>,
        refusal: Option<Error>,
    )
        requires
            self.absorbed(initial_state, input, trace, before, after, refusal),
            all_known(after, before.len() as int),
        ensures
            trace.loaded matches Some(loaded) ==> known(values(loaded)) is Some,
            known(values(trace.inputs)) is Some,
    {
        if let Some(loaded) = trace.loaded {
            self.lemma_words_are_known(
                after,
                before.len() as int,
                before.len() as int + 1,
                loaded,
                0,
            );
        }
        let v = values(trace.inputs);
        assert forall|i: int| 0 <= i < v.len() implies #[trigger] v[i] is Some by {
            let e = before.len() as int + 1 + WIDTH + input.requests(i as nat + 1) - 1;
            let word = trace.inputs[i].0;
            assert(self.word_ties(after, e, input.0@[i]->0, i, word, trace.sources[i]));
            lemma_some_requests(input, i as nat);
            let event = after[e - 1];
            assert(event.reply == Reply::Assigned(word));
        }
    }

    pub(crate) proof fn lemma_settled_is_known(self, words: Seq<StateWord>, requested: Seq<int>)
        requires
            all_settled_on(words, requested),
            known(values(words)) is Some,
        ensures
            known(values(words)) == Some(requested),
    {
        let v = values(words);
        assert forall|i: int| 0 <= i < words.len() implies v[i]->0 == requested[i] by {
            assert(v[i] is Some);
            assert(words[i].0.settled(Some(requested[i])));
        }
        assert(known(v)->0 =~= requested);
    }

    /// A state that was loaded, and is known, is the state that it was loaded from.
    pub(crate) proof fn lemma_loaded_is_known(self, loaded: Seq<StateWord>, initial_state: Seq<StateWord>)
        requires
            all_settled(loaded, values(initial_state)),
            known(values(loaded)) is Some,
        ensures
            values(loaded) == values(initial_state),
    {
        let v = values(loaded);
        assert forall|i: int| 0 <= i < loaded.len() implies v[i] == values(initial_state)[i] by {
            assert(v[i] is Some);
            assert(loaded[i].0.settled(values(initial_state)[i]));
        }
        assert(v =~= values(initial_state));
    }

    /// On known values, a row of the chip computes a row of the permutation.
    pub(crate) proof fn lemma_row_computes(self, k: nat, start: Seq<Option<int>>)
        requires
            self.well_formed(),
            self.has_constants(),
            k < self.permutation().rows(),
            known(start) is Some,
        ensures
            self.after_permutation_row(k, start) == self.permutation().row(k, known(start)->0),
    {
        let r = self.permutation().row_round(k);
        assert(self.constants(r) == self.permutation().round_constants[r as int]);
        if !self.permutation().row_is_full(k) {
            assert(self.constants(r + 1) == self.permutation().round_constants[r as int + 1]);
        }
    }

    proof fn lemma_trace_computes(
        self,
        initial_state: Seq<StateWord>,
        trace: Seq<Seq<StateWord>>,
        k: nat,
    )
        requires
            self.well_formed(),
            self.has_constants(),
            self.is_trace(initial_state, trace),
            self.trace_known(trace),
            k < trace.len() <= self.permutation().rows() + 1,
        ensures
            known(values(initial_state)) is Some,
            known(values(trace[k as int])) == Some(
                self.permutation().after_rows(known(values(initial_state))->0, k),
            ),
        decreases k,
    {
        assert(known(values(trace[0])) is Some);
        self.lemma_loaded_is_known(trace[0], initial_state);
        if k > 0 {
            let j = (k - 1) as nat;
            self.lemma_trace_computes(initial_state, trace, j);
            assert(self.row_led(trace, j as int));
            assert(known(values(trace[k as int])) is Some);
            self.lemma_row_computes(j, values(trace[j as int]));
            self.lemma_settled_is_known(
                trace[k as int],
                self.after_permutation_row(j, values(trace[j as int])),
            );
        }
    }

    /// A permutation in a region that asks for every advice value ends in the image of its initial
    /// state under the Poseidon permutation.
    pub proof fn law_the_chip_permutes(
        self,
        initial_state: Seq<StateWord>,
        trace: Seq<Seq<StateWord>>,
        before: Seq<Event>,
        after: Seq<Event>,
    )
        requires
            self.well_formed(),
            self.has_constants(),
            self.permuted(initial_state, trace, before, after, None),
            all_known(after, before.len() as int),
        ensures
            known(values(initial_state)) is Some,
            known(values(trace.last())) == Some(
                self.permutation().permute(known(values(initial_state))->0),
            ),
    {
        let rows = self.permutation().rows();
        self.law_the_trace_is_known(initial_state, trace, before, after, None);
        self.lemma_trace_computes(initial_state, trace, rows);
        law_rows_compute_the_permutation(self.permutation(), known(values(initial_state))->0);
    }

    /// A permutation in a region that asks for every advice value takes its words through the rounds,
    /// one after the other: `half_full_rounds` full ones, twice `half_partial_rounds` partial ones
    /// and `half_full_rounds` full ones, each with the constants of its own number. The words that
    /// it returns hold the state after the last one, and lie below as many rows as there are full
    /// rounds and halved partial ones.
    pub proof fn law_permuting_goes_round_by_round(
        self,
        initial_state: Seq<StateWord>,
        trace: Seq<Seq<StateWord>>,
        before: Seq<Event>,
        after: Seq<Event>,
    ) -> (states: Seq<Seq<int>>)
        requires
            self.well_formed(),
            self.has_constants(),
            initial_state.len() == WIDTH,
            self.permuted(initial_state, trace, before, after, None),
            all_known(after, before.len() as int),
        ensures
            trace.len() == 2 * self.half_full_rounds + self.half_partial_rounds + 1,
            states.len() == 2 * self.half_full_rounds + 2 * self.half_partial_rounds + 1,
            states[0].len() == WIDTH,
            states.last().len() == WIDTH,
            trace.last().len() == WIDTH,
            forall|i: int|
                0 <= i < WIDTH ==> assigned_value((#[trigger] initial_state[i]).0) == Some(
                    states[0][i],
                ),
            forall|i: int|
                0 <= i < WIDTH ==> assigned_value((#[trigger] trace.last()[i]).0) == Some(
                    states.last()[i],
                ),
            forall|r: int|
                0 <= r < self.half_full_rounds ==> #[trigger] states[r + 1] == full_round(
                    matrix(self.m_reg),
                    residues(self.round_constants@[r]@),
                    states[r],
                ),
            forall|r: int|
                self.half_full_rounds <= r < self.half_full_rounds + 2 * self.half_partial_rounds
                    ==> #[trigger] states[r + 1] == partial_round(
                    matrix(self.m_reg),
                    residues(self.round_constants@[r]@),
                    states[r],
                ),
            forall|r: int|
                self.half_full_rounds + 2 * self.half_partial_rounds <= r < 2
                    * self.half_full_rounds + 2 * self.half_partial_rounds
                    ==> #[trigger] states[r + 1] == full_round(
                    matrix(self.m_reg),
                    residues(self.round_constants@[r]@),
                    states[r],
                ),
    {
        let p = self.permutation();
        self.law_the_chip_permutes(initial_state, trace, before, after);
        let first = known(values(initial_state))->0;
        let states = p.law_the_permutation_goes_round_by_round(first);
        assert forall|r: int| 0 <= r < self.round_constants@.len() implies residues(
            #[trigger] self.round_constants@[r]@,
        ) == p.round_constants[r] by {}
        assert(self.state_lies(trace, before, after, trace.len() - 1));
        if trace.len() > 1 {
            assert(self.row_led(trace, trace.len() - 2));
        }
        assert(known(values(trace.last())) == Some(states.last()));
        assert(known(values(trace.last()))->0.len() == trace.last().len());
        assert forall|i: int| 0 <= i < WIDTH implies assigned_value(
            (#[trigger] initial_state[i]).0,
        ) == Some(states[0][i]) by {
            assert(values(initial_state)[i] is Some);
        }
        assert forall|i: int| 0 <= i < trace.last().len() implies assigned_value(
            (#[trigger] trace.last()[i]).0,
        ) == Some(states.last()[i]) by {
            assert(values(trace.last())[i] is Some);
            assert(known(values(trace.last()))->0[i] == values(trace.last())[i]->0);
        }
        if trace.len() > 1 {
            let k = (trace.len() - 2) as nat;
            assert(trace.last() == trace[k as int + 1]);
            assert(self.after_permutation_row(k, values(trace[k as int])).len() == WIDTH);
        } else {
            assert(trace.last() == trace[0]);
        }
        states
    }

    proof fn lemma_rows_agree(
        self,
        table: Table,
        start: int,
        trace: Seq<Seq<StateWord>>,
        n: nat,
        k: nat,
    )
        requires
            k < n,
        ensures
            fixed_agree(table, start, self.permutation_rows_plan(trace, n)) ==> fixed_agree(
                table,
                start,
                self.permutation_row_plan(k, values(trace[k as int])),
            ),
            all_agree(table, start, self.permutation_rows_plan(trace, n)) ==> all_agree(
                table,
                start,
                self.permutation_row_plan(k, values(trace[k as int])),
            ),
        decreases n,
    {
        let m = (n - 1) as nat;
        lemma_agree_in_parts(
            table,
            start,
            self.permutation_rows_plan(trace, m),
            self.permutation_row_plan(m, values(trace[m as int])),
        );
        if k < m {
            self.lemma_rows_agree(table, start, trace, m, k);
        }
    }

    /// The parts of the plan of a row.
    proof fn lemma_row_plan_in_parts(
        self,
        table: Table,
        start: int,
        gate: FixedColumn,
        round: nat,
        offset: nat,
        body: Seq<Request>,
        next_round: nat,
        next: Seq<int>,
    )
        ensures
            fixed_agree(
                table,
                start,
                self.row_plan(gate, round, offset, body, next_round, next),
            ) ==> {
                &&& fixed_agree(table, start, self.enable_plan(gate, offset))
                &&& fixed_agree(table, start, self.constants_plan(self.rc_a@, round, offset))
                &&& fixed_agree(table, start, body)
            },
            all_agree(
                table,
                start,
                self.row_plan(gate, round, offset, body, next_round, next),
            ) ==> {
                &&& all_agree(table, start, body)
                &&& all_agree(table, start, self.next_plan(next_round, offset + 1, next))
            },
    {
        let enable = self.enable_plan(gate, offset);
        let constants = self.constants_plan(self.rc_a@, round, offset);
        let following = self.next_plan(next_round, offset + 1, next);
        lemma_agree_in_parts(table, start, enable, constants + (body + following));
        lemma_agree_in_parts(table, start, constants, body + following);
        lemma_agree_in_parts(table, start, body, following);
    }

    proof fn lemma_constants_agree(
        self,
        table: Table,
        start: int,
        columns: Seq<FixedColumn>,
        round: nat,
        offset: nat,
    )
        requires
            fixed_agree(table, start, self.constants_plan(columns, round, offset)),
        ensures
            Seq::new(WIDTH as nat, |i: int| (table.fixed)(columns[i], start + offset))
                == Seq::new(WIDTH as nat, |i: int| self.constants(round)[i]),
    {
        let plan = self.constants_plan(columns, round, offset);
        assert forall|i: int| 0 <= i < WIDTH implies #[trigger] (table.fixed)(
            columns[i],
            start + offset,
        ) == self.constants(round)[i] by {
            assert(plan[i] is Fixed);
        }
        assert(Seq::new(WIDTH as nat, |i: int| (table.fixed)(columns[i], start + offset))
            =~= Seq::new(WIDTH as nat, |i: int| self.constants(round)[i]));
    }

    /// The fixed cells of a row: its selector is set, and the constants of its rounds are there.
    proof fn lemma_row_is_laid_out(
        self,
        table: Table,
        start: int,
        k: nat,
        words: Seq<Option<int>>,
    )
        requires
            self.well_formed(),
            self.has_constants(),
            k < self.permutation().rows(),
            fixed_agree(table, start, self.permutation_row_plan(k, words)),
        ensures
            ({
                let p = self.permutation();
                let r = p.row_round(k) as int;
                &&& self.rc_a_at(table, start + k) == p.round_constants[r]
                &&& p.row_is_full(k) ==> (table.fixed)(self.s_full, start + k) == 1
                &&& !p.row_is_full(k) ==> (table.fixed)(self.s_partial, start + k) == 1
                &&& !p.row_is_full(k) ==> self.rc_b_at(table, start + k) == p.round_constants[r
                    + 1]
            }),
    {
        let p = self.permutation();
        let round = p.row_round(k);
        let full = p.row_is_full(k);
        let gate = if full {
            self.s_full
        } else {
            self.s_partial
        };
        let body = if full {
            self.full_body_plan(round, k, words)
        } else {
            self.partial_body_plan(round, k, words)
        };
        let next_round = if full {
            round + 1
        } else {
            round + 2
        };
        let next = self.after_permutation_row(k, words);
        self.lemma_row_plan_in_parts(table, start, gate, round, k, body, next_round, next);
        assert(self.enable_plan(gate, k)[0] is Fixed);
        self.lemma_constants_agree(table, start, self.rc_a@, round, k);
        assert(self.rc_a_at(table, start + k) =~= Seq::new(
            WIDTH as nat,
            |i: int| (table.fixed)(self.rc_a@[i], start + k),
        ));
        assert(self.rc_a_at(table, start + k) =~= self.constants(round));
        if !full {
            let sbox_cell = self.sbox_cell_plan(round, k, words);
            let constants = self.constants_plan(self.rc_b@, round + 1, k);
            let helpers = self.helper_cells_plan(round, k, words);
            lemma_agree_in_parts(table, start, sbox_cell, constants + helpers);
            lemma_agree_in_parts(table, start, constants, helpers);
            self.lemma_constants_agree(table, start, self.rc_b@, round + 1, k);
            assert(self.rc_b_at(table, start + k) =~= Seq::new(
                WIDTH as nat,
                |i: int| (table.fixed)(self.rc_b@[i], start + k),
            ));
            assert(self.rc_b_at(table, start + k) =~= self.constants(round + 1));
        }
    }

    proof fn lemma_rows_are_forced(
        self,
        m_inv: [[Felt; WIDTH]; WIDTH],
        table: Table,
        start: int,
        trace: Seq<Seq<StateWord>>,
        k: nat,
    )
        requires
            self.well_formed(),
            self.has_constants(),
            undoes(matrix(m_inv), matrix(self.m_reg), WIDTH as nat),
            table.well_formed(),
            fixed_agree(
                table,
                start,
                self.permutation_rows_plan(trace, self.permutation().rows()),
            ),
            forall|row: int|
                start <= row < start + self.permutation().rows() ==> #[trigger] self.gates_hold(
                    m_inv,
                    table,
                    row,
                ),
            k <= self.permutation().rows(),
        ensures
            self.state_at(table, start + k) == self.permutation().after_rows(
                self.state_at(table, start),
                k,
            ),
        decreases k,
    {
        if k > 0 {
            let j = (k - 1) as nat;
            self.lemma_rows_are_forced(m_inv, table, start, trace, j);
            let p = self.permutation();
            let row = start + j;
            self.lemma_rows_agree(table, start, trace, p.rows(), j);
            self.lemma_row_is_laid_out(table, start, j, values(trace[j as int]));
            assert(self.gates_hold(m_inv, table, row));
            self.lemma_gates_hold(m_inv, table, row);
            if p.row_is_full(j) {
                self.law_full_gates(table, row);
                self.lemma_full_row_is_a_round(table, row);
            } else {
                self.law_partial_gates(m_inv, table, row);
                self.lemma_partial_row_is_two_rounds(m_inv, table, row);
            }
            assert(row + 1 == start + k);
        }
    }

    /// The gates force the permutation: in a region that was laid out for a permutation, whatever
    /// is put into the advice cells, the gates hold only if the state on the last row is the image
    /// of the state on the first one.
    pub proof fn law_gates_force_the_permutation(
        self,
        m_inv: [[Felt; WIDTH]; WIDTH],
        table: Table,
        start: int,
        initial_state: Seq<StateWord>,
        trace: Seq<Seq<StateWord>>,
    )
        requires
            self.well_formed(),
            self.has_constants(),
            undoes(matrix(m_inv), matrix(self.m_reg), WIDTH as nat),
            table.well_formed(),
            fixed_agree(table, start, self.permutation_plan(initial_state, trace)),
            forall|row: int|
                start <= row < start + self.permutation().rows() ==> #[trigger] self.gates_hold(
                    m_inv,
                    table,
                    row,
                ),
        ensures
            self.state_at(table, start + self.permutation().rows()) == self.permutation().permute(
                self.state_at(table, start),
            ),
    {
        let rows = self.permutation().rows();
        lemma_agree_in_parts(
            table,
            start,
            load_plan(self, cells(initial_state)),
            self.permutation_rows_plan(trace, rows),
        );
        self.lemma_rows_are_forced(m_inv, table, start, trace, rows);
        law_rows_compute_the_permutation(self.permutation(), self.state_at(table, start));
    }

    /// What was asked for in fixed columns is there.
    proof fn lemma_fixed_are_enforced(
        self,
        table: Table,
        start: int,
        at: spec_fn(Cell) -> int,
        before: Seq<Event>,
        after: Seq<Event>,
        plan: Seq<Request>,
    )
        requires
            follows(before, after, plan, None),
            all_enforced(table, start, at, after, before.len() as int),
        ensures
            fixed_agree(table, start, plan),
    {
        assert forall|k: int| 0 <= k < plan.len() && #[trigger] plan[k] is Fixed implies agrees(
            table,
            start,
            plan[k],
        ) by {
            let event = after[before.len() + k];
            assert(enforced(table, start, at, event));
        }
    }

    /// The words of a loaded state are those of the state that they were copied from.
    proof fn lemma_load_is_enforced(
        self,
        table: Table,
        start: int,
        at: spec_fn(Cell) -> int,
        before: Seq<Event>,
        after: Seq<Event>,
        initial_state: Seq<StateWord>,
        head: Seq<Request>,
        rest: Seq<Request>,
    )
        requires
            initial_state.len() == WIDTH,
            follows(
                before,
                after,
                head + (load_plan(self, cells(initial_state)) + rest),
                None,
            ),
            all_enforced(table, start, at, after, before.len() as int),
        ensures
            self.state_at(table, start) == values_at(at, initial_state),
    {
        let load = load_plan(self, cells(initial_state));
        let plan = head + (load + rest);
        assert forall|i: int| 0 <= i < WIDTH implies #[trigger] self.state_at(table, start)[i]
            == values_at(at, initial_state)[i] by {
            assert(plan[head.len() + i] == load[i]);
            let event = after[before.len() + head.len() + i];
            assert(enforced(table, start, at, event));
            assert(event.request == load[i]);
        }
        assert(self.state_at(table, start) =~= values_at(at, initial_state));
    }

    /// Words that came back for a row have the values of that row.
    proof fn lemma_words_are_enforced(
        self,
        table: Table,
        start: int,
        at: spec_fn(Cell) -> int,
        events: Seq<Event>,
        from: int,
        words: Seq<StateWord>,
        offset: nat,
    )
        requires
            words.len() == WIDTH,
            lies(events, cells(words), self.state@, offset),
            0 <= from <= events.len() - WIDTH,
            all_enforced(table, start, at, events, from),
        ensures
            values_at(at, words) == self.state_at(table, start + offset),
    {
        assert forall|i: int| 0 <= i < WIDTH implies #[trigger] values_at(at, words)[i]
            == self.state_at(table, start + offset)[i] by {
            assert(cells(words)[i] == words[i].0);
            let event = events[events.len() - WIDTH + i];
            assert(enforced(table, start, at, event));
        }
        assert(values_at(at, words) =~= self.state_at(table, start + offset));
    }

    /// The gates and the ties together: whatever is put into the advice cells, the words that a
    /// permutation returns are the image of the words that were handed to it.
    pub proof fn law_the_permutation_is_that_of_its_input(
        self,
        m_inv: [[Felt; WIDTH]; WIDTH],
        table: Table,
        start: int,
        at: spec_fn(Cell) -> int,
        initial_state: Seq<StateWord>,
        trace: Seq<Seq<StateWord>>,
        state: Seq<StateWord>,
        before: Seq<Event>,
        after: Seq<Event>,
    )
        requires
            self.well_formed(),
            self.has_constants(),
            undoes(matrix(m_inv), matrix(self.m_reg), WIDTH as nat),
            table.well_formed(),
            initial_state.len() == WIDTH,
            state.len() == WIDTH,
            self.permuted(initial_state, trace, before, after, None),
            lies(after, cells(state), self.state@, self.permutation().rows()),
            all_enforced(table, start, at, after, before.len() as int),
            forall|row: int|
                start <= row < start + self.permutation().rows() ==> #[trigger] self.gates_hold(
                    m_inv,
                    table,
                    row,
                ),
        ensures
            values_at(at, state) == self.permutation().permute(values_at(at, initial_state)),
    {
        let rows = self.permutation().rows();
        let plan = self.permutation_plan(initial_state, trace);
        let rest = self.permutation_rows_plan(trace, rows);
        let none = Seq::<Request>::empty();
        self.lemma_fixed_are_enforced(table, start, at, before, after, plan);
        assert(none + plan =~= plan);
        self.lemma_load_is_enforced(table, start, at, before, after, initial_state, none, rest);
        self.law_gates_force_the_permutation(m_inv, table, start, initial_state, trace);
        self.lemma_words_are_enforced(
            table,
            start,
            at,
            after,
            before.len() as int,
            state,
            rows,
        );
    }

    /// Whatever is put into the advice cells, the words of an initial state are zeros and the
    /// capacity element.
    pub proof fn law_the_initial_state_is_constant(
        self,
        table: Table,
        start: int,
        at: spec_fn(Cell) -> int,
        capacity: int,
        state: Seq<StateWord>,
        before: Seq<Event>,
        after: Seq<Event>,
    )
        requires
            state.len() == WIDTH,
            follows(before, after, self.initial_plan(capacity), None),
            lies(after, cells(state), self.state@, 0),
            all_enforced(table, start, at, after, before.len() as int),
        ensures
            values_at(at, state) == self.initial_values(capacity),
    {
        assert forall|i: int| 0 <= i < WIDTH implies #[trigger] values_at(at, state)[i]
            == self.initial_values(capacity)[i] by {
            assert(cells(state)[i] == state[i].0);
            let event = after[before.len() + i];
            assert(event.request == self.initial_plan(capacity)[i]);
            assert(enforced(table, start, at, event));
        }
        assert(values_at(at, state) =~= self.initial_values(capacity));
    }

    /// A column is a selector of the chip.
    spec fn is_selector(self, column: FixedColumn) -> bool {
        column == self.s_full || column == self.s_partial || column == self.s_pad_and_add
    }

    /// A row sets its own selector, and no other.
    proof fn lemma_row_sets_one_selector(
        self,
        k: nat,
        words: Seq<Option<int>>,
        column: FixedColumn,
        offset: int,
    )
        requires
            self.selectors_apart(),
            self.is_selector(column),
            assigned_by(self.permutation_row_plan(k, words), column, offset),
        ensures
            offset == k,
            column == if self.permutation().row_is_full(k) {
                self.s_full
            } else {
                self.s_partial
            },
    {
        let round = self.permutation().row_round(k);
        let full = self.permutation().row_is_full(k);
        let gate = if full {
            self.s_full
        } else {
            self.s_partial
        };
        let enable = self.enable_plan(gate, k);
        let constants = self.constants_plan(self.rc_a@, round, k);
        let sbox_cell = self.sbox_cell_plan(round, k, words);
        let second = self.constants_plan(self.rc_b@, round + 1, k);
        let helpers = self.helper_cells_plan(round, k, words);
        let body = if full {
            self.full_body_plan(round, k, words)
        } else {
            sbox_cell + (second + helpers)
        };
        let next_round = if full {
            round + 1
        } else {
            round + 2
        };
        let next = self.next_plan(next_round, k + 1, self.after_permutation_row(k, words));
        lemma_assigned_in_parts(enable, constants + (body + next), column, offset);
        lemma_assigned_in_parts(constants, body + next, column, offset);
        lemma_assigned_in_parts(body, next, column, offset);
        if !full {
            lemma_assigned_in_parts(sbox_cell, second + helpers, column, offset);
            lemma_assigned_in_parts(second, helpers, column, offset);
        }
        assert forall|i: int| 0 <= i < WIDTH implies self.rc_a@[i] != column && self.rc_b@[i]
            != column by {
            assert(self.rc_a@[i] != self.s_full);
            assert(self.rc_b@[i] != self.s_full);
        }
        assert(!assigned_by(constants, column, offset));
        assert(!assigned_by(second, column, offset));
        assert(!assigned_by(next, column, offset));
        assert(!assigned_by(sbox_cell, column, offset));
        assert(!assigned_by(helpers, column, offset));
        assert(full ==> !assigned_by(body, column, offset));
        assert(assigned_by(enable, column, offset));
    }

    /// The rows of a permutation set the selectors of their rounds, and no other.
    proof fn lemma_rows_set_their_selectors(
        self,
        trace: Seq<Seq<StateWord>>,
        n: nat,
        column: FixedColumn,
        offset: int,
    )
        requires
            self.selectors_apart(),
            self.is_selector(column),
            assigned_by(self.permutation_rows_plan(trace, n), column, offset),
        ensures
            0 <= offset < n,
            column == if self.permutation().row_is_full(offset as nat) {
                self.s_full
            } else {
                self.s_partial
            },
        decreases n,
    {
        if n > 0 {
            let m = (n - 1) as nat;
            let row = self.permutation_row_plan(m, values(trace[m as int]));
            lemma_assigned_in_parts(self.permutation_rows_plan(trace, m), row, column, offset);
            if assigned_by(row, column, offset) {
                self.lemma_row_sets_one_selector(m, values(trace[m as int]), column, offset);
            } else {
                self.lemma_rows_set_their_selectors(trace, m, column, offset);
            }
        }
    }

    /// On a table that holds what was requested, the state of every row is that of the trace.
    proof fn lemma_states_agree(
        self,
        table: Table,
        start: int,
        initial_state: Seq<StateWord>,
        trace: Seq<Seq<StateWord>>,
        k: nat,
    )
        requires
            self.is_trace(initial_state, trace),
            self.trace_known(trace),
            initial_state.len() == WIDTH,
            trace.len() == self.permutation().rows() + 1,
            all_agree(table, start, self.permutation_plan(initial_state, trace)),
            k <= self.permutation().rows(),
        ensures
            known(values(trace[k as int])) == Some(self.state_at(table, start + k)),
    {
        let rows = self.permutation().rows();
        let load = load_plan(self, cells(initial_state));
        lemma_agree_in_parts(table, start, load, self.permutation_rows_plan(trace, rows));
        assert(known(values(trace[k as int])) is Some);
        let v = values(trace[k as int]);
        if k == 0 {
            self.lemma_loaded_is_known(trace[0], initial_state);
            assert forall|i: int| 0 <= i < WIDTH implies #[trigger] v[i] == Some(
                self.state_at(table, start)[i],
            ) by {
                assert(v[i] is Some);
                assert(agrees(table, start, load[i]));
            }
        } else {
            let j = (k - 1) as nat;
            let from = values(trace[j as int]);
            let p = self.permutation();
            let round = p.row_round(j);
            let full = p.row_is_full(j);
            let gate = if full {
                self.s_full
            } else {
                self.s_partial
            };
            let body = if full {
                self.full_body_plan(round, j, from)
            } else {
                self.partial_body_plan(round, j, from)
            };
            let next_round = if full {
                round + 1
            } else {
                round + 2
            };
            let next = self.after_permutation_row(j, from);
            self.lemma_rows_agree(table, start, trace, rows, j);
            self.lemma_row_plan_in_parts(table, start, gate, round, j, body, next_round, next);
            assert(self.row_led(trace, j as int));
            self.lemma_settled_is_known(trace[k as int], next);
            let plan = self.next_plan(next_round, j + 1, next);
            assert forall|i: int| 0 <= i < WIDTH implies #[trigger] v[i] == Some(
                self.state_at(table, start + k)[i],
            ) by {
                assert(v[i] is Some);
                assert(agrees(table, start, plan[i]));
                assert(known(v)->0[i] == next[i]);
            }
        }
        assert(known(v)->0 =~= self.state_at(table, start + k));
    }

    /// On a table that holds what was requested, the rows of full rounds meet their demands.
    proof fn lemma_full_row_is_met(
        self,
        table: Table,
        start: int,
        initial_state: Seq<StateWord>,
        trace: Seq<Seq<StateWord>>,
        k: nat,
    )
        requires
            self.well_formed(),
            self.has_constants(),
            table.well_formed(),
            self.is_trace(initial_state, trace),
            self.trace_known(trace),
            initial_state.len() == WIDTH,
            trace.len() == self.permutation().rows() + 1,
            all_agree(table, start, self.permutation_plan(initial_state, trace)),
            k < self.permutation().rows(),
            self.permutation().row_is_full(k),
        ensures
            (table.fixed)(self.s_full, start + k) == 1,
            self.full_row(table, start + k),
    {
        let p = self.permutation();
        let rows = p.rows();
        let round = p.row_round(k);
        let row = start + k;
        let words = values(trace[k as int]);
        let load = load_plan(self, cells(initial_state));
        lemma_agree_in_parts(table, start, load, self.permutation_rows_plan(trace, rows));
        self.lemma_rows_agree(table, start, trace, rows, k);
        lemma_all_agree_on_fixed(table, start, self.permutation_row_plan(k, words));
        self.lemma_row_is_laid_out(table, start, k, words);
        self.lemma_states_agree(table, start, initial_state, trace, k);
        self.lemma_states_agree(table, start, initial_state, trace, k + 1);
        let body = self.full_body_plan(round, k, words);
        let next = self.after_full(round, words);
        self.lemma_row_plan_in_parts(
            table,
            start,
            self.s_full,
            round,
            k,
            body,
            round + 1,
            next,
        );
        assert(self.row_led(trace, k as int));
        self.lemma_settled_is_known(trace[k as int + 1], next);
        assert(self.constants(round) == p.round_constants[round as int]);
        assert(self.state_at(table, row + 1) == next);
        assert forall|i: int| 0 <= i < WIDTH implies {
            let q = fadd(#[trigger] self.state_at(table, row)[i], self.rc_a_at(table, row)[i]);
            &&& (table.advice)(self.state_rc_a@[i], row) == q
            &&& (table.advice)(self.state_rc_a_sqr@[i], row) == fmul(q, q)
        } by {
            assert(agrees(table, start, body[2 * i]));
            assert(agrees(table, start, body[2 * i + 1]));
            assert(entry(self.with_constants(round, words), i) == Some(
                add_constants(self.state_at(table, row), self.constants(round))[i],
            ));
        }
        self.lemma_a_round_is_a_full_row(table, row);
    }

    /// On a table that holds what was requested, the rows of partial rounds meet their demands.
    proof fn lemma_partial_row_is_met(
        self,
        m_inv: [[Felt; WIDTH]; WIDTH],
        table: Table,
        start: int,
        initial_state: Seq<StateWord>,
        trace: Seq<Seq<StateWord>>,
        k: nat,
    )
        requires
            self.well_formed(),
            self.has_constants(),
            undoes(matrix(m_inv), matrix(self.m_reg), WIDTH as nat),
            table.well_formed(),
            self.is_trace(initial_state, trace),
            self.trace_known(trace),
            initial_state.len() == WIDTH,
            trace.len() == self.permutation().rows() + 1,
            all_agree(table, start, self.permutation_plan(initial_state, trace)),
            k < self.permutation().rows(),
            !self.permutation().row_is_full(k),
        ensures
            (table.fixed)(self.s_partial, start + k) == 1,
            self.partial_row(m_inv, table, start + k),
    {
        let p = self.permutation();
        let rows = p.rows();
        let round = p.row_round(k);
        let row = start + k;
        let words = values(trace[k as int]);
        let load = load_plan(self, cells(initial_state));
        lemma_agree_in_parts(table, start, load, self.permutation_rows_plan(trace, rows));
        self.lemma_rows_agree(table, start, trace, rows, k);
        lemma_all_agree_on_fixed(table, start, self.permutation_row_plan(k, words));
        self.lemma_row_is_laid_out(table, start, k, words);
        self.lemma_states_agree(table, start, initial_state, trace, k);
        self.lemma_states_agree(table, start, initial_state, trace, k + 1);
        let body = self.partial_body_plan(round, k, words);
        let next = self.after_partials(round, words);
        self.lemma_row_plan_in_parts(
            table,
            start,
            self.s_partial,
            round,
            k,
            body,
            round + 2,
            next,
        );
        assert(self.row_led(trace, k as int));
        self.lemma_settled_is_known(trace[k as int + 1], next);
        assert(self.constants(round) == p.round_constants[round as int]);
        assert(self.constants(round + 1) == p.round_constants[round as int + 1]);
        let sbox_cell = self.sbox_cell_plan(round, k, words);
        let constants = self.constants_plan(self.rc_b@, round + 1, k);
        let helpers = self.helper_cells_plan(round, k, words);
        lemma_agree_in_parts(table, start, sbox_cell, constants + helpers);
        lemma_agree_in_parts(table, start, constants, helpers);
        let state = self.state_at(table, row);
        let rc_a = self.constants(round);
        assert(words[0] == Some(state[0])) by {
            assert(words[0] is Some);
            assert(known(words)->0[0] == state[0]);
        }
        let q = add_constants(state, rc_a);
        assert(self.after_partial_sbox(round, words) == Some(sbox_first(q)));
        assert(agrees(table, start, sbox_cell[0]));
        assert(agrees(table, start, helpers[0]));
        assert(agrees(table, start, helpers[1]));
        assert(agrees(table, start, helpers[2]));
        assert(agrees(table, start, helpers[3]));
        self.lemma_two_rounds_are_a_partial_row(m_inv, table, row);
    }

    /// The gates let the permutation through: a table that holds what a permutation requested, all
    /// of it known, satisfies every gate on every row on which the selectors are zero unless the
    /// permutation sets them.
    pub proof fn law_permutation_satisfies_the_gates(
        self,
        m_inv: [[Felt; WIDTH]; WIDTH],
        table: Table,
        start: int,
        initial_state: Seq<StateWord>,
        trace: Seq<Seq<StateWord>>,
        before: Seq<Event>,
        after: Seq<Event>,
        row: int,
    )
        requires
            self.well_formed(),
            self.has_constants(),
            self.selectors_apart(),
            undoes(matrix(m_inv), matrix(self.m_reg), WIDTH as nat),
            table.well_formed(),
            initial_state.len() == WIDTH,
            self.permuted(initial_state, trace, before, after, None),
            all_known(after, before.len() as int),
            all_agree(table, start, self.permutation_plan(initial_state, trace)),
            self.selectors_rest(table, start, self.permutation_plan(initial_state, trace), row),
        ensures
            self.gates_hold(m_inv, table, row),
    {
        let p = self.permutation();
        let rows = p.rows();
        let plan = self.permutation_plan(initial_state, trace);
        let load = load_plan(self, cells(initial_state));
        let offset = row - start;
        self.law_the_trace_is_known(initial_state, trace, before, after, None);
        assert forall|column: FixedColumn| #[trigger]
            assigned_by(plan, column, offset) && self.is_selector(column) implies {
            &&& 0 <= offset < rows
            &&& column == if p.row_is_full(offset as nat) {
                self.s_full
            } else {
                self.s_partial
            }
        } by {
            let rest = self.permutation_rows_plan(trace, rows);
            lemma_assigned_in_parts(load, rest, column, offset);
            assert(!assigned_by(load, column, offset));
            self.lemma_rows_set_their_selectors(trace, rows, column, offset);
        }
        self.lemma_gates_hold(m_inv, table, row);
        self.law_full_gates(table, row);
        self.law_partial_gates(m_inv, table, row);
        self.law_pad_gate(table, row);
        assert(!assigned_by(plan, self.s_pad_and_add, offset));
        assert((table.fixed)(self.s_pad_and_add, row) == 0);
        if 0 <= offset < rows {
            let k = offset as nat;
            if p.row_is_full(k) {
                self.lemma_full_row_is_met(table, start, initial_state, trace, k);
                assert(!assigned_by(plan, self.s_partial, offset));
                assert((table.fixed)(self.s_partial, row) == 0);
            } else {
                self.lemma_partial_row_is_met(m_inv, table, start, initial_state, trace, k);
                assert(!assigned_by(plan, self.s_full, offset));
                assert((table.fixed)(self.s_full, row) == 0);
            }
        } else {
            assert(!assigned_by(plan, self.s_full, offset));
            assert(!assigned_by(plan, self.s_partial, offset));
            assert((table.fixed)(self.s_full, row) == 0);
            assert((table.fixed)(self.s_partial, row) == 0);
        }
    }

    /// The initial state of a sponge sets no selector, so that its rows satisfy every gate.
    pub proof fn law_initial_state_satisfies_the_gates(
        self,
        m_inv: [[Felt; WIDTH]; WIDTH],
        table: Table,
        start: int,
        capacity: int,
        row: int,
    )
        requires
            self.well_formed(),
            table.well_formed(),
            self.selectors_rest(table, start, self.initial_plan(capacity), row),
        ensures
            self.gates_hold(m_inv, table, row),
    {
        let plan = self.initial_plan(capacity);
        assert(!assigned_by(plan, self.s_full, row - start));
        assert(!assigned_by(plan, self.s_partial, row - start));
        assert(!assigned_by(plan, self.s_pad_and_add, row - start));
        self.law_rows_rest(m_inv, table, row);
    }

    /// Absorbing in a region that asks for every advice value adds the input to the words of the
    /// state, and leaves the capacity element as it was.
    pub proof fn law_absorbing_adds_the_input(
        self,
        initial_state: Seq<StateWord>,
        input: Absorbing<RATE>,
        trace: InputTrace,
        state: Seq<StateWord>,
        before: Seq<Event>,
        after: Seq<Event>,
    )
        requires
            self.well_formed(),
            initial_state.len() == WIDTH,
            self.absorbed(initial_state, input, trace, before, after, None),
            all_settled_on(
                state,
                self.output_values(values(trace.loaded->0), values(trace.inputs)),
            ),
            lies(after, cells(state), self.state@, 2),
            all_known(after, before.len() as int),
            in_field(initial_state[RATE as int].0.value()->0),
        ensures
            forall|i: int|
                0 <= i < RATE ==> (#[trigger] state[i]).0.value() == Some(
                    fadd(initial_state[i].0.value()->0, input.0@[i]->0.value()->0),
                ),
            state[RATE as int].0.value() == initial_state[RATE as int].0.value(),
            known(values(initial_state)) is Some,
            known(values(state)) == Some(
                absorb(known(values(initial_state))->0, block_values(input)),
            ),
    {
        let loaded = trace.loaded->0;
        let sums = self.output_values(values(loaded), values(trace.inputs));
        self.law_the_input_is_known(initial_state, input, trace, before, after, None);
        self.lemma_words_are_known(
            after,
            before.len() as int,
            after.len() - WIDTH,
            state,
            2,
        );
        self.lemma_loaded_is_known(loaded, initial_state);
        self.lemma_settled_is_known(state, sums);
        assert forall|i: int| 0 <= i < WIDTH implies (#[trigger] state[i]).0.value() == Some(
            sums[i],
        ) && values(loaded)[i] == initial_state[i].0.value() && values(loaded)[i] is Some by {
            assert(values(state)[i] is Some);
            assert(known(values(state))->0[i] == sums[i]);
            assert(values(initial_state)[i] == initial_state[i].0.value());
        }
        assert forall|i: int| 0 <= i < RATE implies (#[trigger] state[i]).0.value() == Some(
            fadd(initial_state[i].0.value()->0, input.0@[i]->0.value()->0),
        ) by {
            assert(values(trace.inputs)[i] is Some);
            assert(trace.inputs[i].0.settled(input.0@[i]->0.value()));
        }
        let r = RATE as int;
        assert(state[r].0.value() == Some(sums[r]));
        lemma_fadd_zero(initial_state[r].0.value()->0);
        let total = absorb(known(values(initial_state))->0, block_values(input));
        assert forall|i: int| 0 <= i < WIDTH implies known(values(state))->0[i] == #[trigger] total[i] by {
            assert(state[i].0.value() == Some(sums[i]));
        }
        assert(known(values(state))->0 =~= total);
    }

    /// The input cell of word `i` is asked for with the value of the cell of the message, or with the
    /// padding, as it is; and it is tied to that cell, or to the fixed cell that the padding was
    /// asked for in. Whatever values came back on the two sides of the tie are that value.
    pub proof fn law_input_is_asked_for_as_it_is(
        self,
        initial_state: Seq<StateWord>,
        input: Absorbing<RATE>,
        trace: InputTrace,
        before: Seq<Event>,
        after: Seq<Event>,
        refusal: Option<Error>,
        i: int,
    ) -> (e: int)
        requires
            self.absorbed(initial_state, input, trace, before, after, refusal),
            0 <= i < trace.inputs.len(),
        ensures
            2 <= e < after.len(),
            after[e] == (Event {
                request: Request::Equal {
                    left: assigned_cell(trace.inputs[i].0),
                    right: assigned_cell(trace.sources[i]),
                },
                reply: Reply::Tied,
            }),
            ({
                let value = match input.0@[i]->0 {
                    PaddedWord::Message(message) => assigned_value(message),
                    PaddedWord::Padding(padding) => Some(padding@),
                };
                &&& after[e - 1] == (Event {
                    request: Request::Advice {
                        label: "load input_"@ + numeral(i as nat),
                        column: self.state@[i],
                        offset: 1,
                        value,
                    },
                    reply: Reply::Assigned(trace.inputs[i].0),
                })
                &&& assigned_value(trace.inputs[i].0) is None || assigned_value(trace.inputs[i].0)
                    == value
                &&& assigned_value(trace.sources[i]) is None || assigned_value(trace.sources[i])
                    == value
            }),
            match input.0@[i]->0 {
                PaddedWord::Message(message) => trace.sources[i] == message,
                PaddedWord::Padding(padding) => after[e - 2] == (Event {
                    request: Request::Fixed {
                        label: "load pad_"@ + numeral(i as nat),
                        column: self.rc_b@[i],
                        offset: 1,
                        value: padding@,
                    },
                    reply: Reply::Assigned(trace.sources[i]),
                }),
            },
    {
        let e = before.len() as int + 1 + WIDTH + input.requests(i as nat + 1) - 1;
        let word = trace.inputs[i];
        assert(self.word_ties(after, e, input.0@[i]->0, i, word.0, trace.sources[i]));
        assert(word.0.settled(input.0@[i]->0.value()));
        e
    }

    /// The ties among the requests for words of input join the words of input with their sources,
    /// and nothing else.
    proof fn lemma_ties_among_words(
        self,
        input: Absorbing<RATE>,
        sources: Seq<AssignedWord>,
        inputs: Seq<StateWord>,
        n: nat,
        k: int,
    )
        requires
            0 <= k < self.words_plan(input, sources, inputs, n).len(),
            self.words_plan(input, sources, inputs, n)[k] is Equal,
        ensures
            exists|i: int|
                0 <= i < n && self.words_plan(input, sources, inputs, n)[k] == (Request::Equal {
                    left: assigned_cell((#[trigger] inputs[i]).0),
                    right: assigned_cell(sources[i]),
                }),
        decreases n,
    {
        let m = n - 1;
        let head = self.words_plan(input, sources, inputs, m as nat);
        let plan = self.words_plan(input, sources, inputs, n);
        if k < head.len() {
            assert(plan[k] == head[k]);
            self.lemma_ties_among_words(input, sources, inputs, m as nat, k);
            let i = choose|i: int|
                0 <= i < m && head[k] == (Request::Equal {
                    left: assigned_cell((#[trigger] inputs[i]).0),
                    right: assigned_cell(sources[i]),
                });
            let word = inputs[i];
        } else {
            let word = self.word_plan(input.0@[m]->0, m as nat);
            if k - head.len() < word.len() {
                assert(plan[k] == word[k - head.len()]);
                assert(false);
            }
            let last = inputs[m];
        }
    }

    /// Absorbing asks for a tie only between a word of input and where it comes from, so that what
    /// it ties together has the same value wherever both are known.
    pub proof fn law_ties_join_equal_values(
        self,
        initial_state: Seq<StateWord>,
        input: Absorbing<RATE>,
        trace: InputTrace,
        before: Seq<Event>,
        after: Seq<Event>,
        k: int,
    ) -> (words: (AssignedWord, AssignedWord))
        requires
            self.absorbed(initial_state, input, trace, before, after, None),
            before.len() <= k < after.len(),
            after[k].request is Equal,
        ensures
            after[k].request == (Request::Equal {
                left: assigned_cell(words.0),
                right: assigned_cell(words.1),
            }),
            assigned_value(words.0) is Some && assigned_value(words.1) is Some ==> assigned_value(
                words.0,
            ) == assigned_value(words.1),
    {
        let plan = self.input_plan(initial_state, input, trace);
        let enable = self.enable_input_plan();
        let load = load_plan(self, cells(initial_state));
        let ties = self.words_plan(input, trace.sources, trace.inputs, RATE as nat);
        let output = self.output_plan(
            self.output_values(values(trace.loaded->0), values(trace.inputs)),
        );
        law_a_plan_is_followed_in_order(before, after, plan, None);
        let p = k - before.len();
        let q = p - 1 - WIDTH;
        assert(plan =~= enable + (load + (ties + output)));
        assert(plan[p] is Equal);
        if p < 1 {
            assert(plan[p] == enable[p]);
        } else if p < 1 + WIDTH {
            assert(plan[p] == load[p - 1]);
        } else if q >= ties.len() {
            assert(plan[p] == output[q - ties.len()]);
        }
        assert(plan[p] == ties[q]);
        self.lemma_ties_among_words(input, trace.sources, trace.inputs, RATE as nat, q);
        let i = choose|i: int|
            0 <= i < RATE && ties[q] == (Request::Equal {
                left: assigned_cell((#[trigger] trace.inputs[i]).0),
                right: assigned_cell(trace.sources[i]),
            });
        self.law_input_is_asked_for_as_it_is(
            initial_state,
            input,
            trace,
            before,
            after,
            None,
            i,
        );
        (trace.inputs[i].0, trace.sources[i])
    }

    /// Absorbing in a region that asks for every advice value: word `i` of the state that comes back
    /// is the sum of word `i` of the state handed in and the value of the cell of the message, or the
    /// padding, modulo the order of the field. The last word stays as it was.
    pub proof fn law_absorbing_adds_message_and_padding(
        self,
        initial_state: Seq<StateWord>,
        input: Absorbing<RATE>,
        trace: InputTrace,
        state: Seq<StateWord>,
        before: Seq<Event>,
        after: Seq<Event>,
    )
        requires
            self.well_formed(),
            initial_state.len() == WIDTH,
            self.absorbed(initial_state, input, trace, before, after, None),
            all_settled_on(
                state,
                self.output_values(values(trace.loaded->0), values(trace.inputs)),
            ),
            lies(after, cells(state), self.state@, 2),
            all_known(after, before.len() as int),
            in_field(assigned_value(initial_state[RATE as int].0)->0),
        ensures
            state.len() == RATE + 1,
            forall|i: int|
                0 <= i < RATE ==> {
                    let sum = assigned_value((#[trigger] state[i]).0);
                    let word = assigned_value(initial_state[i].0);
                    match input.0@[i]->0 {
                        PaddedWord::Message(message) => {
                            &&& word is Some
                            &&& assigned_value(message) is Some
                            &&& sum == Some((word->0 + assigned_value(message)->0) % 0x40000000000000000000000000000000224698fc094cf91b992d30ed00000001int)
                        },
                        PaddedWord::Padding(padding) => {
                            &&& word is Some
                            &&& sum == Some((word->0 + padding@) % 0x40000000000000000000000000000000224698fc094cf91b992d30ed00000001int)
                        },
                    }
                },
            assigned_value(state[RATE as int].0) is Some,
            assigned_value(state[RATE as int].0) == assigned_value(initial_state[RATE as int].0),
    {
        law_the_field_is_arithmetic_modulo_its_order(0, 0, 0);
        self.law_absorbing_adds_the_input(initial_state, input, trace, state, before, after);
        self.law_the_input_is_known(initial_state, input, trace, before, after, None);
        assert forall|i: int| 0 <= i < WIDTH implies (
        #[trigger] initial_state[i]).0.value() is Some by {
            assert(values(initial_state)[i] is Some);
        }
        assert forall|i: int| 0 <= i < RATE implies input.0@[i]->0.value() is Some && (
        #[trigger] state[i]).0.value() == Some(
            fadd(initial_state[i].0.value()->0, input.0@[i]->0.value()->0),
        ) && initial_state[i].0.value() is Some by {
            assert(values(trace.inputs)[i] is Some);
            assert(trace.inputs[i].0.settled(input.0@[i]->0.value()));
        }
        let last = initial_state[RATE as int];
    }

    /// The values of a block are those of the cells of its message and its padding.
    pub proof fn law_a_block_holds_message_and_padding(
        input: Absorbing<RATE>,
        at: spec_fn(Cell) -> int,
        i: int,
    )
        requires
            0 <= i < RATE,
        ensures
            block_values(input).len() == RATE,
            block_at(at, input).len() == RATE,
            match input.0@[i]->0 {
                PaddedWord::Message(message) => {
                    &&& block_values(input)[i] == assigned_value(message)->0
                    &&& block_at(at, input)[i] == at(assigned_cell(message))
                },
                PaddedWord::Padding(padding) => {
                    &&& block_values(input)[i] == padding@
                    &&& block_at(at, input)[i] == padding@
                },
            },
    {
    }

    /// The parts of the plan of absorbing.
    proof fn lemma_input_plan_in_parts(
        self,
        table: Table,
        start: int,
        initial_state: Seq<StateWord>,
        input: Absorbing<RATE>,
        trace: InputTrace,
    )
        requires
            trace.loaded is Some,
            trace.inputs.len() == RATE,
        ensures
            fixed_agree(table, start, self.input_plan(initial_state, input, trace)) ==> (
            table.fixed)(self.s_pad_and_add, start + 1) == 1,
            all_agree(table, start, self.input_plan(initial_state, input, trace)) ==> {
                &&& all_agree(table, start, self.enable_input_plan())
                &&& all_agree(table, start, load_plan(self, cells(initial_state)))
                &&& all_agree(
                    table,
                    start,
                    self.words_plan(input, trace.sources, trace.inputs, RATE as nat),
                )
                &&& all_agree(
                    table,
                    start,
                    self.output_plan(
                        self.output_values(values(trace.loaded->0), values(trace.inputs)),
                    ),
                )
            },
    {
        let enable = self.enable_input_plan();
        let load = load_plan(self, cells(initial_state));
        let words = self.words_plan(input, trace.sources, trace.inputs, RATE as nat);
        let output = self.output_plan(
            self.output_values(values(trace.loaded->0), values(trace.inputs)),
        );
        lemma_agree_in_parts(table, start, enable, load + (words + output));
        lemma_agree_in_parts(table, start, load, words + output);
        lemma_agree_in_parts(table, start, words, output);
        assert(enable[0] is Fixed);
    }

    /// On a table that holds what was requested, the row of input holds the input.
    proof fn lemma_inputs_agree(
        self,
        table: Table,
        start: int,
        input: Absorbing<RATE>,
        sources: Seq<AssignedWord>,
        inputs: Seq<StateWord>,
        n: nat,
        i: int,
    )
        requires
            all_agree(table, start, self.words_plan(input, sources, inputs, n)),
            0 <= i < n,
            input.0@[i]->0.value() is Some,
        ensures
            (table.advice)(self.state@[i], start + 1) == input.0@[i]->0.value()->0,
        decreases n,
    {
        let m = n - 1;
        let head = self.words_plan(input, sources, inputs, m as nat);
        let word = self.word_plan(input.0@[m]->0, m as nat);
        let tied = word.push(
            Request::Equal {
                left: assigned_cell(inputs[m].0),
                right: assigned_cell(sources[m]),
            },
        );
        lemma_agree_in_parts(table, start, head, tied);
        if i < m {
            self.lemma_inputs_agree(table, start, input, sources, inputs, m as nat, i);
        } else {
            let last = word.len() - 1;
            assert(agrees(table, start, tied[last]));
        }
    }

    /// Absorbing sets its own selector on the row of input, and no other.
    proof fn lemma_words_set_no_selector(
        self,
        input: Absorbing<RATE>,
        sources: Seq<AssignedWord>,
        inputs: Seq<StateWord>,
        n: nat,
        column: FixedColumn,
        offset: int,
    )
        requires
            WIDTH == RATE + 1,
            self.selectors_apart(),
            self.is_selector(column),
            n <= RATE,
        ensures
            !assigned_by(self.words_plan(input, sources, inputs, n), column, offset),
        decreases n,
    {
        if n > 0 {
            let m = n - 1;
            let head = self.words_plan(input, sources, inputs, m as nat);
            let word = self.word_plan(input.0@[m]->0, m as nat);
            let tied = word.push(
                Request::Equal {
                    left: assigned_cell(inputs[m].0),
                    right: assigned_cell(sources[m]),
                },
            );
            self.lemma_words_set_no_selector(input, sources, inputs, m as nat, column, offset);
            lemma_assigned_in_parts(head, tied, column, offset);
            assert(self.rc_b@[m] != column);
            assert(!assigned_by(tied, column, offset));
        }
    }

    /// The gates let absorbing through: a table that holds what was requested, all of it known,
    /// satisfies every gate on every row on which the selectors are zero unless absorbing sets
    /// them.
    pub proof fn law_absorbing_satisfies_the_gates(
        self,
        m_inv: [[Felt; WIDTH]; WIDTH],
        table: Table,
        start: int,
        initial_state: Seq<StateWord>,
        input: Absorbing<RATE>,
        trace: InputTrace,
        before: Seq<Event>,
        after: Seq<Event>,
        row: int,
    )
        requires
            self.well_formed(),
            self.selectors_apart(),
            table.well_formed(),
            initial_state.len() == WIDTH,
            self.absorbed(initial_state, input, trace, before, after, None),
            all_known(after, before.len() as int),
            all_agree(table, start, self.input_plan(initial_state, input, trace)),
            self.selectors_rest(
                table,
                start,
                self.input_plan(initial_state, input, trace),
                row,
            ),
        ensures
            self.gates_hold(m_inv, table, row),
    {
        let plan = self.input_plan(initial_state, input, trace);
        let offset = row - start;
        self.law_the_input_is_known(initial_state, input, trace, before, after, None);
        let enable = self.enable_input_plan();
        let load = load_plan(self, cells(initial_state));
        let words = self.words_plan(input, trace.sources, trace.inputs, RATE as nat);
        let loaded = trace.loaded->0;
        let sums = self.output_values(values(loaded), values(trace.inputs));
        let output = self.output_plan(sums);
        assert forall|column: FixedColumn| #[trigger]
            assigned_by(plan, column, offset) && self.is_selector(column) implies offset == 1
            && column == self.s_pad_and_add by {
            lemma_assigned_in_parts(enable, load + (words + output), column, offset);
            lemma_assigned_in_parts(load, words + output, column, offset);
            lemma_assigned_in_parts(words, output, column, offset);
            self.lemma_words_set_no_selector(
                input,
                trace.sources,
                trace.inputs,
                RATE as nat,
                column,
                offset,
            );
            assert(!assigned_by(load, column, offset));
            assert(!assigned_by(output, column, offset));
            assert(assigned_by(enable, column, offset));
        }
        self.lemma_gates_hold(m_inv, table, row);
        self.law_full_gates(table, row);
        self.law_partial_gates(m_inv, table, row);
        self.law_pad_gate(table, row);
        assert(!assigned_by(plan, self.s_full, offset));
        assert(!assigned_by(plan, self.s_partial, offset));
        if offset == 1 {
            self.lemma_input_plan_in_parts(table, start, initial_state, input, trace);
            lemma_all_agree_on_fixed(table, start, plan);
            self.lemma_loaded_is_known(loaded, initial_state);
            let above = self.state_at(table, start);
            let below = self.state_at(table, start + 2);
            assert forall|i: int| 0 <= i < WIDTH implies #[trigger] below[i] == sums[i]
                && values(loaded)[i] == Some(above[i]) by {
                assert(agrees(table, start, output[i]));
                assert(agrees(table, start, load[i]));
                assert(values(loaded)[i] is Some);
                assert(values(initial_state)[i] == initial_state[i].0.value());
            }
            assert forall|i: int| 0 <= i < RATE implies #[trigger] below[i] == fadd(
                above[i],
                self.state_at(table, row)[i],
            ) by {
                assert(values(trace.inputs)[i] is Some);
                assert(trace.inputs[i].0.settled(input.0@[i]->0.value()));
                self.lemma_inputs_agree(
                    table,
                    start,
                    input,
                    trace.sources,
                    trace.inputs,
                    RATE as nat,
                    i,
                );
            }
            let r = RATE as int;
            assert(below[r] == sums[r]);
            lemma_fadd_zero(above[r]);
            assert(self.input_row(table, row));
        } else {
            assert(!assigned_by(plan, self.s_pad_and_add, offset));
        }
    }

    /// The gates force absorbing: in a region that was laid out for absorbing, whatever is put into
    /// the advice cells, the gates hold only if the state on the last row is the sum of that on the
    /// first row and the row of input, with the capacity element as it was.
    pub proof fn law_gates_force_absorbing(
        self,
        m_inv: [[Felt; WIDTH]; WIDTH],
        table: Table,
        start: int,
        initial_state: Seq<StateWord>,
        input: Absorbing<RATE>,
        trace: InputTrace,
    )
        requires
            self.well_formed(),
            table.well_formed(),
            trace.loaded is Some,
            trace.inputs.len() == RATE,
            fixed_agree(table, start, self.input_plan(initial_state, input, trace)),
            self.gates_hold(m_inv, table, start + 1),
        ensures
            forall|i: int|
                0 <= i < RATE ==> #[trigger] self.state_at(table, start + 2)[i] == fadd(
                    self.state_at(table, start)[i],
                    self.state_at(table, start + 1)[i],
                ),
            self.state_at(table, start + 2)[RATE as int] == self.state_at(table, start)[RATE as int],
    {
        self.lemma_input_plan_in_parts(table, start, initial_state, input, trace);
        self.lemma_gates_hold(m_inv, table, start + 1);
        self.law_pad_gate(table, start + 1);
        let row = start + 1;
        assert(row + 1 == start + 2 && row - 1 == start);
    }

    /// The gates and the ties together: whatever is put into the advice cells, the words that
    /// absorbing returns are the sum of the words that were handed to it and the words of input, with
    /// the capacity element as it was.
    pub proof fn law_absorbing_is_that_of_its_input(
        self,
        m_inv: [[Felt; WIDTH]; WIDTH],
        table: Table,
        start: int,
        at: spec_fn(Cell) -> int,
        initial_state: Seq<StateWord>,
        input: Absorbing<RATE>,
        trace: InputTrace,
        state: Seq<StateWord>,
        before: Seq<Event>,
        after: Seq<Event>,
    )
        requires
            self.well_formed(),
            table.well_formed(),
            initial_state.len() == WIDTH,
            state.len() == WIDTH,
            self.absorbed(initial_state, input, trace, before, after, None),
            lies(after, cells(state), self.state@, 2),
            all_enforced(table, start, at, after, before.len() as int),
            self.gates_hold(m_inv, table, start + 1),
        ensures
            values_at(at, state) == absorb(values_at(at, initial_state), block_at(at, input)),
    {
        let enable = self.enable_input_plan();
        let plan = self.input_plan(initial_state, input, trace);
        let rest = self.words_plan(input, trace.sources, trace.inputs, RATE as nat)
            + self.output_plan(
            self.output_values(values(trace.loaded->0), values(trace.inputs)),
        );
        let from = before.len() as int + 1 + WIDTH;
        self.lemma_fixed_are_enforced(table, start, at, before, after, plan);
        self.lemma_load_is_enforced(table, start, at, before, after, initial_state, enable, rest);
        self.law_gates_force_absorbing(m_inv, table, start, initial_state, input, trace);
        self.lemma_words_are_enforced(table, start, at, after, before.len() as int, state, 2);
        let total = absorb(values_at(at, initial_state), block_at(at, input));
        assert forall|i: int| 0 <= i < WIDTH implies #[trigger] total[i] == self.state_at(
            table,
            start + 2,
        )[i] by {
            assert(self.state_at(table, start)[i] == values_at(at, initial_state)[i]);
            if i < RATE {
                let e = from + input.requests(i as nat + 1) - 1;
                let word = input.0@[i]->0;
                let held = trace.inputs[i].0;
                assert(self.word_ties(after, e, word, i, held, trace.sources[i]));
                assert(enforced(table, start, at, after[e]));
                assert(enforced(table, start, at, after[e - 1]));
                assert(enforced(table, start, at, after[e - 2]));
                assert(self.state_at(table, start + 1)[i] == at(assigned_cell(held)));
            }
        }
        assert(total =~= self.state_at(table, start + 2));
    }
}

} // verus!
