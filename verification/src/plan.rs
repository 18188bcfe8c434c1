//! What the instructions of the chip ask of a region, request by request.
use crate::column::{AdviceColumn, AnyColumn, FixedColumn};
use crate::config::Pow5Config;
use crate::field::{fadd, fmul};
use crate::label::{indexed, of_round, of_round_indexed};
use crate::linear::{matrix, residues};
use crate::permutation::{add_constants, full_round, partial_round, sbox_first};
use crate::region::{assigned_cell, within_reach};
use crate::region::{AssignedWord, ChipRegion, Event, Reply, Request};
use halo2_proofs::plonk::Error;
use vstd::prelude::*;

verus! {

/// The values of a state, if all of them are known.
pub open spec fn known(values: Seq<Option<int>>) -> Option<Seq<int>> {
    if forall|i: int| 0 <= i < values.len() ==> #[trigger] values[i] is Some {
        Some(Seq::new(values.len(), |i: int| values[i]->0))
    } else {
        None
    }
}

/// Entry `i` of a vector that may not be known.
pub open spec fn entry(vector: Option<Seq<int>>, i: int) -> Option<int> {
    match vector {
        Some(v) => Some(v[i]),
        None => None,
    }
}

/// The sum of a value that may not be known and a constant.
pub open spec fn plus(value: Option<int>, constant: int) -> Option<int> {
    match value {
        Some(x) => Some(fadd(x, constant)),
        None => None,
    }
}

/// The square of a value that may not be known.
pub open spec fn squared(value: Option<int>) -> Option<int> {
    match value {
        Some(x) => Some(fmul(x, x)),
        None => None,
    }
}

/// `after` continues `before` with the first `n` requests of `plan`, in order, none of them refused.
pub open spec fn granted(
    before: Seq<Event>,
    after: Seq<Event>,
    plan: Seq<Request>,
    n: int,
) -> bool {
    &&& 0 <= n <= plan.len()
    &&& after.len() == before.len() + n
    &&& forall|k: int| 0 <= k < before.len() ==> #[trigger] after[k] == before[k]
    &&& forall|k: int|
        before.len() <= k < after.len() ==> (#[trigger] after[k]).request == plan[k - before.len()]
            && !(after[k].reply is Refused)
}

/// `after` continues `before` with the requests of `plan`, in order. If there is a refusal, it is
/// the reply to the last request that was made, and no request before that one was refused.
/// Otherwise all requests of `plan` were made, and none was refused.
pub open spec fn follows(
    before: Seq<Event>,
    after: Seq<Event>,
    plan: Seq<Request>,
    refusal: Option<Error>,
) -> bool {
    match refusal {
        None => granted(before, after, plan, plan.len() as int),
        Some(error) => {
            let n = after.len() - 1 - before.len();
            &&& 0 <= n < plan.len()
            &&& granted(before, after.drop_last(), plan, n)
            &&& after.last() == (Event { request: plan[n], reply: Reply::Refused(error) })
        },
    }
}

/// What was there before stays, and after it the requests of the plan come one by one. Without a
/// refusal they come to the end of the plan, and none was refused. With one, it is the reply to the
/// last request that was made, and the only refusal.
pub proof fn law_a_plan_is_followed_in_order(
    before: Seq<Event>,
    after: Seq<Event>,
    plan: Seq<Request>,
    refusal: Option<Error>,
)
    requires
        follows(before, after, plan, refusal),
    ensures
        before.len() <= after.len() <= before.len() + plan.len(),
        forall|k: int| 0 <= k < before.len() ==> #[trigger] after[k] == before[k],
        forall|k: int|
            before.len() <= k < after.len() ==> (#[trigger] after[k]).request == plan[k
                - before.len()],
        match refusal {
            None => {
                &&& after.len() == before.len() + plan.len()
                &&& forall|k: int|
                    before.len() <= k < after.len() ==> !((#[trigger] after[k]).reply is Refused)
            },
            Some(error) => {
                &&& before.len() < after.len()
                &&& after.last().reply == Reply::Refused(error)
                &&& forall|k: int|
                    before.len() <= k < after.len() - 1 ==> !((#[trigger] after[k]).reply
                        is Refused)
            },
        },
{
    if refusal is Some {
        let made = after.drop_last();
        assert forall|k: int| 0 <= k < before.len() implies #[trigger] after[k] == before[k] by {
            assert(made[k] == after[k]);
        }
        assert forall|k: int| before.len() <= k < after.len() - 1 implies (
        #[trigger] after[k]).request == plan[k - before.len()] && !(after[k].reply is Refused) by {
            assert(made[k] == after[k]);
        }
    }
}

/// Two plans, one carried out after the other.
pub(crate) proof fn lemma_in_turn(
    before: Seq<Event>,
    between: Seq<Event>,
    after: Seq<Event>,
    first: Seq<Request>,
    second: Seq<Request>,
    refusal: Option<Error>,
)
    requires
        follows(before, between, first, None),
        follows(between, after, second, refusal),
    ensures
        follows(before, after, first + second, refusal),
{
    let both = first + second;
    let made = if refusal is Some {
        after.drop_last()
    } else {
        after
    };
    assert forall|k: int| 0 <= k < before.len() implies #[trigger] made[k] == before[k] by {
        assert(between[k] == before[k]);
    }
    assert forall|k: int| before.len() <= k < made.len() implies (#[trigger] made[k]).request
        == both[k - before.len()] && !(made[k].reply is Refused) by {
        if k < between.len() {
            assert(made[k] == between[k]);
        }
    }
}

/// The first plan of two comes to an end early.
pub(crate) proof fn lemma_cut_short(
    before: Seq<Event>,
    after: Seq<Event>,
    first: Seq<Request>,
    second: Seq<Request>,
    refusal: Option<Error>,
)
    requires
        refusal is Some,
        follows(before, after, first, refusal),
    ensures
        follows(before, after, first + second, refusal),
{
    let made = after.drop_last();
    assert forall|k: int| before.len() <= k < made.len() implies (#[trigger] made[k]).request == (
    first + second)[k - before.len()] && !(made[k].reply is Refused) by {
        assert(made[k].request == first[k - before.len()]);
    }
}

/// Nothing was asked for yet.
pub(crate) proof fn lemma_nothing_yet(before: Seq<Event>, plan: Seq<Request>)
    ensures
        follows(before, before, plan.take(0), None),
{
}

/// One more request of a plan was made.
pub(crate) proof fn lemma_next(
    before: Seq<Event>,
    between: Seq<Event>,
    after: Seq<Event>,
    plan: Seq<Request>,
    i: int,
    refusal: Option<Error>,
)
    requires
        0 <= i < plan.len(),
        follows(before, between, plan.take(i), None),
        follows(between, after, seq![plan[i]], refusal),
    ensures
        refusal is None ==> follows(before, after, plan.take(i + 1), None),
        refusal is Some ==> follows(before, after, plan, refusal),
        forall|k: int| 0 <= k < between.len() ==> #[trigger] after[k] == between[k],
{
    lemma_in_turn(before, between, after, plan.take(i), seq![plan[i]], refusal);
    assert forall|k: int| 0 <= k < between.len() implies #[trigger] after[k] == between[k] by {
        if refusal is Some {
            assert(after.drop_last()[k] == after[k]);
        }
    }
    assert(plan.take(i) + seq![plan[i]] =~= plan.take(i + 1));
    if refusal is Some {
        lemma_cut_short(before, after, plan.take(i + 1), plan.skip(i + 1), refusal);
        assert(plan.take(i + 1) + plan.skip(i + 1) =~= plan);
    }
}

/// All requests of a plan were made.
pub(crate) proof fn lemma_all_done(before: Seq<Event>, after: Seq<Event>, plan: Seq<Request>)
    requires
        follows(before, after, plan.take(plan.len() as int), None),
    ensures
        follows(before, after, plan, None),
{
    assert(plan.take(plan.len() as int) =~= plan);
}

/// A request asked for a cell of `column` at `offset`, and was answered with `word`.
pub open spec fn got(event: Event, column: AnyColumn, offset: nat, word: AssignedWord) -> bool {
    &&& event.reply == Reply::Assigned(word)
    &&& match event.request {
        Request::Advice { label: _, column: c, offset: o, value: _ } => AnyColumn::Advice(c)
            == column && o == offset,
        Request::Fixed { label: _, column: c, offset: o, value: _ } => AnyColumn::Fixed(c)
            == column && o == offset,
        Request::Constant { label: _, column: c, offset: o, value: _ } => AnyColumn::Advice(c)
            == column && o == offset,
        Request::Copy { label: _, source: _, column: c, offset: o } => AnyColumn::Advice(c)
            == column && o == offset,
        Request::Equal { left: _, right: _ } => false,
    }
}

/// The events from `from` on got `words`, in order: the cells of `columns` at `offset`.
pub open spec fn got_words(
    events: Seq<Event>,
    from: int,
    words: Seq<AssignedWord>,
    columns: Seq<AdviceColumn>,
    offset: nat,
) -> bool {
    &&& 0 <= from <= events.len() - words.len()
    &&& forall|i: int|
        0 <= i < words.len() ==> got(
            events[from + i],
            AnyColumn::Advice(columns[i]),
            offset,
            #[trigger] words[i],
        )
}

/// The last events got `words`, in order: the cells of `columns` at `offset`.
pub open spec fn lies(
    events: Seq<Event>,
    words: Seq<AssignedWord>,
    columns: Seq<AdviceColumn>,
    offset: nat,
) -> bool {
    got_words(events, events.len() - words.len(), words, columns, offset)
}

/// The values of a state are known if and only if every one of them is, and then they are these.
pub proof fn law_known_values(values: Seq<Option<int>>, p: Seq<int>)
    ensures
        known(values) == Some(p) <==> values.len() == p.len() && forall|i: int|
            0 <= i < values.len() ==> #[trigger] values[i] == Some(p[i]),
        known(values) is None <==> exists|i: int|
            0 <= i < values.len() && #[trigger] values[i] is None,
{
    if values.len() == p.len() && forall|i: int|
        0 <= i < values.len() ==> #[trigger] values[i] == Some(p[i]) {
        assert(known(values)->0 =~= p);
    }
    if known(values) == Some(p) {
        assert forall|i: int| 0 <= i < values.len() implies #[trigger] values[i] == Some(p[i]) by {
            assert(values[i] is Some);
        }
    }
}

/// Words that lie on a row came back last and in order, each for the cell of its column on that
/// row.
pub proof fn law_words_came_back_last(
    events: Seq<Event>,
    words: Seq<AssignedWord>,
    columns: Seq<AdviceColumn>,
    offset: nat,
    i: int,
)
    requires
        lies(events, words, columns, offset),
        0 <= i < words.len(),
    ensures
        words.len() <= events.len(),
        ({
            let event = events[events.len() - words.len() + i];
            &&& event.reply == Reply::Assigned(words[i])
            &&& match event.request {
                Request::Advice { label: _, column, offset: o, value: _ } => column == columns[i]
                    && o == offset,
                Request::Constant { label: _, column, offset: o, value: _ } => column == columns[i]
                    && o == offset,
                Request::Copy { label: _, source: _, column, offset: o } => column == columns[i]
                    && o == offset,
                _ => false,
            }
        }),
{
    let word = words[i];
}

/// What was in the history before a plan was followed is still there.
pub(crate) proof fn lemma_history_stays(
    before: Seq<Event>,
    after: Seq<Event>,
    plan: Seq<Request>,
    refusal: Option<Error>,
)
    requires
        follows(before, after, plan, refusal),
    ensures
        before.len() <= after.len(),
        forall|k: int| 0 <= k < before.len() ==> #[trigger] after[k] == before[k],
{
    assert forall|k: int| 0 <= k < before.len() implies #[trigger] after[k] == before[k] by {
        if refusal is Some {
            assert(after.drop_last()[k] == after[k]);
        }
    }
}

/// Words that came back stay where they are in the history.
pub(crate) proof fn lemma_words_still_there(
    between: Seq<Event>,
    after: Seq<Event>,
    from: int,
    words: Seq<AssignedWord>,
    columns: Seq<AdviceColumn>,
    offset: nat,
)
    requires
        got_words(between, from, words, columns, offset),
        between.len() <= after.len(),
        forall|k: int| 0 <= k < between.len() ==> #[trigger] after[k] == between[k],
    ensures
        got_words(after, from, words, columns, offset),
{
    assert forall|i: int| 0 <= i < words.len() implies got(
        after[from + i],
        AnyColumn::Advice(columns[i]),
        offset,
        #[trigger] words[i],
    ) by {
        assert(after[from + i] == between[from + i]);
    }
}

/// The cells of all words are within reach of a region.
pub open spec fn all_within_reach(region: ChipRegion<'_, '_>, words: Seq<AssignedWord>) -> bool {
    forall|i: int|
        0 <= i < words.len() ==> within_reach(region, assigned_cell(#[trigger] words[i]))
}

/// The requests that load a state: copies of its words into the first row.
pub open spec fn load_plan<const WIDTH: usize, const RATE: usize>(
    config: Pow5Config<WIDTH, RATE>,
    words: Seq<AssignedWord>,
) -> Seq<Request> {
    Seq::new(
        WIDTH as nat,
        |i: int|
            Request::Copy {
                label: indexed("load state_"@, i as nat),
                source: words[i],
                column: config.state@[i],
                offset: 0,
            },
    )
}

impl<const WIDTH: usize, const RATE: usize> Pow5Config<WIDTH, RATE> {
    /// The constants of round `round`.
    pub open spec fn constants(self, round: nat) -> Seq<int> {
        residues(self.round_constants@[round as int]@)
    }

    /// The state with the constants of round `round` added.
    pub open spec fn with_constants(self, round: nat, values: Seq<Option<int>>) -> Option<
        Seq<int>,
    > {
        match known(values) {
            Some(p) => Some(add_constants(p, self.constants(round))),
            None => None,
        }
    }

    /// The state that a row of the full round `round` leads to: zero where the values are not
    /// known.
    pub open spec fn after_full(self, round: nat, values: Seq<Option<int>>) -> Seq<int> {
        match known(values) {
            Some(p) => full_round(matrix(self.m_reg), self.constants(round), p),
            None => Seq::new(WIDTH as nat, |i: int| 0int),
        }
    }

    /// The state inside the partial round `round`, between its S-box and its mixing.
    pub open spec fn after_partial_sbox(self, round: nat, values: Seq<Option<int>>) -> Option<
        Seq<int>,
    > {
        match known(values) {
            Some(p) => Some(sbox_first(add_constants(p, self.constants(round)))),
            None => None,
        }
    }

    /// The state after the partial round `round`.
    pub open spec fn between_partials(self, round: nat, values: Seq<Option<int>>) -> Option<
        Seq<int>,
    > {
        match known(values) {
            Some(p) => Some(partial_round(matrix(self.m_reg), self.constants(round), p)),
            None => None,
        }
    }

    /// The state that a row of the partial rounds `round` and `round + 1` leads to: zero where
    /// the values are not known.
    pub open spec fn after_partials(self, round: nat, values: Seq<Option<int>>) -> Seq<int> {
        match self.between_partials(round, values) {
            Some(p) => partial_round(matrix(self.m_reg), self.constants(round + 1), p),
            None => Seq::new(WIDTH as nat, |i: int| 0int),
        }
    }

    /// The requests that enable a gate.
    pub open spec fn enable_plan(self, gate: FixedColumn, offset: nat) -> Seq<Request> {
        seq![Request::Fixed { label: "round"@, column: gate, offset, value: 1 }]
    }

    /// The requests that load the constants of round `round` into `columns`.
    pub open spec fn constants_plan(
        self,
        columns: Seq<FixedColumn>,
        round: nat,
        offset: nat,
    ) -> Seq<Request> {
        Seq::new(
            WIDTH as nat,
            |i: int|
                Request::Fixed {
                    label: of_round_indexed(round, " rc_"@, i as nat),
                    column: columns[i],
                    offset,
                    value: self.constants(round)[i],
                },
        )
    }

    /// The requests inside a row of the full round `round`: for every word, a cell with the round
    /// constant added and a cell with the square of that.
    pub open spec fn full_body_plan(
        self,
        round: nat,
        offset: nat,
        values: Seq<Option<int>>,
    ) -> Seq<Request> {
        let q = self.with_constants(round, values);
        Seq::new(
            2 * WIDTH as nat,
            |k: int|
                if k % 2 == 0 {
                    Request::Advice {
                        label: of_round(round, " state_rc_a"@),
                        column: self.state_rc_a@[k / 2],
                        offset,
                        value: entry(q, k / 2),
                    }
                } else {
                    Request::Advice {
                        label: of_round(round, " state_rc_a_sqr"@),
                        column: self.state_rc_a_sqr@[k / 2],
                        offset,
                        value: squared(entry(q, k / 2)),
                    }
                },
        )
    }

    /// The request for the cell that holds the first word behind the S-box of round `round`.
    pub open spec fn sbox_cell_plan(
        self,
        round: nat,
        offset: nat,
        values: Seq<Option<int>>,
    ) -> Seq<Request> {
        seq![
            Request::Advice {
                label: of_round(round, " partial_sbox"@),
                column: self.partial_sbox,
                offset,
                value: entry(self.after_partial_sbox(round, values), 0),
            },
        ]
    }

    /// The requests for the cells that hold the inputs `helper` and `first` of the two S-boxes, and
    /// their squares.
    pub open spec fn sbox_inputs_plan(
        self,
        round: nat,
        offset: nat,
        helper: Option<int>,
        first: Option<int>,
    ) -> Seq<Request> {
        seq![
            Request::Advice {
                label: of_round(round, " mid_0_helper_curr"@),
                column: self.mid_0_helper,
                offset,
                value: helper,
            },
            Request::Advice {
                label: of_round(round, " mid_0_helper_sqr_curr"@),
                column: self.mid_0_helper_sqr,
                offset,
                value: squared(helper),
            },
            Request::Advice {
                label: of_round(round, " mid_0_helper_curr"@),
                column: self.cur_0_rc_a0,
                offset,
                value: first,
            },
            Request::Advice {
                label: of_round(round, " mid_0_helper_sqr_curr"@),
                column: self.cur_0_rc_a0_sqr,
                offset,
                value: squared(first),
            },
        ]
    }

    /// The requests for the cells that hold the inputs of the two S-boxes of a row, and their
    /// squares.
    pub open spec fn helper_cells_plan(
        self,
        round: nat,
        offset: nat,
        values: Seq<Option<int>>,
    ) -> Seq<Request> {
        self.sbox_inputs_plan(
            round,
            offset,
            plus(entry(self.between_partials(round, values), 0), self.constants(round + 1)[0]),
            plus(values[0], self.constants(round)[0]),
        )
    }

    /// The requests for the cells of the state that round `next_round` starts from.
    pub open spec fn next_plan(self, next_round: nat, offset: nat, next: Seq<int>) -> Seq<Request> {
        Seq::new(
            WIDTH as nat,
            |i: int|
                Request::Advice {
                    label: of_round_indexed(next_round, " state_"@, i as nat),
                    column: self.state@[i],
                    offset,
                    value: Some(next[i]),
                },
        )
    }

    /// The requests inside a row of the partial rounds `round` and `round + 1`.
    pub open spec fn partial_body_plan(
        self,
        round: nat,
        offset: nat,
        values: Seq<Option<int>>,
    ) -> Seq<Request> {
        self.sbox_cell_plan(round, offset, values) + (self.constants_plan(
            self.rc_b@,
            round + 1,
            offset,
        ) + self.helper_cells_plan(round, offset, values))
    }

    /// The requests for a row: its gate and the constants of its first round, the cells inside
    /// it, and the state below it.
    pub open spec fn row_plan(
        self,
        gate: FixedColumn,
        round: nat,
        offset: nat,
        body: Seq<Request>,
        next_round: nat,
        next: Seq<int>,
    ) -> Seq<Request> {
        self.enable_plan(gate, offset) + (self.constants_plan(self.rc_a@, round, offset) + (body
            + self.next_plan(next_round, offset + 1, next)))
    }

    /// The requests for a row of the full round `round`.
    pub open spec fn full_plan(
        self,
        round: nat,
        offset: nat,
        values: Seq<Option<int>>,
    ) -> Seq<Request> {
        self.row_plan(
            self.s_full,
            round,
            offset,
            self.full_body_plan(round, offset, values),
            round + 1,
            self.after_full(round, values),
        )
    }

    /// The requests for a row of the partial rounds `round` and `round + 1`.
    pub open spec fn partial_plan(
        self,
        round: nat,
        offset: nat,
        values: Seq<Option<int>>,
    ) -> Seq<Request> {
        self.row_plan(
            self.s_partial,
            round,
            offset,
            self.partial_body_plan(round, offset, values),
            round + 2,
            self.after_partials(round, values),
        )
    }
}

} // verus!
