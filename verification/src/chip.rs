//! The chip and its instructions.
use crate::config::Pow5Config;
use crate::plan::{all_within_reach, follows, got_words, lies, load_plan};
use crate::plan::{lemma_history_stays, lemma_in_turn, lemma_words_still_there};
use crate::region::{keeps_reach, refused};
use crate::region::{ChipError, ChipRegion, Event, Request};
use crate::state::{all_settled, all_settled_on, cells, values, Pow5State, StateWord};
use halo2_proofs::plonk::Error;
use vstd::prelude::*;

verus! {

/// A Poseidon chip using an $x^5$ S-Box.
///
/// The chip is implemented using a single round per row for full rounds, and two rounds
/// per row for partial rounds.
#[derive(Debug)]
pub struct Pow5Chip<const WIDTH: usize, const RATE: usize> {
    pub config: Pow5Config<WIDTH, RATE>,
}

impl<const WIDTH: usize, const RATE: usize> Pow5Config<WIDTH, RATE> {
    /// The requests for row `k` of the permutation, if it starts from `values`.
    pub open spec fn permutation_row_plan(self, k: nat, values: Seq<Option<int>>) -> Seq<Request> {
        let round = self.permutation().row_round(k);
        if self.permutation().row_is_full(k) {
            self.full_plan(round, k, values)
        } else {
            self.partial_plan(round, k, values)
        }
    }

    /// The state that row `k` of the permutation leads to from `values`.
    pub open spec fn after_permutation_row(self, k: nat, values: Seq<Option<int>>) -> Seq<int> {
        let round = self.permutation().row_round(k);
        if self.permutation().row_is_full(k) {
            self.after_full(round, values)
        } else {
            self.after_partials(round, values)
        }
    }

    /// The requests for the first `n` rows of the permutation, if row `k` starts from state `k` of
    /// `trace`.
    pub open spec fn permutation_rows_plan(self, trace: Seq<Seq<StateWord>>, n: nat) -> Seq<Request>
        decreases n,
    {
        if n == 0 {
            Seq::empty()
        } else {
            self.permutation_rows_plan(trace, (n - 1) as nat) + self.permutation_row_plan(
                (n - 1) as nat,
                values(trace[n - 1]),
            )
        }
    }

    /// Row `k` led from state `k` to state `k + 1` of `trace`.
    pub open spec fn row_led(self, trace: Seq<Seq<StateWord>>, k: int) -> bool {
        all_settled_on(trace[k + 1], self.after_permutation_row(k as nat, values(trace[k])))
    }

    /// `trace` holds the states of a permutation of `initial_state` as far as it got: the loaded
    /// state, and then the state below every row.
    pub open spec fn is_trace(
        self,
        initial_state: Seq<StateWord>,
        trace: Seq<Seq<StateWord>>,
    ) -> bool {
        &&& trace.len() > 0 ==> all_settled(trace[0], values(initial_state))
        &&& forall|k: int| 0 <= k < trace.len() - 1 ==> #[trigger] self.row_led(trace, k)
    }

    /// The words of state `k` of `trace` are those that came back for the state columns on row `k`.
    pub open spec fn state_lies(
        self,
        trace: Seq<Seq<StateWord>>,
        before: Seq<Event>,
        after: Seq<Event>,
        k: int,
    ) -> bool {
        got_words(
            after,
            before.len() as int + self.permutation_rows_plan(trace, k as nat).len(),
            cells(trace[k]),
            self.state@,
            k as nat,
        )
    }

    /// The words of every state of `trace` are those that came back for its row.
    pub open spec fn trace_lies(
        self,
        trace: Seq<Seq<StateWord>>,
        before: Seq<Event>,
        after: Seq<Event>,
    ) -> bool {
        forall|k: int|
            0 <= k < trace.len() ==> #[trigger] self.state_lies(trace, before, after, k)
    }

    /// A permutation of `initial_state` took the history of a region from `before` to `after`,
    /// through the states of `trace`. A permutation that was refused something got no further than
    /// the row below the last one of them, or than loading if there is none.
    pub open spec fn permuted(
        self,
        initial_state: Seq<StateWord>,
        trace: Seq<Seq<StateWord>>,
        before: Seq<Event>,
        after: Seq<Event>,
        refusal: Option<Error>,
    ) -> bool {
        let rows = self.permutation().rows();
        let tried = if refusal is None {
            rows
        } else {
            trace.len()
        };
        &&& self.is_trace(initial_state, trace)
        &&& self.trace_lies(trace, before, after)
        &&& if refusal is None {
            trace.len() == rows + 1
        } else {
            trace.len() <= rows
        }
        &&& follows(
            before,
            after,
            load_plan(self, cells(initial_state)) + self.permutation_rows_plan(trace, tried),
            refusal,
        )
    }

    /// The rows of a permutation were laid out down to the last state of `trace`.
    #[verifier::opaque]
    spec fn underway(
        self,
        initial_state: Seq<StateWord>,
        trace: Seq<Seq<StateWord>>,
        before: Seq<Event>,
        after: Seq<Event>,
    ) -> bool {
        &&& trace.len() > 0
        &&& self.is_trace(initial_state, trace)
        &&& self.trace_lies(trace, before, after)
        &&& follows(
            before,
            after,
            load_plan(self, cells(initial_state)) + self.permutation_rows_plan(
                trace,
                (trace.len() - 1) as nat,
            ),
            None,
        )
    }

    proof fn lemma_rows_plan_agrees(
        self,
        trace: Seq<Seq<StateWord>>,
        next: Seq<StateWord>,
        n: nat,
    )
        requires
            n <= trace.len(),
        ensures
            self.permutation_rows_plan(trace.push(next), n) == self.permutation_rows_plan(trace, n),
        decreases n,
    {
        if n > 0 {
            self.lemma_rows_plan_agrees(trace, next, (n - 1) as nat);
        }
    }

    /// The state was loaded.
    proof fn lemma_started(
        self,
        initial_state: Seq<StateWord>,
        state: Seq<StateWord>,
        before: Seq<Event>,
        after: Seq<Event>,
    )
        requires
            follows(before, after, load_plan(self, cells(initial_state)), None),
            all_settled(state, values(initial_state)),
            state.len() == WIDTH,
            lies(after, cells(state), self.state@, 0),
        ensures
            self.underway(initial_state, seq![state], before, after),
    {
        reveal(Pow5Config::underway);
        let load = load_plan(self, cells(initial_state));
        assert(load + self.permutation_rows_plan(seq![state], 0) =~= load);
    }

    /// All rows were laid out.
    proof fn lemma_finished(
        self,
        initial_state: Seq<StateWord>,
        trace: Seq<Seq<StateWord>>,
        before: Seq<Event>,
        after: Seq<Event>,
    )
        requires
            self.underway(initial_state, trace, before, after),
            trace.len() == self.permutation().rows() + 1,
        ensures
            self.permuted(initial_state, trace, before, after, None),
    {
        reveal(Pow5Config::underway);
    }

    /// One more row was laid out.
    proof fn lemma_row_done(
        self,
        initial_state: Seq<StateWord>,
        trace: Seq<Seq<StateWord>>,
        next: Seq<StateWord>,
        before: Seq<Event>,
        between: Seq<Event>,
        after: Seq<Event>,
    )
        requires
            self.underway(initial_state, trace, before, between),
            follows(
                between,
                after,
                self.permutation_row_plan((trace.len() - 1) as nat, values(trace.last())),
                None,
            ),
            all_settled_on(
                next,
                self.after_permutation_row((trace.len() - 1) as nat, values(trace.last())),
            ),
            next.len() == WIDTH,
            lies(after, cells(next), self.state@, trace.len()),
        ensures
            self.underway(initial_state, trace.push(next), before, after),
    {
        reveal(Pow5Config::underway);
        let k = (trace.len() - 1) as nat;
        let more = trace.push(next);
        let load = load_plan(self, cells(initial_state));
        let head = self.permutation_rows_plan(trace, k);
        let row = self.permutation_row_plan(k, values(trace.last()));
        assert forall|j: int| 0 <= j < more.len() - 1 implies #[trigger] self.row_led(more, j) by {
            if j < k {
                assert(self.row_led(trace, j));
            }
        }
        self.lemma_rows_plan_agrees(trace, next, k);
        lemma_in_turn(before, between, after, load + head, row, None);
        assert(load + self.permutation_rows_plan(more, k + 1) =~= (load + head) + row);
        lemma_history_stays(between, after, row, None);
        assert forall|j: int| 0 <= j < more.len() implies #[trigger] self.state_lies(
            more,
            before,
            after,
            j,
        ) by {
            self.lemma_rows_plan_agrees(trace, next, if j < trace.len() {
                j as nat
            } else {
                k
            });
            if j < trace.len() {
                assert(more[j] == trace[j]);
                assert(self.state_lies(trace, before, between, j));
                lemma_words_still_there(
                    between,
                    after,
                    before.len() as int + self.permutation_rows_plan(trace, j as nat).len(),
                    cells(trace[j]),
                    self.state@,
                    j as nat,
                );
            }
        }
    }

    /// A row was refused something.
    proof fn lemma_row_cut(
        self,
        initial_state: Seq<StateWord>,
        trace: Seq<Seq<StateWord>>,
        before: Seq<Event>,
        between: Seq<Event>,
        after: Seq<Event>,
        refusal: Option<Error>,
    )
        requires
            self.underway(initial_state, trace, before, between),
            trace.len() <= self.permutation().rows(),
            refusal is Some,
            follows(
                between,
                after,
                self.permutation_row_plan((trace.len() - 1) as nat, values(trace.last())),
                refusal,
            ),
        ensures
            self.permuted(initial_state, trace, before, after, refusal),
    {
        reveal(Pow5Config::underway);
        let k = (trace.len() - 1) as nat;
        let load = load_plan(self, cells(initial_state));
        let head = self.permutation_rows_plan(trace, k);
        let row = self.permutation_row_plan(k, values(trace.last()));
        lemma_in_turn(before, between, after, load + head, row, refusal);
        assert(load + self.permutation_rows_plan(trace, k + 1) =~= (load + head) + row);
        lemma_history_stays(between, after, row, refusal);
        assert forall|j: int| 0 <= j < trace.len() implies #[trigger] self.state_lies(
            trace,
            before,
            after,
            j,
        ) by {
            assert(self.state_lies(trace, before, between, j));
            lemma_words_still_there(
                between,
                after,
                before.len() as int + self.permutation_rows_plan(trace, j as nat).len(),
                cells(trace[j]),
                self.state@,
                j as nat,
            );
        }
    }
}

impl<const WIDTH: usize, const RATE: usize> Pow5Chip<WIDTH, RATE> {
    /// Construct a [`Pow5Chip`].
    pub fn construct(config: Pow5Config<WIDTH, RATE>) -> (r: Self)
        ensures
            r.config == config,
    {
        Pow5Chip { config }
    }

    /// The configuration of the chip.
    pub fn config(&self) -> (r: &Pow5Config<WIDTH, RATE>)
        ensures
            *r == self.config,
    {
        &self.config
    }

    /// Lays out the permutation of `initial_state` in a region: loads the state into the first
    /// row, and goes through the rounds row by row.
    pub fn permute(
        &self,
        region: &mut ChipRegion<'_, '_>,
        initial_state: &[StateWord; WIDTH],
    ) -> (r: Result<[StateWord; WIDTH], ChipError>)
        requires
            self.config.well_formed(),
            self.config.has_constants(),
            all_within_reach(*old(region), cells(initial_state@)),
        ensures
            match r {
                Ok(state) => {
                    &&& exists|trace: Seq<Seq<StateWord>>|
                        {
                            &&& #[trigger] self.config.permuted(
                                initial_state@,
                                trace,
                                old(region)@,
                                final(region)@,
                                None,
                            )
                            &&& state@ == trace.last()
                        }
                    &&& lies(
                        final(region)@,
                        cells(state@),
                        self.config.state@,
                        self.config.permutation().rows(),
                    )
                    &&& lies(
                        final(region)@,
                        cells(state@),
                        self.config.state@,
                        (2 * self.config.half_full_rounds + self.config.half_partial_rounds) as nat,
                    )
                    &&& all_within_reach(*final(region), cells(state@))
                },
                Err(error) => exists|trace: Seq<Seq<StateWord>>| #[trigger]
                    self.config.permuted(
                        initial_state@,
                        trace,
                        old(region)@,
                        final(region)@,
                        refused(error),
                    ),
            },
            keeps_reach(*old(region), *final(region)),
    {
        let config = self.config();
        let ghost before = region@;
        let ghost load = load_plan(*config, cells(initial_state@));
        let ghost rows = config.permutation().rows();
        let half_full_rounds: usize = config.half_full_rounds;
        let half_partial_rounds: usize = config.half_partial_rounds;
        assert(config.round_constants.len() <= usize::MAX);
        // Load the initial state into this region.
        let mut state = match Pow5State::load(region, config, initial_state) {
            Ok(state) => state,
            Err(error) => {
                proof {
                    let trace = Seq::<Seq<StateWord>>::empty();
                    assert(load + config.permutation_rows_plan(trace, 0) =~= load);
                    assert(config.permuted(
                        initial_state@,
                        trace,
                        before,
                        region@,
                        refused(error),
                    ));
                }
                return Err(error);
            },
        };
        let ghost mut trace = seq![state.0@];
        proof {
            config.lemma_started(initial_state@, state.0@, before, region@);
        }
        for r in 0..half_full_rounds
            invariant
                *config == self.config,
                config.well_formed(),
                config.has_constants(),
                config.round_constants@.len() <= usize::MAX,
                half_full_rounds == config.half_full_rounds,
                before == old(region)@,
                trace.len() == r + 1,
                lies(region@, cells(state.0@), config.state@, r as nat),
                all_within_reach(*region, cells(state.0@)),
                keeps_reach(*old(region), *region),
                trace.last() == state.0@,
                config.underway(initial_state@, trace, before, region@),
        {
            let ghost between = region@;
            match state.full_round(region, config, r, r) {
                Ok(next) => {
                    proof {
                        config.lemma_row_done(
                            initial_state@,
                            trace,
                            next.0@,
                            before,
                            between,
                            region@,
                        );
                        trace = trace.push(next.0@);
                    }
                    state = next;
                },
                Err(error) => {
                    proof {
                        config.lemma_row_cut(
                            initial_state@,
                            trace,
                            before,
                            between,
                            region@,
                            refused(error),
                        );
                    }
                    return Err(error);
                },
            }
        }
        for r in 0..half_partial_rounds
            invariant
                *config == self.config,
                config.well_formed(),
                config.has_constants(),
                config.round_constants@.len() <= usize::MAX,
                half_full_rounds == config.half_full_rounds,
                half_partial_rounds == config.half_partial_rounds,
                before == old(region)@,
                trace.len() == half_full_rounds + r + 1,
                lies(region@, cells(state.0@), config.state@, (half_full_rounds + r) as nat),
                all_within_reach(*region, cells(state.0@)),
                keeps_reach(*old(region), *region),
                trace.last() == state.0@,
                config.underway(initial_state@, trace, before, region@),
        {
            let ghost between = region@;
            match state.partial_round(
                region,
                config,
                half_full_rounds + 2 * r,
                half_full_rounds + r,
            ) {
                Ok(next) => {
                    proof {
                        config.lemma_row_done(
                            initial_state@,
                            trace,
                            next.0@,
                            before,
                            between,
                            region@,
                        );
                        trace = trace.push(next.0@);
                    }
                    state = next;
                },
                Err(error) => {
                    proof {
                        config.lemma_row_cut(
                            initial_state@,
                            trace,
                            before,
                            between,
                            region@,
                            refused(error),
                        );
                    }
                    return Err(error);
                },
            }
        }
        for r in 0..half_full_rounds
            invariant
                *config == self.config,
                config.well_formed(),
                config.has_constants(),
                config.round_constants@.len() <= usize::MAX,
                half_full_rounds == config.half_full_rounds,
                half_partial_rounds == config.half_partial_rounds,
                before == old(region)@,
                trace.len() == half_full_rounds + half_partial_rounds + r + 1,
                lies(
                    region@,
                    cells(state.0@),
                    config.state@,
                    (half_full_rounds + half_partial_rounds + r) as nat,
                ),
                all_within_reach(*region, cells(state.0@)),
                keeps_reach(*old(region), *region),
                trace.last() == state.0@,
                config.underway(initial_state@, trace, before, region@),
        {
            let ghost between = region@;
            match state.full_round(
                region,
                config,
                half_full_rounds + 2 * half_partial_rounds + r,
                half_full_rounds + half_partial_rounds + r,
            ) {
                Ok(next) => {
                    proof {
                        config.lemma_row_done(
                            initial_state@,
                            trace,
                            next.0@,
                            before,
                            between,
                            region@,
                        );
                        trace = trace.push(next.0@);
                    }
                    state = next;
                },
                Err(error) => {
                    proof {
                        config.lemma_row_cut(
                            initial_state@,
                            trace,
                            before,
                            between,
                            region@,
                            refused(error),
                        );
                    }
                    return Err(error);
                },
            }
        }
        proof {
            config.lemma_finished(initial_state@, trace, before, region@);
        }
        Ok(state.0)
    }
}

} // verus!
