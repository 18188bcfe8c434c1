//! The instructions for a sponge: its initial state, absorbing input and giving output.
use crate::array::into_array;
use crate::chip::Pow5Chip;
use crate::config::Pow5Config;
use crate::field::{fadd, Felt};
use crate::label::{indexed, label_indexed, numeral};
use crate::plan::{all_within_reach, follows, got_words, lies, load_plan};
use crate::plan::{
    law_a_plan_is_followed_in_order, lemma_all_done, lemma_cut_short, lemma_history_stays, lemma_in_turn, lemma_next,
    lemma_nothing_yet, lemma_words_still_there,
};
use crate::region::{
    assigned_cell, assigned_value, cell, constrain_equal, keeps_reach, refusal, refused, residue, within_reach,
    word_value,
};
use crate::region::{AssignedWord, ChipError, ChipRegion, Event, Reply, Request};
use crate::state::{
    advice_cell, all_settled, all_settled_on, cells, constant_cell, fixed_cell,
    lemma_one_more_within_reach, lemma_one_more_word, values, Pow5State, StateWord,
};
use halo2_proofs::plonk::Error;
use vstd::prelude::*;

verus! {

/// A word from the padded input to a Poseidon sponge.
#[derive(Debug)]
pub enum PaddedWord {
    /// A message word provided by the prover.
    Message(AssignedWord),
    /// A padding word, that will be fixed in the circuit parameters.
    Padding(Felt),
}

/// The input that a sponge absorbs at once.
#[derive(Debug)]
pub struct Absorbing<const RATE: usize>(pub [Option<PaddedWord>; RATE]);

/// The output that a sponge gives at once.
#[derive(Debug)]
pub struct Squeezing<const RATE: usize>(pub [Option<StateWord>; RATE]);

impl PaddedWord {
    /// The value of the word, if it is known.
    pub open spec fn value(self) -> Option<int> {
        match self {
            PaddedWord::Message(word) => word.value(),
            PaddedWord::Padding(padding) => Some(padding@),
        }
    }

    /// The number of requests that the word takes: its padding if it is one, its input and the tie
    /// between the input and where it comes from.
    pub open spec fn requests(self) -> nat {
        match self {
            PaddedWord::Message(_) => 2,
            PaddedWord::Padding(_) => 3,
        }
    }
}

impl<const RATE: usize> Absorbing<RATE> {
    /// Every word is there.
    pub open spec fn padded(self) -> bool {
        forall|i: int| 0 <= i < RATE ==> #[trigger] self.0@[i] is Some
    }

    /// The cells of all words of the message are within reach of a region.
    pub open spec fn within_reach_of(self, region: ChipRegion<'_, '_>) -> bool {
        forall|i: int|
            0 <= i < RATE ==> (#[trigger] self.0@[i] matches Some(PaddedWord::Message(word))
                ==> within_reach(region, assigned_cell(word)))
    }

    /// The number of requests that the first `n` words take.
    pub open spec fn requests(self, n: nat) -> nat
        decreases n,
    {
        if n == 0 {
            0
        } else {
            self.requests((n - 1) as nat) + self.0@[n - 1]->0.requests()
        }
    }
}

/// The value, or zero if it is not known.
pub open spec fn or_zero(value: Option<int>) -> int {
    match value {
        Some(x) => x,
        None => 0,
    }
}

/// How far a sponge got in absorbing input: the state it loaded, the words that the input is tied
/// to and the words that hold the input; and, for the next word of input, the word that holds it and
/// the word it is to be tied to.
pub struct InputTrace {
    pub loaded: Option<Seq<StateWord>>,
    pub sources: Seq<AssignedWord>,
    pub inputs: Seq<StateWord>,
    pub pending: (AssignedWord, AssignedWord),
}

impl<const WIDTH: usize, const RATE: usize> Pow5Config<WIDTH, RATE> {
    /// The words of the initial state: zeros, and then the capacity element.
    pub open spec fn initial_values(self, capacity: int) -> Seq<int> {
        Seq::new(
            WIDTH as nat,
            |i: int|
                if i < RATE {
                    0
                } else {
                    capacity
                },
        )
    }

    /// The requests for the initial state.
    pub open spec fn initial_plan(self, capacity: int) -> Seq<Request> {
        Seq::new(
            WIDTH as nat,
            |i: int|
                Request::Constant {
                    label: indexed("state_"@, i as nat),
                    column: self.state@[i],
                    offset: 0,
                    value: self.initial_values(capacity)[i],
                },
        )
    }

    /// The request that enables absorbing.
    pub open spec fn enable_input_plan(self) -> Seq<Request> {
        seq![
            Request::Fixed {
                label: "s_pad_and_add"@,
                column: self.s_pad_and_add,
                offset: 1,
                value: 1,
            },
        ]
    }

    /// The request for the cell of a padding word.
    pub open spec fn pad_plan(self, word: PaddedWord, i: nat) -> Seq<Request> {
        match word {
            PaddedWord::Message(_) => Seq::empty(),
            PaddedWord::Padding(padding) => seq![
                Request::Fixed {
                    label: indexed("load pad_"@, i),
                    column: self.rc_b@[i as int],
                    offset: 1,
                    value: padding@,
                },
            ],
        }
    }

    /// The requests for the cells of input word `i`.
    pub open spec fn word_plan(self, word: PaddedWord, i: nat) -> Seq<Request> {
        self.pad_plan(word, i) + seq![
            Request::Advice {
                label: indexed("load input_"@, i),
                column: self.state@[i as int],
                offset: 1,
                value: word.value(),
            },
        ]
    }

    /// The requests for the first `n` words of input.
    pub open spec fn words_plan(
        self,
        input: Absorbing<RATE>,
        sources: Seq<AssignedWord>,
        inputs: Seq<StateWord>,
        n: nat,
    ) -> Seq<Request>
        decreases n,
    {
        if n == 0 {
            Seq::empty()
        } else {
            self.words_plan(input, sources, inputs, (n - 1) as nat) + self.word_plan(
                input.0@[n - 1]->0,
                (n - 1) as nat,
            ).push(
                Request::Equal {
                    left: assigned_cell(inputs[n - 1].0),
                    right: assigned_cell(sources[n - 1]),
                },
            )
        }
    }

    /// The sum of the loaded state and the input. The capacity element is never altered by the
    /// input.
    pub open spec fn output_values(
        self,
        loaded: Seq<Option<int>>,
        inputs: Seq<Option<int>>,
    ) -> Seq<int> {
        Seq::new(
            WIDTH as nat,
            |i: int|
                fadd(
                    or_zero(loaded[i]),
                    if i < inputs.len() {
                        or_zero(inputs[i])
                    } else {
                        0
                    },
                ),
        )
    }

    /// The requests for the state that absorbing leads to.
    pub open spec fn output_plan(self, output: Seq<int>) -> Seq<Request> {
        Seq::new(
            WIDTH as nat,
            |i: int|
                Request::Advice {
                    label: indexed("load output_"@, i as nat),
                    column: self.state@[i],
                    offset: 2,
                    value: Some(output[i]),
                },
        )
    }

    /// Event `e` asks to tie `input`, the word that came back for input word `i` just before, to
    /// `source`: the message, or the word that came back for the padding before that.
    pub open spec fn word_ties(
        self,
        events: Seq<Event>,
        e: int,
        word: PaddedWord,
        i: int,
        input: AssignedWord,
        source: AssignedWord,
    ) -> bool {
        &&& 2 <= e < events.len()
        &&& events[e].request == (Request::Equal {
            left: assigned_cell(input),
            right: assigned_cell(source),
        })
        &&& events[e - 1] == (Event {
            request: self.word_plan(word, i as nat).last(),
            reply: Reply::Assigned(input),
        })
        &&& match word {
            PaddedWord::Message(message) => source == message,
            PaddedWord::Padding(_) => events[e - 2] == (Event {
                request: self.pad_plan(word, i as nat)[0],
                reply: Reply::Assigned(source),
            }),
        }
    }

    /// The words of input, whose events start at `from`, hold the values requested for them as far
    /// as these are known, and are tied to where they come from.
    pub open spec fn words_tied(
        self,
        input: Absorbing<RATE>,
        sources: Seq<AssignedWord>,
        inputs: Seq<StateWord>,
        events: Seq<Event>,
        from: int,
    ) -> bool {
        &&& sources.len() == inputs.len() <= RATE
        &&& forall|i: int|
            0 <= i < inputs.len() ==> {
                let e = from + input.requests(i as nat + 1) - 1;
                &&& (#[trigger] inputs[i]).0.settled(input.0@[i]->0.value())
                &&& sources[i].settled(input.0@[i]->0.value())
                &&& self.word_ties(
                    events,
                    e,
                    input.0@[i]->0,
                    i,
                    inputs[i].0,
                    sources[i],
                )
                &&& events[e].reply == Reply::Tied
            }
    }

    /// The requests that absorbing made, as far as it got.
    pub open spec fn input_plan(
        self,
        initial_state: Seq<StateWord>,
        input: Absorbing<RATE>,
        trace: InputTrace,
    ) -> Seq<Request> {
        let n = trace.inputs.len();
        self.enable_input_plan() + (load_plan(self, cells(initial_state)) + match trace.loaded {
            None => Seq::empty(),
            Some(loaded) => self.words_plan(input, trace.sources, trace.inputs, n) + if n < RATE {
                self.word_plan(input.0@[n as int]->0, n).push(
                    Request::Equal {
                        left: assigned_cell(trace.pending.0),
                        right: assigned_cell(trace.pending.1),
                    },
                )
            } else {
                self.output_plan(self.output_values(values(loaded), values(trace.inputs)))
            },
        })
    }

    /// Absorbing `input` into `initial_state` took the history of a region from `before` to `after`.
    /// If it was refused something, it got no further than the words of the state, the word of
    /// input or the words of output that `trace` leads up to.
    pub open spec fn absorbed(
        self,
        initial_state: Seq<StateWord>,
        input: Absorbing<RATE>,
        trace: InputTrace,
        before: Seq<Event>,
        after: Seq<Event>,
        refusal: Option<Error>,
    ) -> bool {
        let n = trace.inputs.len();
        &&& trace.loaded matches Some(loaded) ==> {
            &&& all_settled(loaded, values(initial_state))
            &&& got_words(after, before.len() as int + 1, cells(loaded), self.state@, 0)
        }
        &&& self.words_tied(
            input,
            trace.sources,
            trace.inputs,
            after,
            before.len() as int + 1 + WIDTH,
        )
        &&& refusal is None ==> trace.loaded is Some && n == RATE
        &&& n < RATE && after.last().request is Equal ==> self.word_ties(
            after,
            after.len() - 1,
            input.0@[n as int]->0,
            n as int,
            trace.pending.0,
            trace.pending.1,
        )
        &&& follows(before, after, self.input_plan(initial_state, input, trace), refusal)
    }

    /// The initial state of a sponge asks for zeros, and for the capacity element in the last word.
    /// Different capacity elements give different initial states.
    pub proof fn law_an_initial_state_is_zeros_and_its_capacity(
        self,
        capacity: int,
        before: Seq<Event>,
        after: Seq<Event>,
        refusal: Option<Error>,
    )
        requires
            self.well_formed(),
            follows(before, after, self.initial_plan(capacity), refusal),
        ensures
            self.initial_values(capacity).len() == RATE + 1,
            forall|i: int| 0 <= i < RATE ==> #[trigger] self.initial_values(capacity)[i] == 0,
            self.initial_values(capacity)[RATE as int] == capacity,
            forall|other: int|
                other != capacity ==> #[trigger] self.initial_values(other) != self.initial_values(
                    capacity,
                ),
            refusal is None ==> after.len() == before.len() + RATE + 1,
            refusal is Some ==> before.len() < after.len() <= before.len() + RATE + 1,
            forall|k: int| 0 <= k < before.len() ==> #[trigger] after[k] == before[k],
            forall|k: int|
                before.len() <= k < after.len() ==> (#[trigger] after[k]).request == (
                Request::Constant {
                    label: "state_"@ + numeral((k - before.len()) as nat),
                    column: self.state@[k - before.len()],
                    offset: 0,
                    value: if k - before.len() < RATE {
                        0
                    } else {
                        capacity
                    },
                }),
    {
        let plan = self.initial_plan(capacity);
        law_a_plan_is_followed_in_order(before, after, plan, refusal);
        let r = RATE as int;
        assert forall|other: int| other != capacity implies #[trigger] self.initial_values(other)
            != self.initial_values(capacity) by {
            assert(self.initial_values(other)[r] != self.initial_values(capacity)[r]);
        }
    }

    proof fn lemma_words_plan_len(
        self,
        input: Absorbing<RATE>,
        sources: Seq<AssignedWord>,
        inputs: Seq<StateWord>,
        n: nat,
    )
        ensures
            self.words_plan(input, sources, inputs, n).len() == input.requests(n),
        decreases n,
    {
        if n > 0 {
            self.lemma_words_plan_len(input, sources, inputs, (n - 1) as nat);
        }
    }

    /// What was tied stays tied as the history goes on.
    proof fn lemma_words_stay_tied(
        self,
        input: Absorbing<RATE>,
        sources: Seq<AssignedWord>,
        inputs: Seq<StateWord>,
        between: Seq<Event>,
        after: Seq<Event>,
        from: int,
    )
        requires
            self.words_tied(input, sources, inputs, between, from),
            between.len() <= after.len(),
            forall|k: int| 0 <= k < between.len() ==> #[trigger] after[k] == between[k],
        ensures
            self.words_tied(input, sources, inputs, after, from),
    {
        assert forall|i: int| 0 <= i < inputs.len() implies {
            let e = from + input.requests(i as nat + 1) - 1;
            &&& (#[trigger] inputs[i]).0.settled(input.0@[i]->0.value())
            &&& sources[i].settled(input.0@[i]->0.value())
            &&& self.word_ties(
                after,
                e,
                input.0@[i]->0,
                i,
                inputs[i].0,
                sources[i],
            )
            &&& after[e].reply == Reply::Tied
        } by {
            let e = from + input.requests(i as nat + 1) - 1;
            assert(inputs[i].0.settled(input.0@[i]->0.value()));
            assert(after[e] == between[e]);
            assert(after[e - 1] == between[e - 1]);
            assert(after[e - 2] == between[e - 2]);
        }
    }

    proof fn lemma_one_more_tied(
        self,
        input: Absorbing<RATE>,
        sources: Seq<AssignedWord>,
        inputs: Seq<StateWord>,
        source: AssignedWord,
        word: StateWord,
        events: Seq<Event>,
        from: int,
    )
        requires
            inputs.len() < RATE,
            self.words_tied(input, sources, inputs, events, from),
            events.len() == from + input.requests(inputs.len() + 1),
            word.0.settled(input.0@[inputs.len() as int]->0.value()),
            source.settled(input.0@[inputs.len() as int]->0.value()),
            self.word_ties(
                events,
                events.len() - 1,
                input.0@[inputs.len() as int]->0,
                inputs.len() as int,
                word.0,
                source,
            ),
            events.last().reply == Reply::Tied,
        ensures
            self.words_tied(input, sources.push(source), inputs.push(word), events, from),
    {
        let more = inputs.push(word);
        let origins = sources.push(source);
        assert forall|i: int| 0 <= i < more.len() implies {
            let e = from + input.requests(i as nat + 1) - 1;
            &&& (#[trigger] more[i]).0.settled(input.0@[i]->0.value())
            &&& origins[i].settled(input.0@[i]->0.value())
            &&& self.word_ties(
                events,
                e,
                input.0@[i]->0,
                i,
                more[i].0,
                origins[i],
            )
            &&& events[e].reply == Reply::Tied
        } by {
            if i < inputs.len() {
                assert(more[i] == inputs[i]);
            }
        }
    }

    proof fn lemma_words_plan_agrees(
        self,
        input: Absorbing<RATE>,
        sources: Seq<AssignedWord>,
        inputs: Seq<StateWord>,
        source: AssignedWord,
        word: StateWord,
        n: nat,
    )
        requires
            n <= sources.len(),
            n <= inputs.len(),
        ensures
            self.words_plan(input, sources.push(source), inputs.push(word), n) == self.words_plan(
                input,
                sources,
                inputs,
                n,
            ),
        decreases n,
    {
        if n > 0 {
            self.lemma_words_plan_agrees(input, sources, inputs, source, word, (n - 1) as nat);
        }
    }
}

impl<const WIDTH: usize, const RATE: usize> Pow5Chip<WIDTH, RATE> {
    /// Lays out the initial state of a sponge: zeros, and `capacity` for the last word. The values
    /// of its words are always known.
    pub fn initial_state(
        &self,
        region: &mut ChipRegion<'_, '_>,
        capacity: Felt,
    ) -> (r: Result<[StateWord; WIDTH], ChipError>)
        requires
            self.config.well_formed(),
        ensures
            follows(
                old(region)@,
                final(region)@,
                self.config.initial_plan(capacity@),
                refusal(r),
            ),
            keeps_reach(*old(region), *final(region)),
            r matches Ok(state) ==> {
                &&& forall|i: int|
                    0 <= i < WIDTH ==> (#[trigger] state@[i]).0.value() == Some(
                        self.config.initial_values(capacity@)[i],
                    )
                &&& lies(final(region)@, cells(state@), self.config.state@, 0)
                &&& all_within_reach(*final(region), cells(state@))
            },
            forall|k: int| 0 <= k < old(region)@.len() ==> #[trigger] final(region)@[k] == old(
                region,
            )@[k],
            forall|k: int|
                old(region)@.len() <= k < final(region)@.len() ==> (
                #[trigger] final(region)@[k]).request == (Request::Constant {
                    label: "state_"@ + numeral((k - old(region)@.len()) as nat),
                    column: self.config.state@[k - old(region)@.len()],
                    offset: 0,
                    value: if k - old(region)@.len() < RATE {
                        0
                    } else {
                        capacity@
                    },
                }),
            match r {
                Ok(state) => {
                    &&& final(region)@.len() == old(region)@.len() + RATE + 1
                    &&& forall|i: int|
                        0 <= i < RATE ==> assigned_value((#[trigger] state@[i]).0) == Some(0int)
                    &&& assigned_value(state@[RATE as int].0) == Some(capacity@)
                },
                Err(ChipError::Refused(error)) => {
                    &&& final(region)@.len() > old(region)@.len()
                    &&& final(region)@.last().reply == Reply::Refused(error)
                },
            },
    {
        let config = self.config();
        let ghost before = region@;
        let ghost plan = config.initial_plan(capacity@);
        let mut state: Vec<StateWord> = Vec::new();
        proof {
            lemma_nothing_yet(before, plan);
        }
        for i in 0..WIDTH
            invariant
                *config == self.config,
                config.well_formed(),
                plan == config.initial_plan(capacity@),
                before == old(region)@,
                keeps_reach(*old(region), *region),
                follows(before, region@, plan.take(i as int), None),
                state@.len() == i,
                got_words(region@, before.len() as int, cells(state@), config.state@, 0),
                all_within_reach(*region, cells(state@)),
                forall|k: int|
                    0 <= k < i ==> (#[trigger] state@[k]).0.value() == Some(
                        config.initial_values(capacity@)[k],
                    ),
        {
            let ghost between = region@;
            let ghost reached = *region;
            let label = label_indexed("state_", i);
            let value = if i < RATE {
                Felt::zero()
            } else {
                capacity
            };
            let outcome = constant_cell(region, label.as_str(), config.state[i], 0, value);
            proof {
                lemma_next(before, between, region@, plan, i as int, refusal(outcome));
            }
            match outcome {
                Ok(var) => {
                    proof {
                        lemma_one_more_word(
                            between,
                            region@,
                            before.len() as int,
                            state@,
                            StateWord(var),
                            config.state@,
                            0,
                        );
                        lemma_one_more_within_reach(reached, *region, state@, StateWord(var));
                    }
                    state.push(StateWord(var));
                },
                Err(error) => {
                    proof {
                        config.law_an_initial_state_is_zeros_and_its_capacity(
                            capacity@,
                            before,
                            region@,
                            refused(error),
                        );
                        law_a_plan_is_followed_in_order(before, region@, plan, refused(error));
                    }
                    return Err(error);
                },
            }
        }
        proof {
            lemma_all_done(before, region@, plan);
            config.law_an_initial_state_is_zeros_and_its_capacity(
                capacity@,
                before,
                region@,
                None,
            );
        }
        Ok(into_array(state))
    }

    /// Assigns the cells of input word `i`, and ties the input to where it comes from.
    fn load_input_word(
        region: &mut ChipRegion<'_, '_>,
        config: &Pow5Config<WIDTH, RATE>,
        word: &PaddedWord,
        i: usize,
    ) -> (r: Result<(AssignedWord, StateWord), ChipError>)
        requires
            config.well_formed(),
            i < RATE,
            old(region)@.len() > 0,
            word matches PaddedWord::Message(message) ==> within_reach(
                *old(region),
                assigned_cell(*message),
            ),
        ensures
            match r {
                Ok((source, var)) => {
                    &&& follows(
                        old(region)@,
                        final(region)@,
                        config.word_plan(*word, i as nat).push(
                            Request::Equal {
                                left: assigned_cell(var.0),
                                right: assigned_cell(source),
                            },
                        ),
                        None,
                    )
                    &&& var.0.settled(word.value())
                    &&& source.settled(word.value())
                    &&& config.word_ties(
                        final(region)@,
                        final(region)@.len() - 1,
                        *word,
                        i as int,
                        var.0,
                        source,
                    )
                    &&& final(region)@.last().reply == Reply::Tied
                    &&& final(region)@.last().request == (Request::Equal {
                        left: assigned_cell(var.0),
                        right: assigned_cell(source),
                    })
                    &&& final(region)@[final(region)@.len() - 2] == (Event {
                        request: Request::Advice {
                            label: "load input_"@ + numeral(i as nat),
                            column: config.state@[i as int],
                            offset: 1,
                            value: match *word {
                                PaddedWord::Message(message) => assigned_value(message),
                                PaddedWord::Padding(padding) => Some(padding@),
                            },
                        },
                        reply: Reply::Assigned(var.0),
                    })
                    &&& match *word {
                        PaddedWord::Message(message) => {
                            &&& source == message
                            &&& final(region)@.len() == old(region)@.len() + 2
                            &&& assigned_value(var.0) is None || assigned_value(var.0)
                                == assigned_value(message)
                        },
                        PaddedWord::Padding(padding) => {
                            &&& final(region)@.len() == old(region)@.len() + 3
                            &&& final(region)@[final(region)@.len() - 3] == (Event {
                                request: Request::Fixed {
                                    label: "load pad_"@ + numeral(i as nat),
                                    column: config.rc_b@[i as int],
                                    offset: 1,
                                    value: padding@,
                                },
                                reply: Reply::Assigned(source),
                            })
                            &&& assigned_value(var.0) is None || assigned_value(var.0) == Some(
                                padding@,
                            )
                            &&& assigned_value(source) is None || assigned_value(source) == Some(
                                padding@,
                            )
                        },
                    }
                },
                Err(error) => exists|tie: (AssignedWord, AssignedWord)|
                    {
                        &&& #[trigger] follows(
                            old(region)@,
                            final(region)@,
                            config.word_plan(*word, i as nat).push(
                                Request::Equal { left: assigned_cell(tie.0), right: assigned_cell(tie.1) },
                            ),
                            refused(error),
                        )
                        &&& final(region)@.last().request is Equal ==> config.word_ties(
                            final(region)@,
                            final(region)@.len() - 1,
                            *word,
                            i as int,
                            tie.0,
                            tie.1,
                        )
                    },
            },
            keeps_reach(*old(region), *final(region)),
    {
        let ghost before = region@;
        let ghost pad = config.pad_plan(*word, i as nat);
        let ghost plan = config.word_plan(*word, i as nat);
        let ghost load = seq![plan.last()];
        let ghost any_tie = arbitrary::<(AssignedWord, AssignedWord)>();
        let ghost any_request = Request::Equal {
            left: assigned_cell(any_tie.0),
            right: assigned_cell(any_tie.1),
        };
        assert(plan =~= pad + load);
        let (value, source) = match word {
            PaddedWord::Message(word) => {
                assert(follows(before, region@, pad, None));
                (word_value(word), word.clone())
            },
            PaddedWord::Padding(padding_value) => {
                let label = label_indexed("load pad_", i);
                match fixed_cell(region, label.as_str(), config.rc_b[i], 1, *padding_value) {
                    Ok(source) => (Some(*padding_value), source),
                    Err(error) => {
                        proof {
                            lemma_cut_short(
                                before,
                                region@,
                                pad,
                                load + seq![any_request],
                                refused(error),
                            );
                            assert(pad + (load + seq![any_request]) =~= plan.push(any_request));
                            assert(region@.last().request == pad[0]);
                        }
                        return Err(error);
                    },
                }
            },
        };
        assert(residue(value) == word.value());
        let ghost between = region@;
        let label = label_indexed("load input_", i);
        let var = match advice_cell(region, label.as_str(), config.state[i], 1, value) {
            Ok(var) => var,
            Err(error) => {
                proof {
                    lemma_in_turn(before, between, region@, pad, load, refused(error));
                    lemma_cut_short(before, region@, plan, seq![any_request], refused(error));
                    assert(plan + seq![any_request] =~= plan.push(any_request));
                    assert(region@.last().request == load[0]);
                }
                return Err(error);
            },
        };
        let ghost loaded = region@;
        let ghost tie = Request::Equal { left: assigned_cell(var), right: assigned_cell(source) };
        proof {
            lemma_in_turn(before, between, loaded, pad, load, None);
            assert(plan + seq![tie] =~= plan.push(tie));
            lemma_history_stays(between, loaded, load, None);
        }
        match constrain_equal(region, cell(&var), cell(&source)) {
            Ok(_) => {
                proof {
                    assert(follows(loaded, region@, seq![tie], None));
                    lemma_in_turn(before, loaded, region@, plan, seq![tie], None);
                }
                Ok((source, StateWord(var)))
            },
            Err(error) => {
                proof {
                    assert(region@.drop_last() =~= loaded);
                    assert(follows(loaded, region@, seq![tie], Some(error)));
                    lemma_in_turn(before, loaded, region@, plan, seq![tie], Some(error));
                    let words = (var, source);
                    assert(tie == (Request::Equal {
                        left: assigned_cell(words.0),
                        right: assigned_cell(words.1),
                    }));
                    assert(follows(
                        before,
                        region@,
                        plan.push(
                            Request::Equal {
                                left: assigned_cell(words.0),
                                right: assigned_cell(words.1),
                            },
                        ),
                        Some(error),
                    ));
                }
                Err(ChipError::Refused(error))
            },
        }
    }

    /// Assigns the state that absorbing leads to.
    fn assign_output(
        region: &mut ChipRegion<'_, '_>,
        config: &Pow5Config<WIDTH, RATE>,
        initial_state: &[StateWord; WIDTH],
        input: &Vec<StateWord>,
    ) -> (r: Result<[StateWord; WIDTH], ChipError>)
        ensures
            follows(
                old(region)@,
                final(region)@,
                config.output_plan(config.output_values(values(initial_state@), values(input@))),
                refusal(r),
            ),
            keeps_reach(*old(region), *final(region)),
            r matches Ok(state) ==> {
                &&& all_settled_on(
                    state@,
                    config.output_values(values(initial_state@), values(input@)),
                )
                &&& lies(final(region)@, cells(state@), config.state@, 2)
                &&& all_within_reach(*final(region), cells(state@))
            },
    {
        let ghost before = region@;
        let ghost output_values = config.output_values(values(initial_state@), values(input@));
        let ghost plan = config.output_plan(output_values);
        let mut output: Vec<StateWord> = Vec::new();
        proof {
            lemma_nothing_yet(before, plan);
        }
        for i in 0..WIDTH
            invariant
                output_values == config.output_values(values(initial_state@), values(input@)),
                plan == config.output_plan(output_values),
                before == old(region)@,
                keeps_reach(*old(region), *region),
                follows(before, region@, plan.take(i as int), None),
                output@.len() == i,
                got_words(region@, before.len() as int, cells(output@), config.state@, 2),
                all_within_reach(*region, cells(output@)),
                forall|k: int|
                    0 <= k < i ==> (#[trigger] output@[k]).0.settled(Some(output_values[k])),
        {
            let ghost between = region@;
            let ghost reached = *region;
            let initial = match word_value(&initial_state[i].0) {
                Some(value) => value,
                None => Felt::zero(),
            };
            // The capacity element is never altered by the input.
            let added = if i < input.len() {
                match word_value(&input[i].0) {
                    Some(value) => value,
                    None => Felt::zero(),
                }
            } else {
                Felt::zero()
            };
            let value = initial.plus(&added);
            assert(value@ == output_values[i as int]);
            let label = label_indexed("load output_", i);
            let outcome = advice_cell(region, label.as_str(), config.state[i], 2, Some(value));
            proof {
                lemma_next(before, between, region@, plan, i as int, refusal(outcome));
            }
            match outcome {
                Ok(var) => {
                    proof {
                        lemma_one_more_word(
                            between,
                            region@,
                            before.len() as int,
                            output@,
                            StateWord(var),
                            config.state@,
                            2,
                        );
                        lemma_one_more_within_reach(reached, *region, output@, StateWord(var));
                    }
                    output.push(StateWord(var));
                },
                Err(error) => return Err(error),
            }
        }
        proof {
            lemma_all_done(before, region@, plan);
        }
        Ok(into_array(output))
    }

    /// Lays out the absorbing of `input` into `initial_state`: the state on the first row, the
    /// input below it, and their sum below that.
    pub fn add_input(
        &self,
        region: &mut ChipRegion<'_, '_>,
        initial_state: &[StateWord; WIDTH],
        input: &Absorbing<RATE>,
    ) -> (r: Result<[StateWord; WIDTH], ChipError>)
        requires
            self.config.well_formed(),
            input.padded(),
            all_within_reach(*old(region), cells(initial_state@)),
            input.within_reach_of(*old(region)),
        ensures
            match r {
                Ok(state) => {
                    &&& exists|trace: InputTrace|
                        {
                            &&& #[trigger] self.config.absorbed(
                                initial_state@,
                                *input,
                                trace,
                                old(region)@,
                                final(region)@,
                                None,
                            )
                            &&& all_settled_on(
                                state@,
                                self.config.output_values(
                                    values(trace.loaded->0),
                                    values(trace.inputs),
                                ),
                            )
                        }
                    &&& lies(final(region)@, cells(state@), self.config.state@, 2)
                    &&& all_within_reach(*final(region), cells(state@))
                },
                Err(error) => exists|trace: InputTrace| #[trigger]
                    self.config.absorbed(
                        initial_state@,
                        *input,
                        trace,
                        old(region)@,
                        final(region)@,
                        refused(error),
                    ),
            },
            keeps_reach(*old(region), *final(region)),
    {
        let config = self.config();
        let ghost before = region@;
        let ghost enable = config.enable_input_plan();
        let ghost load = load_plan(*config, cells(initial_state@));
        let ghost none = Seq::<Request>::empty();
        let ghost any_tie = arbitrary::<(AssignedWord, AssignedWord)>();
        let ghost mut sources: Seq<AssignedWord> = Seq::empty();
        let mut inputs: Vec<StateWord> = Vec::new();
        match fixed_cell(region, "s_pad_and_add", config.s_pad_and_add, 1, Felt::one()) {
            Ok(_) => {},
            Err(error) => {
                proof {
                    let trace = InputTrace {
                        loaded: None,
                        sources,
                        inputs: inputs@,
                        pending: any_tie,
                    };
                    lemma_cut_short(before, region@, enable, load + none, refused(error));
                    assert(region@.last().request == enable[0]);
                    assert(config.absorbed(
                        initial_state@,
                        *input,
                        trace,
                        before,
                        region@,
                        refused(error),
                    ));
                }
                return Err(error);
            },
        }
        let ghost enabled = region@;
        // Load the initial state into this region.
        let loaded = match Pow5State::load(region, config, initial_state) {
            Ok(loaded) => loaded.0,
            Err(error) => {
                proof {
                    let trace = InputTrace {
                        loaded: None,
                        sources,
                        inputs: inputs@,
                        pending: any_tie,
                    };
                    assert(region@.last().request == load[region@.len() - 1 - enabled.len()]);
                    lemma_cut_short(enabled, region@, load, none, refused(error));
                    lemma_in_turn(before, enabled, region@, enable, load + none, refused(error));
                    assert(config.absorbed(
                        initial_state@,
                        *input,
                        trace,
                        before,
                        region@,
                        refused(error),
                    ));
                }
                return Err(error);
            },
        };
        let ghost placed = region@;
        let ghost from = before.len() as int + 1 + WIDTH;
        // Load the input into this region.
        for i in 0..RATE
            invariant
                *config == self.config,
                config.well_formed(),
                input.padded(),
                input.within_reach_of(*old(region)),
                keeps_reach(*old(region), *region),
                before == old(region)@,
                enable == config.enable_input_plan(),
                load == load_plan(*config, cells(initial_state@)),
                follows(before, enabled, enable, None),
                follows(enabled, placed, load, None),
                from == before.len() + 1 + WIDTH,
                from == placed.len(),
                all_settled(loaded@, values(initial_state@)),
                got_words(placed, before.len() as int + 1, cells(loaded@), config.state@, 0),
                inputs@.len() == i,
                config.words_tied(*input, sources, inputs@, region@, from),
                follows(
                    placed,
                    region@,
                    config.words_plan(*input, sources, inputs@, i as nat),
                    None,
                ),
        {
            let ghost reached = region@;
            let ghost done = config.words_plan(*input, sources, inputs@, i as nat);
            assert(input.0@[i as int] is Some);
            let word = input.0[i].as_ref().unwrap();
            let ghost word_plan = config.word_plan(*word, i as nat);
            proof {
                config.lemma_words_plan_len(*input, sources, inputs@, i as nat);
            }
            match Self::load_input_word(region, config, word, i) {
                Ok((source, var)) => {
                    proof {
                        let tied = word_plan.push(
                            Request::Equal {
                                left: assigned_cell(var.0),
                                right: assigned_cell(source),
                            },
                        );
                        lemma_history_stays(reached, region@, tied, None);
                        lemma_in_turn(placed, reached, region@, done, tied, None);
                        config.lemma_words_plan_agrees(
                            *input,
                            sources,
                            inputs@,
                            source,
                            var,
                            i as nat,
                        );
                        config.lemma_words_stay_tied(
                            *input,
                            sources,
                            inputs@,
                            reached,
                            region@,
                            from,
                        );
                        config.lemma_one_more_tied(
                            *input,
                            sources,
                            inputs@,
                            source,
                            var,
                            region@,
                            from,
                        );
                        assert(config.words_plan(
                            *input,
                            sources.push(source),
                            inputs@.push(var),
                            (i + 1) as nat,
                        ) =~= done + tied);
                        sources = sources.push(source);
                    }
                    inputs.push(var);
                },
                Err(error) => {
                    proof {
                        let tie = choose|tie: (AssignedWord, AssignedWord)|
                            {
                                &&& #[trigger] follows(
                                    reached,
                                    region@,
                                    word_plan.push(
                                        Request::Equal { left: assigned_cell(tie.0), right: assigned_cell(tie.1) },
                                    ),
                                    refused(error),
                                )
                                &&& region@.last().request is Equal ==> config.word_ties(
                                    region@,
                                    region@.len() - 1,
                                    *word,
                                    i as int,
                                    tie.0,
                                    tie.1,
                                )
                            };
                        let trace = InputTrace {
                            loaded: Some(loaded@),
                            sources,
                            inputs: inputs@,
                            pending: tie,
                        };
                        let tied = word_plan.push(Request::Equal { left: assigned_cell(tie.0), right: assigned_cell(tie.1) });
                        let rest = done + tied;
                        lemma_history_stays(reached, region@, tied, refused(error));
                        lemma_history_stays(placed, reached, done, None);
                        config.lemma_words_stay_tied(
                            *input,
                            sources,
                            inputs@,
                            reached,
                            region@,
                            from,
                        );
                        lemma_words_still_there(
                            placed,
                            region@,
                            before.len() as int + 1,
                            cells(loaded@),
                            config.state@,
                            0,
                        );
                        lemma_in_turn(placed, reached, region@, done, tied, refused(error));
                        lemma_in_turn(enabled, placed, region@, load, rest, refused(error));
                        lemma_in_turn(
                            before,
                            enabled,
                            region@,
                            enable,
                            load + rest,
                            refused(error),
                        );
                        assert(config.absorbed(
                            initial_state@,
                            *input,
                            trace,
                            before,
                            region@,
                            refused(error),
                        ));
                    }
                    return Err(error);
                },
            }
        }
        let ghost reached = region@;
        // Constrain the output.
        let r = Self::assign_output(region, config, &loaded, &inputs);
        proof {
            let trace = InputTrace {
                loaded: Some(loaded@),
                sources,
                inputs: inputs@,
                pending: any_tie,
            };
            let done = config.words_plan(*input, sources, inputs@, RATE as nat);
            let output = config.output_plan(
                config.output_values(values(loaded@), values(inputs@)),
            );
            let rest = done + output;
            lemma_history_stays(reached, region@, output, refusal(r));
            lemma_history_stays(placed, reached, done, None);
            config.lemma_words_stay_tied(*input, sources, inputs@, reached, region@, from);
            lemma_words_still_there(
                placed,
                region@,
                before.len() as int + 1,
                cells(loaded@),
                config.state@,
                0,
            );
            lemma_in_turn(placed, reached, region@, done, output, refusal(r));
            lemma_in_turn(enabled, placed, region@, load, rest, refusal(r));
            lemma_in_turn(before, enabled, region@, enable, load + rest, refusal(r));
            assert(config.absorbed(
                initial_state@,
                *input,
                trace,
                before,
                region@,
                refusal(r),
            ));
        }
        r
    }

    /// The output of a sponge: all words of its state but the capacity element.
    pub fn get_output(state: &[StateWord; WIDTH]) -> (r: Squeezing<RATE>)
        requires
            RATE <= WIDTH,
        ensures
            r.0@ == Seq::new(RATE as nat, |i: int| Some(state@[i])),
    {
        let mut output: Vec<Option<StateWord>> = Vec::new();
        for i in 0..RATE
            invariant
                RATE <= WIDTH,
                output@.len() == i,
                forall|k: int| 0 <= k < i ==> #[trigger] output@[k] == Some(state@[k]),
        {
            output.push(Some(state[i].clone()));
        }
        assert(output@ =~= Seq::new(RATE as nat, |i: int| Some(state@[i])));
        Squeezing(into_array(output))
    }
}

} // verus!
