//! The state of the permutation inside a region, and the rows that lead from one state to the
//! next.
use crate::array::into_array;
use crate::column::{AdviceColumn, AnyColumn, FixedColumn};
use crate::config::Pow5Config;
use crate::field::{le_limbs, Felt};
use crate::label::{label_indexed, label_of_round, label_of_round_indexed};
use crate::linear::{dot, mat_vec, matrix, residues};
use crate::permutation::{add_constants, partial_round, sbox, sbox_all, sbox_first};
use crate::plan::{
    all_within_reach, entry, follows, got, got_words, known, lies, load_plan, plus,
};
use crate::plan::{
    lemma_all_done, lemma_cut_short, lemma_in_turn, lemma_next, lemma_nothing_yet,
};
use crate::region::{
    assign_advice, assign_constant, assign_fixed, assigned_cell, copy_advice, keeps_reach, refusal,
    refused, residue, within_reach, word_value,
};
use crate::region::{AssignedWord, ChipError, ChipRegion, Event, Request};
use vstd::prelude::*;

verus! {

/// A word in the Poseidon state.
#[derive(Debug)]
pub struct StateWord(pub AssignedWord);

impl Clone for StateWord {
    fn clone(&self) -> (r: Self)
        ensures
            r == *self,
    {
        StateWord(self.0.clone())
    }
}

impl From<StateWord> for AssignedWord {
    fn from(state_word: StateWord) -> (r: AssignedWord) {
        state_word.0
    }
}

impl vstd::std_specs::convert::FromSpecImpl<StateWord> for AssignedWord {
    open spec fn obeys_from_spec() -> bool {
        true
    }

    open spec fn from_spec(state_word: StateWord) -> AssignedWord {
        state_word.0
    }
}

impl From<AssignedWord> for StateWord {
    fn from(cell_value: AssignedWord) -> (r: StateWord) {
        StateWord(cell_value)
    }
}

impl vstd::std_specs::convert::FromSpecImpl<AssignedWord> for StateWord {
    open spec fn obeys_from_spec() -> bool {
        true
    }

    open spec fn from_spec(cell_value: AssignedWord) -> StateWord {
        StateWord(cell_value)
    }
}

/// The cells of a state.
pub open spec fn cells(words: Seq<StateWord>) -> Seq<AssignedWord> {
    Seq::new(words.len(), |i: int| words[i].0)
}

/// The values of a state, as far as they are known.
pub open spec fn values(words: Seq<StateWord>) -> Seq<Option<int>> {
    Seq::new(words.len(), |i: int| words[i].0.value())
}

/// Every word holds the value that was requested for it, unless its value is not known.
pub open spec fn all_settled(words: Seq<StateWord>, requested: Seq<Option<int>>) -> bool {
    &&& words.len() == requested.len()
    &&& forall|i: int| 0 <= i < words.len() ==> (#[trigger] words[i]).0.settled(requested[i])
}

/// Every word holds the value that was requested for it, unless its value is not known.
pub open spec fn all_settled_on(words: Seq<StateWord>, requested: Seq<int>) -> bool {
    &&& words.len() == requested.len()
    &&& forall|i: int|
        0 <= i < words.len() ==> (#[trigger] words[i]).0.settled(Some(requested[i]))
}

/// The values of a state, if all of them are known.
fn known_values<const WIDTH: usize>(words: &[StateWord; WIDTH]) -> (r: Option<Vec<Felt>>)
    ensures
        match r {
            Some(p) => known(values(words@)) == Some(residues(p@)),
            None => known(values(words@)) is None,
        },
{
    let mut p: Vec<Felt> = Vec::new();
    for i in 0..WIDTH
        invariant
            p@.len() == i,
            forall|k: int| 0 <= k < i ==> values(words@)[k] == Some((#[trigger] p@[k])@),
    {
        match word_value(&words[i].0) {
            Some(value) => p.push(value),
            None => {
                assert(values(words@)[i as int] is None);
                return None;
            },
        }
    }
    proof {
        assert forall|k: int| 0 <= k < WIDTH implies #[trigger] values(words@)[k] is Some by {
            assert(values(words@)[k] == Some(p@[k]@));
        }
        assert(known(values(words@))->0 =~= residues(p@));
    }
    Some(p)
}

/// The sum of a state and the constants of a round.
fn sums<const WIDTH: usize>(p: &Vec<Felt>, constants: &[Felt; WIDTH]) -> (r: Vec<Felt>)
    requires
        p@.len() == WIDTH,
    ensures
        residues(r@) == add_constants(residues(p@), residues(constants@)),
        r@.len() == WIDTH,
{
    let mut r: Vec<Felt> = Vec::new();
    for i in 0..WIDTH
        invariant
            p@.len() == WIDTH,
            r@.len() == i,
            forall|k: int|
                0 <= k < i ==> (#[trigger] r@[k])@ == add_constants(
                    residues(p@),
                    residues(constants@),
                )[k],
    {
        r.push(p[i].plus(&constants[i]));
    }
    assert(residues(r@) =~= add_constants(residues(p@), residues(constants@)));
    r
}

/// The S-box on every word of a state.
fn powers(q: &Vec<Felt>, alpha: &[u64; 4]) -> (r: Vec<Felt>)
    requires
        le_limbs(*alpha) == 5,
    ensures
        residues(r@) == sbox_all(residues(q@)),
        r@.len() == q@.len(),
{
    let mut r: Vec<Felt> = Vec::new();
    let n: usize = q.len();
    for i in 0..n
        invariant
            le_limbs(*alpha) == 5,
            n == q@.len(),
            r@.len() == i,
            forall|k: int| 0 <= k < i ==> (#[trigger] r@[k])@ == sbox(q@[k]@),
    {
        r.push(q[i].pow(alpha));
    }
    assert(residues(r@) =~= sbox_all(residues(q@)));
    r
}

/// The S-box on the first word of a state.
fn first_power(q: &Vec<Felt>, alpha: &[u64; 4]) -> (r: Vec<Felt>)
    requires
        q@.len() > 0,
        le_limbs(*alpha) == 5,
    ensures
        residues(r@) == sbox_first(residues(q@)),
        r@.len() == q@.len(),
{
    let mut r: Vec<Felt> = Vec::new();
    r.push(q[0].pow(alpha));
    let n: usize = q.len();
    for i in 1..n
        invariant
            n == q@.len(),
            r@.len() == i,
            r@[0]@ == sbox(q@[0]@),
            forall|k: int| 1 <= k < i ==> #[trigger] r@[k] == q@[k],
    {
        r.push(q[i]);
    }
    assert(residues(r@) =~= sbox_first(residues(q@)));
    r
}

/// The product of a row of the mixing matrix and a state.
fn mixed_word<const WIDTH: usize>(m_i: &[Felt; WIDTH], r: &Vec<Felt>) -> (word: Felt)
    requires
        r@.len() == WIDTH,
    ensures
        word@ == dot(residues(m_i@), residues(r@), WIDTH as nat),
{
    let mut acc: Felt = Felt::zero();
    for j in 0..WIDTH
        invariant
            r@.len() == WIDTH,
            acc@ == dot(residues(m_i@), residues(r@), j as nat),
    {
        acc = acc.plus(&m_i[j].times(&r[j]));
    }
    acc
}

/// The product of the mixing matrix and a state.
fn mixed<const WIDTH: usize>(m: &[[Felt; WIDTH]; WIDTH], r: &Vec<Felt>) -> (state: Vec<Felt>)
    requires
        r@.len() == WIDTH,
    ensures
        residues(state@) == mat_vec(matrix(*m), residues(r@)),
        state@.len() == WIDTH,
{
    let mut state: Vec<Felt> = Vec::new();
    for i in 0..WIDTH
        invariant
            r@.len() == WIDTH,
            state@.len() == i,
            forall|k: int|
                0 <= k < i ==> (#[trigger] state@[k])@ == mat_vec(matrix(*m), residues(r@))[k],
    {
        state.push(mixed_word(&m[i], r));
    }
    assert(residues(state@) =~= mat_vec(matrix(*m), residues(r@)));
    state
}

/// A state of zeros.
fn zeros(n: usize) -> (r: Vec<Felt>)
    ensures
        residues(r@) == Seq::new(n as nat, |i: int| 0int),
        r@.len() == n,
{
    let mut r: Vec<Felt> = Vec::new();
    for i in 0..n
        invariant
            r@.len() == i,
            forall|k: int| 0 <= k < i ==> (#[trigger] r@[k])@ == 0,
    {
        r.push(Felt::zero());
    }
    assert(residues(r@) =~= Seq::new(n as nat, |i: int| 0int));
    r
}

/// The rounds that a row holds.
#[derive(Clone, Copy, Debug)]
pub enum RowKind {
    /// One full round.
    Full,
    /// Two partial rounds.
    Partial,
}

impl<const WIDTH: usize, const RATE: usize> Pow5Config<WIDTH, RATE> {
    /// The requests for a row that starts from `values`.
    pub open spec fn kind_plan(
        self,
        kind: RowKind,
        round: nat,
        offset: nat,
        values: Seq<Option<int>>,
    ) -> Seq<Request> {
        match kind {
            RowKind::Full => self.full_plan(round, offset, values),
            RowKind::Partial => self.partial_plan(round, offset, values),
        }
    }

    /// The state that a row leads to from `values`.
    pub open spec fn after_kind(
        self,
        kind: RowKind,
        round: nat,
        values: Seq<Option<int>>,
    ) -> Seq<int> {
        match kind {
            RowKind::Full => self.after_full(round, values),
            RowKind::Partial => self.after_partials(round, values),
        }
    }
}

/// Assigns one advice cell.
pub(crate) fn advice_cell(
    region: &mut ChipRegion<'_, '_>,
    label: &str,
    column: AdviceColumn,
    offset: usize,
    value: Option<Felt>,
) -> (r: Result<AssignedWord, ChipError>)
    requires
        offset < usize::MAX,
    ensures
        follows(
            old(region)@,
            final(region)@,
            seq![
                Request::Advice {
                    label: label@,
                    column,
                    offset: offset as nat,
                    value: residue(value),
                },
            ],
            refusal(r),
        ),
        keeps_reach(*old(region), *final(region)),
        r matches Ok(word) ==> {
            &&& word.settled(residue(value))
            &&& got(
                final(region)@.last(),
                AnyColumn::Advice(column),
                offset as nat,
                word,
            )
            &&& within_reach(*final(region), assigned_cell(word))
        },
{
    match assign_advice(region, label, column, offset, value) {
        Ok(word) => Ok(word),
        Err(error) => {
            assert(region@.drop_last() =~= old(region)@);
            Err(ChipError::Refused(error))
        },
    }
}

/// Assigns one fixed cell.
pub(crate) fn fixed_cell(
    region: &mut ChipRegion<'_, '_>,
    label: &str,
    column: FixedColumn,
    offset: usize,
    value: Felt,
) -> (r: Result<AssignedWord, ChipError>)
    requires
        offset < usize::MAX,
    ensures
        follows(
            old(region)@,
            final(region)@,
            seq![Request::Fixed { label: label@, column, offset: offset as nat, value: value@ }],
            refusal(r),
        ),
        keeps_reach(*old(region), *final(region)),
        r matches Ok(word) ==> {
            &&& word.settled(Some(value@))
            &&& got(
                final(region)@.last(),
                AnyColumn::Fixed(column),
                offset as nat,
                word,
            )
            &&& within_reach(*final(region), assigned_cell(word))
        },
{
    match assign_fixed(region, label, column, offset, value) {
        Ok(word) => Ok(word),
        Err(error) => {
            assert(region@.drop_last() =~= old(region)@);
            Err(ChipError::Refused(error))
        },
    }
}

/// Assigns one advice cell and ties it to a constant.
pub(crate) fn constant_cell(
    region: &mut ChipRegion<'_, '_>,
    label: &str,
    column: AdviceColumn,
    offset: usize,
    value: Felt,
) -> (r: Result<AssignedWord, ChipError>)
    requires
        offset < usize::MAX,
    ensures
        follows(
            old(region)@,
            final(region)@,
            seq![
                Request::Constant { label: label@, column, offset: offset as nat, value: value@ },
            ],
            refusal(r),
        ),
        keeps_reach(*old(region), *final(region)),
        r matches Ok(word) ==> {
            &&& word.value() == Some(value@)
            &&& got(
                final(region)@.last(),
                AnyColumn::Advice(column),
                offset as nat,
                word,
            )
            &&& within_reach(*final(region), assigned_cell(word))
        },
{
    match assign_constant(region, label, column, offset, value) {
        Ok(word) => Ok(word),
        Err(error) => {
            assert(region@.drop_last() =~= old(region)@);
            Err(ChipError::Refused(error))
        },
    }
}

/// Assigns one advice cell the value of another cell and ties the two together.
fn copied_cell(
    source: &AssignedWord,
    region: &mut ChipRegion<'_, '_>,
    label: &str,
    column: AdviceColumn,
    offset: usize,
) -> (r: Result<AssignedWord, ChipError>)
    requires
        offset < usize::MAX,
        within_reach(*old(region), assigned_cell(*source)),
    ensures
        follows(
            old(region)@,
            final(region)@,
            seq![
                Request::Copy { label: label@, source: *source, column, offset: offset as nat },
            ],
            refusal(r),
        ),
        keeps_reach(*old(region), *final(region)),
        r matches Ok(word) ==> {
            &&& word.settled(source.value())
            &&& got(
                final(region)@.last(),
                AnyColumn::Advice(column),
                offset as nat,
                word,
            )
            &&& within_reach(*final(region), assigned_cell(word))
        },
{
    match copy_advice(source, region, label, column, offset) {
        Ok(word) => Ok(word),
        Err(error) => {
            assert(region@.drop_last() =~= old(region)@);
            Err(ChipError::Refused(error))
        },
    }
}

/// The state of the permutation on a row of a region.
#[derive(Debug)]
pub struct Pow5State<const WIDTH: usize>(pub [StateWord; WIDTH]);

impl<const WIDTH: usize> Pow5State<WIDTH> {
    /// Copies a state into the first row of a region.
    pub fn load<const RATE: usize>(
        region: &mut ChipRegion<'_, '_>,
        config: &Pow5Config<WIDTH, RATE>,
        initial_state: &[StateWord; WIDTH],
    ) -> (r: Result<Self, ChipError>)
        requires
            all_within_reach(*old(region), cells(initial_state@)),
        ensures
            follows(
                old(region)@,
                final(region)@,
                load_plan(*config, cells(initial_state@)),
                refusal(r),
            ),
            keeps_reach(*old(region), *final(region)),
            r matches Ok(state) ==> {
                &&& all_settled(state.0@, values(initial_state@))
                &&& lies(final(region)@, cells(state.0@), config.state@, 0)
                &&& all_within_reach(*final(region), cells(state.0@))
            },
    {
        let ghost before = region@;
        let ghost plan = load_plan(*config, cells(initial_state@));
        let mut state: Vec<StateWord> = Vec::new();
        proof {
            lemma_nothing_yet(before, plan);
        }
        for i in 0..WIDTH
            invariant
                plan == load_plan(*config, cells(initial_state@)),
                before == old(region)@,
                all_within_reach(*old(region), cells(initial_state@)),
                keeps_reach(*old(region), *region),
                follows(before, region@, plan.take(i as int), None),
                state@.len() == i,
                got_words(region@, before.len() as int, cells(state@), config.state@, 0),
                all_within_reach(*region, cells(state@)),
                forall|k: int|
                    0 <= k < i ==> (#[trigger] state@[k]).0.settled(initial_state@[k].0.value()),
        {
            let ghost between = region@;
            let ghost reached = *region;
            let label = label_indexed("load state_", i);
            assert(within_reach(*old(region), assigned_cell(cells(initial_state@)[i as int])));
            let outcome = copied_cell(
                &initial_state[i].0,
                region,
                label.as_str(),
                config.state[i],
                0,
            );
            proof {
                lemma_next(before, between, region@, plan, i as int, refusal(outcome));
            }
            match outcome {
                Ok(var) => {
                    proof {
                        lemma_one_more_word(
                            between,
                            region@,
                            before.len() as int,
                            state@,
                            StateWord(var),
                            config.state@,
                            0,
                        );
                        lemma_one_more_within_reach(reached, *region, state@, StateWord(var));
                    }
                    state.push(StateWord(var));
                },
                Err(error) => return Err(error),
            }
        }
        proof {
            lemma_all_done(before, region@, plan);
        }
        Ok(Pow5State(into_array(state)))
    }

    /// Loads the constants of a round.
    fn load_round_constants<const RATE: usize>(
        region: &mut ChipRegion<'_, '_>,
        config: &Pow5Config<WIDTH, RATE>,
        columns: &[FixedColumn; WIDTH],
        round: usize,
        offset: usize,
    ) -> (r: Result<(), ChipError>)
        requires
            round < config.round_constants@.len(),
            offset < usize::MAX,
        ensures
            follows(
                old(region)@,
                final(region)@,
                config.constants_plan(columns@, round as nat, offset as nat),
                refusal(r),
            ),
            keeps_reach(*old(region), *final(region)),
    {
        let ghost before = region@;
        let ghost plan = config.constants_plan(columns@, round as nat, offset as nat);
        proof {
            lemma_nothing_yet(before, plan);
        }
        for i in 0..WIDTH
            invariant
                round < config.round_constants@.len(),
                offset < usize::MAX,
                plan == config.constants_plan(columns@, round as nat, offset as nat),
                before == old(region)@,
                keeps_reach(*old(region), *region),
                follows(before, region@, plan.take(i as int), None),
        {
            let ghost between = region@;
            let label = label_of_round_indexed(round, " rc_", i);
            let outcome = fixed_cell(
                region,
                label.as_str(),
                columns[i],
                offset,
                config.round_constants[round][i],
            );
            proof {
                lemma_next(before, between, region@, plan, i as int, refusal(outcome));
            }
            match outcome {
                Ok(_) => {},
                Err(error) => return Err(error),
            }
        }
        proof {
            lemma_all_done(before, region@, plan);
        }
        Ok(())
    }

    /// Assigns the state that a row leads to.
    fn next_state<const RATE: usize>(
        region: &mut ChipRegion<'_, '_>,
        config: &Pow5Config<WIDTH, RATE>,
        next_round: usize,
        offset: usize,
        next: &Vec<Felt>,
    ) -> (r: Result<Self, ChipError>)
        requires
            next@.len() == WIDTH,
            offset < usize::MAX,
        ensures
            follows(
                old(region)@,
                final(region)@,
                config.next_plan(next_round as nat, offset as nat, residues(next@)),
                refusal(r),
            ),
            keeps_reach(*old(region), *final(region)),
            r matches Ok(state) ==> {
                &&& all_settled_on(state.0@, residues(next@))
                &&& lies(final(region)@, cells(state.0@), config.state@, offset as nat)
                &&& all_within_reach(*final(region), cells(state.0@))
            },
    {
        let ghost before = region@;
        let ghost plan = config.next_plan(next_round as nat, offset as nat, residues(next@));
        let mut state: Vec<StateWord> = Vec::new();
        proof {
            lemma_nothing_yet(before, plan);
        }
        for i in 0..WIDTH
            invariant
                next@.len() == WIDTH,
                offset < usize::MAX,
                plan == config.next_plan(next_round as nat, offset as nat, residues(next@)),
                before == old(region)@,
                keeps_reach(*old(region), *region),
                follows(before, region@, plan.take(i as int), None),
                state@.len() == i,
                got_words(
                    region@,
                    before.len() as int,
                    cells(state@),
                    config.state@,
                    offset as nat,
                ),
                all_within_reach(*region, cells(state@)),
                forall|k: int|
                    0 <= k < i ==> (#[trigger] state@[k]).0.settled(Some(residues(next@)[k])),
        {
            let ghost between = region@;
            let ghost reached = *region;
            let label = label_of_round_indexed(next_round, " state_", i);
            let outcome = advice_cell(
                region,
                label.as_str(),
                config.state[i],
                offset,
                Some(next[i]),
            );
            proof {
                lemma_next(before, between, region@, plan, i as int, refusal(outcome));
            }
            match outcome {
                Ok(var) => {
                    proof {
                        lemma_one_more_word(
                            between,
                            region@,
                            before.len() as int,
                            state@,
                            StateWord(var),
                            config.state@,
                            offset as nat,
                        );
                        lemma_one_more_within_reach(reached, *region, state@, StateWord(var));
                    }
                    state.push(StateWord(var));
                },
                Err(error) => return Err(error),
            }
        }
        proof {
            lemma_all_done(before, region@, plan);
        }
        Ok(Pow5State(into_array(state)))
    }
}

/// One more word of a state was assigned.
pub(crate) proof fn lemma_one_more_word(
    between: Seq<Event>,
    after: Seq<Event>,
    from: int,
    words: Seq<StateWord>,
    word: StateWord,
    columns: Seq<AdviceColumn>,
    offset: nat,
)
    requires
        got_words(between, from, cells(words), columns, offset),
        from + words.len() == between.len(),
        after.len() == between.len() + 1,
        forall|k: int| 0 <= k < between.len() ==> #[trigger] after[k] == between[k],
        got(
            after.last(),
            AnyColumn::Advice(columns[words.len() as int]),
            offset,
            word.0,
        ),
    ensures
        got_words(after, from, cells(words.push(word)), columns, offset),
{
    let more = cells(words.push(word));
    assert forall|i: int| 0 <= i < more.len() implies got(
        after[from + i],
        AnyColumn::Advice(columns[i]),
        offset,
        #[trigger] more[i],
    ) by {
        if i < words.len() {
            assert(more[i] == cells(words)[i]);
        }
    }
}

/// One more word of a state is within reach.
pub(crate) proof fn lemma_one_more_within_reach(
    before: ChipRegion<'_, '_>,
    after: ChipRegion<'_, '_>,
    words: Seq<StateWord>,
    word: StateWord,
)
    requires
        keeps_reach(before, after),
        all_within_reach(before, cells(words)),
        within_reach(after, assigned_cell(word.0)),
    ensures
        all_within_reach(after, cells(words.push(word))),
{
    let more = cells(words.push(word));
    assert forall|i: int| 0 <= i < more.len() implies within_reach(
        after,
        assigned_cell(#[trigger] more[i]),
    ) by {
        if i < words.len() {
            assert(more[i] == cells(words)[i]);
        }
    }
}

impl<const WIDTH: usize> Pow5State<WIDTH> {
    /// Assigns the cells inside a row of the full round `round`, and computes the state that the
    /// row leads to.
    fn full_round_cells<const RATE: usize>(
        &self,
        region: &mut ChipRegion<'_, '_>,
        config: &Pow5Config<WIDTH, RATE>,
        round: usize,
        offset: usize,
    ) -> (r: Result<Vec<Felt>, ChipError>)
        requires
            config.well_formed(),
            round < config.round_constants@.len(),
            offset < usize::MAX,
        ensures
            follows(
                old(region)@,
                final(region)@,
                config.full_body_plan(round as nat, offset as nat, values(self.0@)),
                refusal(r),
            ),
            keeps_reach(*old(region), *final(region)),
            r matches Ok(next) ==> residues(next@) == config.after_full(
                round as nat,
                values(self.0@),
            ) && next@.len() == WIDTH,
    {
        let ghost before = region@;
        let ghost plan = config.full_body_plan(round as nat, offset as nat, values(self.0@));
        let ghost q = config.with_constants(round as nat, values(self.0@));
        let state_rc_a = match known_values(&self.0) {
            Some(p) => Some(sums(&p, &config.round_constants[round])),
            None => None,
        };
        proof {
            lemma_nothing_yet(before, plan);
        }
        for i in 0..WIDTH
            invariant
                round < config.round_constants@.len(),
                offset < usize::MAX,
                q == config.with_constants(round as nat, values(self.0@)),
                match state_rc_a {
                    Some(v) => v@.len() == WIDTH && q == Some(residues(v@)),
                    None => q is None,
                },
                plan == config.full_body_plan(round as nat, offset as nat, values(self.0@)),
                before == old(region)@,
                keeps_reach(*old(region), *region),
                follows(before, region@, plan.take(2 * i), None),
        {
            let ghost between = region@;
            let value = match &state_rc_a {
                Some(v) => Some(v[i]),
                None => None,
            };
            assert(residue(value) == entry(q, i as int));
            let label = label_of_round(round, " state_rc_a");
            let outcome = advice_cell(
                region,
                label.as_str(),
                config.state_rc_a[i],
                offset,
                value,
            );
            proof {
                lemma_next(before, between, region@, plan, 2 * i, refusal(outcome));
            }
            match outcome {
                Ok(_) => {},
                Err(error) => return Err(error),
            }
            let ghost between = region@;
            let square = match &value {
                Some(v) => Some(v.square()),
                None => None,
            };
            let label = label_of_round(round, " state_rc_a_sqr");
            let outcome = advice_cell(
                region,
                label.as_str(),
                config.state_rc_a_sqr[i],
                offset,
                square,
            );
            proof {
                lemma_next(before, between, region@, plan, 2 * i + 1, refusal(outcome));
            }
            match outcome {
                Ok(_) => {},
                Err(error) => return Err(error),
            }
        }
        proof {
            lemma_all_done(before, region@, plan);
        }
        match state_rc_a {
            Some(q) => Ok(mixed(&config.m_reg, &powers(&q, &config.alpha))),
            None => Ok(zeros(WIDTH)),
        }
    }

    /// Assigns the cells that hold the inputs of the two S-boxes of a row, and their squares.
    fn helper_cells<const RATE: usize>(
        region: &mut ChipRegion<'_, '_>,
        config: &Pow5Config<WIDTH, RATE>,
        round: usize,
        offset: usize,
        helper: Option<Felt>,
        first: Option<Felt>,
    ) -> (r: Result<(), ChipError>)
        requires
            offset < usize::MAX,
        ensures
            follows(
                old(region)@,
                final(region)@,
                config.sbox_inputs_plan(
                    round as nat,
                    offset as nat,
                    residue(helper),
                    residue(first),
                ),
                refusal(r),
            ),
            keeps_reach(*old(region), *final(region)),
    {
        let ghost before = region@;
        let ghost plan = config.sbox_inputs_plan(
            round as nat,
            offset as nat,
            residue(helper),
            residue(first),
        );
        let helper_square = match &helper {
            Some(x) => Some(x.square()),
            None => None,
        };
        let first_square = match &first {
            Some(x) => Some(x.square()),
            None => None,
        };
        let curr = label_of_round(round, " mid_0_helper_curr");
        let sqr_curr = label_of_round(round, " mid_0_helper_sqr_curr");
        proof {
            lemma_nothing_yet(before, plan);
        }
        let outcome = advice_cell(region, curr.as_str(), config.mid_0_helper, offset, helper);
        proof {
            lemma_next(before, before, region@, plan, 0, refusal(outcome));
        }
        match outcome {
            Ok(_) => {},
            Err(error) => return Err(error),
        }
        let ghost between = region@;
        let outcome = advice_cell(
            region,
            sqr_curr.as_str(),
            config.mid_0_helper_sqr,
            offset,
            helper_square,
        );
        proof {
            lemma_next(before, between, region@, plan, 1, refusal(outcome));
        }
        match outcome {
            Ok(_) => {},
            Err(error) => return Err(error),
        }
        let ghost between = region@;
        let outcome = advice_cell(region, curr.as_str(), config.cur_0_rc_a0, offset, first);
        proof {
            lemma_next(before, between, region@, plan, 2, refusal(outcome));
        }
        match outcome {
            Ok(_) => {},
            Err(error) => return Err(error),
        }
        let ghost between = region@;
        let outcome = advice_cell(
            region,
            sqr_curr.as_str(),
            config.cur_0_rc_a0_sqr,
            offset,
            first_square,
        );
        proof {
            lemma_next(before, between, region@, plan, 3, refusal(outcome));
        }
        match outcome {
            Ok(_) => {},
            Err(error) => return Err(error),
        }
        proof {
            lemma_all_done(before, region@, plan);
        }
        Ok(())
    }

    /// Assigns the cells inside a row of the partial rounds `round` and `round + 1`, and computes
    /// the state that the row leads to.
    fn partial_round_cells<const RATE: usize>(
        &self,
        region: &mut ChipRegion<'_, '_>,
        config: &Pow5Config<WIDTH, RATE>,
        round: usize,
        offset: usize,
    ) -> (r: Result<Vec<Felt>, ChipError>)
        requires
            config.well_formed(),
            round + 1 < config.round_constants@.len(),
            offset < usize::MAX,
        ensures
            follows(
                old(region)@,
                final(region)@,
                config.partial_body_plan(round as nat, offset as nat, values(self.0@)),
                refusal(r),
            ),
            keeps_reach(*old(region), *final(region)),
            r matches Ok(next) ==> residues(next@) == config.after_partials(
                round as nat,
                values(self.0@),
            ) && next@.len() == WIDTH,
    {
        let ghost before = region@;
        let ghost start = values(self.0@);
        let ghost sbox_plan = config.sbox_cell_plan(round as nat, offset as nat, start);
        let ghost constants_plan = config.constants_plan(
            config.rc_b@,
            round as nat + 1,
            offset as nat,
        );
        let ghost helper_plan = config.helper_cells_plan(round as nat, offset as nat, start);
        let r = match known_values(&self.0) {
            Some(p) => Some(first_power(&sums(&p, &config.round_constants[round]), &config.alpha)),
            None => None,
        };
        let r_0 = match &r {
            Some(r) => Some(r[0]),
            None => None,
        };
        let label = label_of_round(round, " partial_sbox");
        match advice_cell(region, label.as_str(), config.partial_sbox, offset, r_0) {
            Ok(_) => {},
            Err(error) => {
                proof {
                    lemma_cut_short(
                        before,
                        region@,
                        sbox_plan,
                        constants_plan + helper_plan,
                        refused(error),
                    );
                }
                return Err(error);
            },
        }
        let ghost assigned = region@;
        let p_mid = match &r {
            Some(r) => Some(mixed(&config.m_reg, r)),
            None => None,
        };
        assert(config.round_constants.len() <= usize::MAX);
        // Load the second round constants.
        match Self::load_round_constants(region, config, &config.rc_b, round + 1, offset) {
            Ok(_) => {},
            Err(error) => {
                proof {
                    lemma_cut_short(
                        assigned,
                        region@,
                        constants_plan,
                        helper_plan,
                        refused(error),
                    );
                    lemma_in_turn(
                        before,
                        assigned,
                        region@,
                        sbox_plan,
                        constants_plan + helper_plan,
                        refused(error),
                    );
                }
                return Err(error);
            },
        }
        let ghost loaded = region@;
        let mid_0_helper = match &p_mid {
            Some(p) => Some(p[0].plus(&config.round_constants[round + 1][0])),
            None => None,
        };
        let cur_0_rc_a0 = match word_value(&self.0[0].0) {
            Some(x) => Some(config.round_constants[round][0].plus(&x)),
            None => None,
        };
        match Self::helper_cells(region, config, round, offset, mid_0_helper, cur_0_rc_a0) {
            Ok(_) => {},
            Err(error) => {
                proof {
                    lemma_in_turn(
                        assigned,
                        loaded,
                        region@,
                        constants_plan,
                        helper_plan,
                        refused(error),
                    );
                    lemma_in_turn(
                        before,
                        assigned,
                        region@,
                        sbox_plan,
                        constants_plan + helper_plan,
                        refused(error),
                    );
                }
                return Err(error);
            },
        }
        proof {
            lemma_in_turn(assigned, loaded, region@, constants_plan, helper_plan, None);
            lemma_in_turn(
                before,
                assigned,
                region@,
                sbox_plan,
                constants_plan + helper_plan,
                None,
            );
        }
        match p_mid {
            Some(p) => {
                let r_mid = first_power(
                    &sums(&p, &config.round_constants[round + 1]),
                    &config.alpha,
                );
                Ok(mixed(&config.m_reg, &r_mid))
            },
            None => Ok(zeros(WIDTH)),
        }
    }

    /// Lays out a row: enables its gate, loads the constants of its first round, assigns the
    /// cells inside it and the state that it leads to.
    fn round<const RATE: usize>(
        &self,
        region: &mut ChipRegion<'_, '_>,
        config: &Pow5Config<WIDTH, RATE>,
        round: usize,
        offset: usize,
        round_gate: FixedColumn,
        kind: RowKind,
    ) -> (r: Result<Self, ChipError>)
        requires
            config.well_formed(),
            round_gate == match kind {
                RowKind::Full => config.s_full,
                RowKind::Partial => config.s_partial,
            },
            match kind {
                RowKind::Full => round < config.round_constants@.len(),
                RowKind::Partial => round + 1 < config.round_constants@.len(),
            },
            offset + 1 < usize::MAX,
        ensures
            follows(
                old(region)@,
                final(region)@,
                config.kind_plan(kind, round as nat, offset as nat, values(self.0@)),
                refusal(r),
            ),
            keeps_reach(*old(region), *final(region)),
            r matches Ok(state) ==> {
                &&& all_settled_on(state.0@, config.after_kind(kind, round as nat, values(self.0@)))
                &&& lies(final(region)@, cells(state.0@), config.state@, offset as nat + 1)
                &&& all_within_reach(*final(region), cells(state.0@))
            },
    {
        let ghost before = region@;
        let ghost start = values(self.0@);
        let ghost enable_plan = config.enable_plan(round_gate, offset as nat);
        let ghost constants_plan = config.constants_plan(
            config.rc_a@,
            round as nat,
            offset as nat,
        );
        let ghost body_plan = match kind {
            RowKind::Full => config.full_body_plan(round as nat, offset as nat, start),
            RowKind::Partial => config.partial_body_plan(round as nat, offset as nat, start),
        };
        let ghost next = config.after_kind(kind, round as nat, start);
        let ghost next_round_number = match kind {
            RowKind::Full => (round + 1) as nat,
            RowKind::Partial => (round + 2) as nat,
        };
        let ghost next_plan = config.next_plan(next_round_number, offset as nat + 1, next);
        assert(config.kind_plan(kind, round as nat, offset as nat, start) == enable_plan + (
        constants_plan + (body_plan + next_plan)));
        assert(config.round_constants.len() <= usize::MAX);
        // Enable the required gate.
        match fixed_cell(region, "round", round_gate, offset, Felt::one()) {
            Ok(_) => {},
            Err(error) => {
                proof {
                    lemma_cut_short(
                        before,
                        region@,
                        enable_plan,
                        constants_plan + (body_plan + next_plan),
                        refused(error),
                    );
                }
                return Err(error);
            },
        }
        let ghost enabled = region@;
        // Load the round constants.
        match Self::load_round_constants(region, config, &config.rc_a, round, offset) {
            Ok(_) => {},
            Err(error) => {
                proof {
                    lemma_cut_short(
                        enabled,
                        region@,
                        constants_plan,
                        body_plan + next_plan,
                        refused(error),
                    );
                    lemma_in_turn(
                        before,
                        enabled,
                        region@,
                        enable_plan,
                        constants_plan + (body_plan + next_plan),
                        refused(error),
                    );
                }
                return Err(error);
            },
        }
        let ghost loaded = region@;
        // Compute the next round's state.
        let outcome = match kind {
            RowKind::Full => self.full_round_cells(region, config, round, offset),
            RowKind::Partial => self.partial_round_cells(region, config, round, offset),
        };
        let next_state = match outcome {
            Ok(next_state) => next_state,
            Err(error) => {
                proof {
                    lemma_cut_short(
                        loaded,
                        region@,
                        body_plan,
                        next_plan,
                        refused(error),
                    );
                    lemma_in_turn(
                        enabled,
                        loaded,
                        region@,
                        constants_plan,
                        body_plan + next_plan,
                        refused(error),
                    );
                    lemma_in_turn(
                        before,
                        enabled,
                        region@,
                        enable_plan,
                        constants_plan + (body_plan + next_plan),
                        refused(error),
                    );
                }
                return Err(error);
            },
        };
        let ghost computed = region@;
        let next_round: usize = match kind {
            RowKind::Full => round + 1,
            RowKind::Partial => round + 2,
        };
        let r = Self::next_state(region, config, next_round, offset + 1, &next_state);
        proof {
            lemma_in_turn(loaded, computed, region@, body_plan, next_plan, refusal(r));
            lemma_in_turn(
                enabled,
                loaded,
                region@,
                constants_plan,
                body_plan + next_plan,
                refusal(r),
            );
            lemma_in_turn(
                before,
                enabled,
                region@,
                enable_plan,
                constants_plan + (body_plan + next_plan),
                refusal(r),
            );
        }
        r
    }

    /// Lays out a row of the full round `round` at `offset`.
    pub fn full_round<const RATE: usize>(
        self,
        region: &mut ChipRegion<'_, '_>,
        config: &Pow5Config<WIDTH, RATE>,
        round: usize,
        offset: usize,
    ) -> (r: Result<Self, ChipError>)
        requires
            config.well_formed(),
            round < config.round_constants@.len(),
            offset + 1 < usize::MAX,
        ensures
            follows(
                old(region)@,
                final(region)@,
                config.full_plan(round as nat, offset as nat, values(self.0@)),
                refusal(r),
            ),
            keeps_reach(*old(region), *final(region)),
            r matches Ok(state) ==> {
                &&& all_settled_on(state.0@, config.after_full(round as nat, values(self.0@)))
                &&& lies(final(region)@, cells(state.0@), config.state@, offset as nat + 1)
                &&& all_within_reach(*final(region), cells(state.0@))
            },
    {
        self.round(region, config, round, offset, config.s_full, RowKind::Full)
    }

    /// Lays out a row of the partial rounds `round` and `round + 1` at `offset`.
    pub fn partial_round<const RATE: usize>(
        self,
        region: &mut ChipRegion<'_, '_>,
        config: &Pow5Config<WIDTH, RATE>,
        round: usize,
        offset: usize,
    ) -> (r: Result<Self, ChipError>)
        requires
            config.well_formed(),
            round + 1 < config.round_constants@.len(),
            offset + 1 < usize::MAX,
        ensures
            follows(
                old(region)@,
                final(region)@,
                config.partial_plan(round as nat, offset as nat, values(self.0@)),
                refusal(r),
            ),
            keeps_reach(*old(region), *final(region)),
            r matches Ok(state) ==> {
                &&& all_settled_on(state.0@, config.after_partials(round as nat, values(self.0@)))
                &&& lies(final(region)@, cells(state.0@), config.state@, offset as nat + 1)
                &&& all_within_reach(*final(region), cells(state.0@))
            },
    {
        self.round(region, config, round, offset, config.s_partial, RowKind::Partial)
    }
}

} // verus!
