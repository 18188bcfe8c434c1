//! Hashing with the chip: the instructions of a sponge, one after the other, give the hash of what
//! was absorbed.
use crate::config::Pow5Config;
use crate::field::{group_in_field, in_field, lemma_small_residues, Felt};
use crate::gate::Table;
use crate::laws::{all_enforced, all_known, block_at, block_values, values_at};
use crate::linear::{matrix, undoes, vector_in_field};
use crate::permutation::{absorb, law_rows_compute_the_permutation, lemma_row_in_field};
use crate::plan::{follows, known, lies};
use crate::region::Event;
use crate::sponge::{Absorbing, InputTrace};
use crate::state::{all_settled_on, cells, values, StateWord};
use halo2_proofs::circuit::Cell;
use vstd::prelude::*;

verus! {

/// A region: the history that an instruction found in it, the history that it left, and the row of
/// the table that the region starts on.
pub struct Extent {
    pub before: Seq<Event>,
    pub after: Seq<Event>,
    pub start: int,
}

/// One block of input, absorbed in one region and permuted in another.
pub struct Step<const RATE: usize> {
    pub input: Absorbing<RATE>,
    pub absorbing: InputTrace,
    pub absorbing_in: Extent,
    pub sum: Seq<StateWord>,
    pub permuting: Seq<Seq<StateWord>>,
    pub permuting_in: Extent,
    pub state: Seq<StateWord>,
}

/// A run of a sponge: its initial state, and then block after block.
pub struct Run<const RATE: usize> {
    pub initial: Seq<StateWord>,
    pub initial_in: Extent,
    pub steps: Seq<Step<RATE>>,
}

impl<const RATE: usize> Run<RATE> {
    /// The state before block `j`, or at the end if there is none.
    pub open spec fn state(self, j: int) -> Seq<StateWord> {
        if j == 0 {
            self.initial
        } else {
            self.steps[j - 1].state
        }
    }

    /// The values of the blocks, where they are known.
    pub open spec fn blocks(self) -> Seq<Seq<int>> {
        Seq::new(self.steps.len(), |j: int| block_values(self.steps[j].input))
    }

    /// The values of the blocks, by their cells.
    pub open spec fn blocks_at(self, at: spec_fn(Cell) -> int) -> Seq<Seq<int>> {
        Seq::new(self.steps.len(), |j: int| block_at(at, self.steps[j].input))
    }

    /// The output of the run: what `get_output` takes from its last state.
    pub open spec fn output(self) -> Seq<StateWord> {
        self.state(self.steps.len() as int).take(RATE as int)
    }
}

impl<const WIDTH: usize, const RATE: usize> Pow5Config<WIDTH, RATE> {
    /// `step` is what `add_input` and `permute` promise, from `state` on.
    pub open spec fn stepped(self, state: Seq<StateWord>, step: Step<RATE>) -> bool {
        let absorbing = step.absorbing_in;
        let permuting = step.permuting_in;
        &&& self.absorbed(
            state,
            step.input,
            step.absorbing,
            absorbing.before,
            absorbing.after,
            None,
        )
        &&& step.sum.len() == WIDTH
        &&& all_settled_on(
            step.sum,
            self.output_values(values(step.absorbing.loaded->0), values(step.absorbing.inputs)),
        )
        &&& lies(absorbing.after, cells(step.sum), self.state@, 2)
        &&& self.permuted(step.sum, step.permuting, permuting.before, permuting.after, None)
        &&& step.state == step.permuting.last()
        &&& step.state.len() == WIDTH
        &&& lies(permuting.after, cells(step.state), self.state@, self.permutation().rows())
    }

    /// `run` is what `initial_state` promises, and then `add_input` and `permute` for every block.
    pub open spec fn ran(self, capacity: int, run: Run<RATE>) -> bool {
        &&& run.initial.len() == WIDTH
        &&& follows(
            run.initial_in.before,
            run.initial_in.after,
            self.initial_plan(capacity),
            None,
        )
        &&& forall|i: int|
            0 <= i < WIDTH ==> (#[trigger] run.initial[i]).0.value() == Some(
                self.initial_values(capacity)[i],
            )
        &&& lies(run.initial_in.after, cells(run.initial), self.state@, 0)
        &&& forall|j: int|
            0 <= j < run.steps.len() ==> self.stepped(run.state(j), #[trigger] run.steps[j])
    }

    /// The regions of a step asked for every advice value.
    pub open spec fn step_known(self, step: Step<RATE>) -> bool {
        let absorbing = step.absorbing_in;
        let permuting = step.permuting_in;
        &&& all_known(absorbing.after, absorbing.before.len() as int)
        &&& all_known(permuting.after, permuting.before.len() as int)
    }

    /// The permutation keeps states of its width and of least residues.
    proof fn lemma_permute_in_field(self, state: Seq<int>)
        requires
            self.well_formed(),
            self.has_constants(),
            state.len() == WIDTH,
            vector_in_field(state),
        ensures
            self.permutation().permute(state).len() == WIDTH,
            vector_in_field(self.permutation().permute(state)),
    {
        let p = self.permutation();
        assert(p.shaped(WIDTH as nat));
        law_rows_compute_the_permutation(p, state);
        if p.rows() > 0 {
            let k = (p.rows() - 1) as nat;
            lemma_row_in_field(p, k, p.after_rows(state, k), WIDTH as nat);
        }
    }

    proof fn lemma_run_computes(self, capacity: int, run: Run<RATE>, j: nat)
        requires
            self.well_formed(),
            self.has_constants(),
            in_field(capacity),
            self.ran(capacity, run),
            forall|k: int| 0 <= k < run.steps.len() ==> self.step_known(#[trigger] run.steps[k]),
            j <= run.steps.len(),
        ensures
            run.state(j as int).len() == WIDTH,
            known(values(run.state(j as int))) == Some(
                self.permutation().sponge(self.initial_values(capacity), run.blocks(), j),
            ),
            vector_in_field(known(values(run.state(j as int)))->0),
        decreases j,
    {
        if j == 0 {
            lemma_small_residues();
            let v = values(run.initial);
            assert forall|i: int| 0 <= i < WIDTH implies #[trigger] v[i] == Some(
                self.initial_values(capacity)[i],
            ) by {
                assert(run.initial[i].0.value() == Some(self.initial_values(capacity)[i]));
            }
            assert(known(v)->0 =~= self.initial_values(capacity));
        } else {
            broadcast use group_in_field;

            let k = j - 1;
            let step = run.steps[k];
            let state = run.state(k);
            self.lemma_run_computes(capacity, run, k as nat);
            assert(self.stepped(state, step));
            assert(self.step_known(step));
            let from = known(values(state))->0;
            let r = RATE as int;
            assert(in_field(state[r].0.value()->0)) by {
                assert(values(state)[r] is Some);
                assert(in_field(from[r]));
            }
            self.law_absorbing_adds_the_input(
                state,
                step.input,
                step.absorbing,
                step.sum,
                step.absorbing_in.before,
                step.absorbing_in.after,
            );
            let sum = absorb(from, block_values(step.input));
            assert(vector_in_field(sum));
            self.law_the_chip_permutes(
                step.sum,
                step.permuting,
                step.permuting_in.before,
                step.permuting_in.after,
            );
            self.lemma_permute_in_field(sum);
            assert(run.blocks()[k] == block_values(step.input));
        }
    }

    /// In regions that ask for every advice value, the output of a sponge is the hash of what it
    /// absorbed.
    pub proof fn law_the_chip_hashes(self, capacity: int, run: Run<RATE>)
        requires
            self.well_formed(),
            self.has_constants(),
            in_field(capacity),
            self.ran(capacity, run),
            forall|k: int| 0 <= k < run.steps.len() ==> self.step_known(#[trigger] run.steps[k]),
        ensures
            known(values(run.output())) == Some(
                self.permutation().hash(self.initial_values(capacity), run.blocks(), RATE as nat),
            ),
    {
        let n = run.steps.len();
        self.lemma_run_computes(capacity, run, n);
        let all = values(run.state(n as int));
        let v = values(run.output());
        let hash = self.permutation().hash(
            self.initial_values(capacity),
            run.blocks(),
            RATE as nat,
        );
        assert forall|i: int| 0 <= i < v.len() implies #[trigger] v[i] == Some(hash[i]) by {
            assert(all[i] is Some);
            assert(v[i] == all[i]);
        }
        assert(known(v)->0 =~= hash);
    }

    /// The circuit makes sure of every region of a run.
    pub open spec fn run_enforced(
        self,
        table: Table,
        at: spec_fn(Cell) -> int,
        run: Run<RATE>,
    ) -> bool {
        &&& all_enforced(
            table,
            run.initial_in.start,
            at,
            run.initial_in.after,
            run.initial_in.before.len() as int,
        )
        &&& forall|j: int|
            0 <= j < run.steps.len() ==> {
                let absorbing = (#[trigger] run.steps[j]).absorbing_in;
                let permuting = run.steps[j].permuting_in;
                &&& all_enforced(
                    table,
                    absorbing.start,
                    at,
                    absorbing.after,
                    absorbing.before.len() as int,
                )
                &&& all_enforced(
                    table,
                    permuting.start,
                    at,
                    permuting.after,
                    permuting.before.len() as int,
                )
            }
    }

    proof fn lemma_run_is_forced(
        self,
        m_inv: [[Felt; WIDTH]; WIDTH],
        table: Table,
        at: spec_fn(Cell) -> int,
        capacity: int,
        run: Run<RATE>,
        j: nat,
    )
        requires
            self.well_formed(),
            self.has_constants(),
            undoes(matrix(m_inv), matrix(self.m_reg), WIDTH as nat),
            table.well_formed(),
            self.ran(capacity, run),
            self.run_enforced(table, at, run),
            forall|row: int| #[trigger] self.gates_hold(m_inv, table, row),
            j <= run.steps.len(),
        ensures
            run.state(j as int).len() == WIDTH,
            values_at(at, run.state(j as int)) == self.permutation().sponge(
                self.initial_values(capacity),
                run.blocks_at(at),
                j,
            ),
        decreases j,
    {
        if j == 0 {
            self.law_the_initial_state_is_constant(
                table,
                run.initial_in.start,
                at,
                capacity,
                run.initial,
                run.initial_in.before,
                run.initial_in.after,
            );
        } else {
            let k = j - 1;
            let step = run.steps[k];
            let state = run.state(k);
            self.lemma_run_is_forced(m_inv, table, at, capacity, run, k as nat);
            assert(self.stepped(state, step));
            assert(self.gates_hold(m_inv, table, step.absorbing_in.start + 1));
            self.law_absorbing_is_that_of_its_input(
                m_inv,
                table,
                step.absorbing_in.start,
                at,
                state,
                step.input,
                step.absorbing,
                step.sum,
                step.absorbing_in.before,
                step.absorbing_in.after,
            );
            self.law_the_permutation_is_that_of_its_input(
                m_inv,
                table,
                step.permuting_in.start,
                at,
                step.sum,
                step.permuting,
                step.state,
                step.permuting_in.before,
                step.permuting_in.after,
            );
            assert(run.blocks_at(at)[k] == block_at(at, step.input));
        }
    }

    /// Whatever is put into the advice cells, if the gates hold, the output of a sponge is the hash
    /// of the cells of the message and of the padding.
    pub proof fn law_the_circuit_hashes(
        self,
        m_inv: [[Felt; WIDTH]; WIDTH],
        table: Table,
        at: spec_fn(Cell) -> int,
        capacity: int,
        run: Run<RATE>,
    )
        requires
            self.well_formed(),
            self.has_constants(),
            undoes(matrix(m_inv), matrix(self.m_reg), WIDTH as nat),
            table.well_formed(),
            self.ran(capacity, run),
            self.run_enforced(table, at, run),
            forall|row: int| #[trigger] self.gates_hold(m_inv, table, row),
        ensures
            values_at(at, run.output()) == self.permutation().hash(
                self.initial_values(capacity),
                run.blocks_at(at),
                RATE as nat,
            ),
    {
        let n = run.steps.len();
        self.lemma_run_is_forced(m_inv, table, at, capacity, run, n);
        let state = run.state(n as int);
        assert(values_at(at, run.output()) =~= values_at(at, state).take(RATE as int));
    }
}

} // verus!
