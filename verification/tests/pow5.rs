//! The chip in circuits: permutations and hashes under a mock prover, the constraint system that
//! it configures, and the requests that it makes.
use halo2_proofs::arithmetic::FieldExt;
use halo2_proofs::circuit::{AssignedCell, Layouter, SimpleFloorPlanner};
use halo2_proofs::dev::MockProver;
use halo2_proofs::pasta::group::ff::{Field, PrimeField};
use halo2_proofs::pasta::{EqAffine, Fp};
use halo2_proofs::plonk::{
    keygen_vk, Advice, Any, Assigned, Assignment, Circuit, Column, ConstraintSystem, Error,
    Expression, Fixed, FloorPlanner, Instance, Selector, VirtualCells,
};
use halo2_proofs::poly::commitment::Params;
use halo2_proofs::poly::Rotation;
use pow5_chip::chip::Pow5Chip;
use pow5_chip::column::{AdviceColumn, FixedColumn};
use pow5_chip::config::{PoseidonSpec, Pow5Config};
use pow5_chip::constraint_system::{advice_columns, fixed_columns, Meta};
use pow5_chip::field::Felt;
use pow5_chip::region::{word_value, AssignedWord, ChipError, ChipRegion};
use pow5_chip::sponge::{Absorbing, PaddedWord};
use pow5_chip::state::{Pow5State, StateWord};
use rand::rngs::OsRng;

fn felt(x: Fp) -> Felt {
    Felt::from_repr(x.to_repr()).unwrap()
}

fn refused(error: ChipError) -> Error {
    match error {
        ChipError::Refused(error) => error,
    }
}

fn value_of(word: &StateWord) -> Option<Fp> {
    word_value(&word.0).map(|value| Fp::from_repr(value.to_repr()).unwrap())
}

/// The parameters of a permutation, over the field itself.
struct Parameters<const WIDTH: usize> {
    full_rounds: usize,
    partial_rounds: usize,
    round_constants: Vec<[Fp; WIDTH]>,
    mds: [[Fp; WIDTH]; WIDTH],
    mds_inv: [[Fp; WIDTH]; WIDTH],
}

fn invert<const WIDTH: usize>(m: [[Fp; WIDTH]; WIDTH]) -> [[Fp; WIDTH]; WIDTH] {
    let mut left = m;
    let mut right = [[Fp::zero(); WIDTH]; WIDTH];
    for i in 0..WIDTH {
        right[i][i] = Fp::one();
    }
    for i in 0..WIDTH {
        let pivot = (i..WIDTH).find(|r| left[*r][i] != Fp::zero()).unwrap();
        left.swap(i, pivot);
        right.swap(i, pivot);
        let scale = left[i][i].invert().unwrap();
        for j in 0..WIDTH {
            left[i][j] *= scale;
            right[i][j] *= scale;
        }
        for r in 0..WIDTH {
            if r != i {
                let factor = left[r][i];
                for j in 0..WIDTH {
                    let (x, y) = (left[i][j], right[i][j]);
                    left[r][j] -= factor * x;
                    right[r][j] -= factor * y;
                }
            }
        }
    }
    right
}

fn parameters<const WIDTH: usize>(full_rounds: usize, partial_rounds: usize) -> Parameters<WIDTH> {
    let mut c = Fp::from(7);
    let mut round_constants = Vec::new();
    for _ in 0..full_rounds + partial_rounds {
        round_constants.push([0; WIDTH].map(|_| {
            c = c.square() + Fp::from(11);
            c
        }));
    }
    let mut mds = [[Fp::zero(); WIDTH]; WIDTH];
    for i in 0..WIDTH {
        for j in 0..WIDTH {
            mds[i][j] = Fp::from((i + WIDTH + j) as u64).invert().unwrap();
        }
    }
    Parameters { full_rounds, partial_rounds, round_constants, mds, mds_inv: invert(mds) }
}

impl<const WIDTH: usize> Parameters<WIDTH> {
    fn spec(&self) -> PoseidonSpec<WIDTH> {
        PoseidonSpec {
            full_rounds: self.full_rounds,
            partial_rounds: self.partial_rounds,
            round_constants: self.round_constants.iter().map(|c| c.map(felt)).collect(),
            mds: self.mds.map(|row| row.map(felt)),
            mds_inv: self.mds_inv.map(|row| row.map(felt)),
        }
    }

    fn mix(&self, state: [Fp; WIDTH]) -> [Fp; WIDTH] {
        let mut mixed = [Fp::zero(); WIDTH];
        for i in 0..WIDTH {
            for j in 0..WIDTH {
                mixed[i] += self.mds[i][j] * state[j];
            }
        }
        mixed
    }

    fn permute(&self, state: [Fp; WIDTH]) -> [Fp; WIDTH] {
        let mut state = state;
        let half = self.full_rounds / 2;
        for (r, constants) in self.round_constants.iter().enumerate() {
            for i in 0..WIDTH {
                state[i] += constants[i];
            }
            let full = r < half || r >= half + self.partial_rounds;
            for i in 0..WIDTH {
                if full || i == 0 {
                    state[i] = state[i] * state[i] * state[i] * state[i] * state[i];
                }
            }
            state = self.mix(state);
        }
        state
    }

    /// The hash of a message of constant length: its words are absorbed `WIDTH - 1` at a time, with
    /// zeros behind the last one.
    fn hash(&self, message: &[Fp]) -> Fp {
        let mut state = [Fp::zero(); WIDTH];
        state[WIDTH - 1] = capacity(message.len());
        for chunk in message.chunks(WIDTH - 1) {
            for (i, word) in chunk.iter().enumerate() {
                state[i] += word;
            }
            state = self.permute(state);
        }
        state[0]
    }
}

/// The capacity element for messages of constant length.
fn capacity(length: usize) -> Fp {
    Fp::from_u128((length as u128) << 64)
}

fn configure<const WIDTH: usize, const RATE: usize>(
    meta: &mut ConstraintSystem<Fp>,
    spec: PoseidonSpec<WIDTH>,
) -> Pow5Config<WIDTH, RATE> {
    let mut columns = Meta(meta);
    let state = advice_columns(&mut columns);
    let [partial_sbox, mid_0_helper, mid_0_helper_sqr, cur_0_rc_a0, cur_0_rc_a0_sqr] =
        advice_columns::<5>(&mut columns);

    let state_rc_a = advice_columns(&mut columns);
    let state_rc_a_sqr = advice_columns(&mut columns);

    let rc_a = fixed_columns(&mut columns);
    let rc_b = fixed_columns(&mut columns);

    let config = Pow5Chip::configure(
        &mut columns,
        spec,
        state,
        state_rc_a,
        state_rc_a_sqr,
        partial_sbox,
        mid_0_helper,
        mid_0_helper_sqr,
        cur_0_rc_a0,
        cur_0_rc_a0_sqr,
        rc_a,
        rc_b,
    );
    meta.enable_constant(rc_b[0].0);
    config
}

fn permute<const WIDTH: usize, const RATE: usize>(
    chip: &Pow5Chip<WIDTH, RATE>,
    layouter: &mut impl Layouter<Fp>,
    initial_state: &[StateWord; WIDTH],
) -> Result<[StateWord; WIDTH], Error> {
    layouter.assign_region(
        || "permute state",
        |mut region| {
            chip.permute(&mut ChipRegion(&mut region), initial_state).map_err(refused)
        },
    )
}

struct PermuteCircuit<const WIDTH: usize, const RATE: usize> {
    full_rounds: usize,
    partial_rounds: usize,
}

impl Circuit<Fp> for PermuteCircuit<9, 8> {
    type Config = Pow5Config<9, 8>;
    type FloorPlanner = SimpleFloorPlanner;

    fn without_witnesses(&self) -> Self {
        PermuteCircuit { full_rounds: self.full_rounds, partial_rounds: self.partial_rounds }
    }

    fn configure(meta: &mut ConstraintSystem<Fp>) -> Self::Config {
        configure(meta, parameters(8, 56).spec())
    }

    fn synthesize(
        &self,
        config: Self::Config,
        mut layouter: impl Layouter<Fp>,
    ) -> Result<(), Error> {
        let initial_state: [StateWord; 9] = layouter.assign_region(
            || "prepare initial state",
            |mut region| {
                let state_word = |i: usize| {
                    let var = region.assign_advice(
                        || format!("load state_{}", i),
                        config.state[i].0,
                        0,
                        || Ok(Fp::from(i as u64)),
                    )?;
                    Ok(StateWord(AssignedWord(var)))
                };

                let state: Result<Vec<_>, Error> = (0..9).map(state_word).collect();
                Ok(state?.try_into().unwrap())
            },
        )?;

        let chip = Pow5Chip::construct(config.clone());
        let final_state = permute(&chip, &mut layouter, &initial_state)?;

        // For the purpose of this test, compute the real final state inline.
        let mut expected_final_state = [Fp::zero(); 9];
        for i in 0..9 {
            expected_final_state[i] = Fp::from(i as u64);
        }
        let expected_final_state = parameters::<9>(self.full_rounds, self.partial_rounds)
            .permute(expected_final_state);

        layouter.assign_region(
            || "constrain final state",
            |mut region| {
                let mut final_state_word = |i: usize| {
                    let var = region.assign_advice(
                        || format!("load final_state_{}", i),
                        config.state[i].0,
                        0,
                        || Ok(expected_final_state[i]),
                    )?;
                    region.constrain_equal(final_state[i].0 .0.cell(), var.cell())
                };

                for i in 0..9 {
                    final_state_word(i)?;
                }

                Ok(())
            },
        )
    }
}

#[test]
fn poseidon_permute() {
    let k = 6;
    let circuit = PermuteCircuit::<9, 8> { full_rounds: 8, partial_rounds: 56 };
    let prover = MockProver::run(k, &circuit, vec![]).unwrap();
    assert_eq!(prover.verify(), Ok(()))
}

#[test]
fn another_number_of_rounds_is_another_permutation() {
    let circuit = PermuteCircuit::<9, 8> { full_rounds: 8, partial_rounds: 54 };
    let prover = MockProver::run(6, &circuit, vec![]).unwrap();
    assert!(prover.verify().is_err());
}

#[test]
fn keys_need_no_witness() {
    let params: Params<EqAffine> = Params::new(6);
    let circuit = PermuteCircuit::<9, 8> { full_rounds: 8, partial_rounds: 56 };
    assert!(keygen_vk(&params, &circuit).is_ok());
}

#[test]
fn a_permutation_that_does_not_fit_is_refused() {
    let circuit = PermuteCircuit::<9, 8> { full_rounds: 8, partial_rounds: 56 };
    assert!(matches!(
        MockProver::run(5, &circuit, vec![]),
        Err(Error::NotEnoughRowsAvailable { .. })
    ));
}

struct HashCircuit<const L: usize> {
    message: Option<[Fp; L]>,
    // For the purpose of this test, witness the result.
    output: Option<Fp>,
}

impl<const L: usize> Circuit<Fp> for HashCircuit<L> {
    type Config = Pow5Config<9, 8>;
    type FloorPlanner = SimpleFloorPlanner;

    fn without_witnesses(&self) -> Self {
        Self { message: None, output: None }
    }

    fn configure(meta: &mut ConstraintSystem<Fp>) -> Self::Config {
        configure(meta, parameters(8, 56).spec())
    }

    fn synthesize(
        &self,
        config: Self::Config,
        mut layouter: impl Layouter<Fp>,
    ) -> Result<(), Error> {
        let chip = Pow5Chip::construct(config.clone());

        let message: Vec<AssignedCell<Fp, Fp>> = layouter.assign_region(
            || "load message",
            |mut region| {
                let message_word = |i: usize| {
                    let value = self.message.map(|message_vals| message_vals[i]);
                    region.assign_advice(
                        || format!("load message_{}", i),
                        config.state[i % 9].0,
                        i / 9,
                        || value.ok_or(Error::Synthesis),
                    )
                };

                (0..L).map(message_word).collect()
            },
        )?;

        let mut state = layouter.assign_region(
            || "initial state for domain ConstantLength",
            |mut region| {
                chip.initial_state(&mut ChipRegion(&mut region), felt(capacity(L)))
                    .map_err(refused)
            },
        )?;
        for chunk in message.chunks(8) {
            let mut words: Vec<_> = chunk
                .iter()
                .map(|word| Some(PaddedWord::Message(AssignedWord(word.clone()))))
                .collect();
            while words.len() < 8 {
                words.push(Some(PaddedWord::Padding(Felt::zero())));
            }
            let input = Absorbing(words.try_into().unwrap());
            state = layouter.assign_region(
                || "add input for domain ConstantLength",
                |mut region| {
                    chip.add_input(&mut ChipRegion(&mut region), &state, &input).map_err(refused)
                },
            )?;
            state = permute(&chip, &mut layouter, &state)?;
        }
        let output = Pow5Chip::<9, 8>::get_output(&state);
        let output = output.0[0].clone().unwrap();

        layouter.assign_region(
            || "constrain output",
            |mut region| {
                let expected_var = region.assign_advice(
                    || "load output",
                    config.state[0].0,
                    0,
                    || self.output.ok_or(Error::Synthesis),
                )?;
                region.constrain_equal(output.0 .0.cell(), expected_var.cell())
            },
        )
    }
}

#[test]
fn poseidon_hash() {
    let rng = OsRng;

    let message = [0; 8].map(|_| Fp::random(rng));
    let output = parameters::<9>(8, 56).hash(&message);

    let k = 6;
    let circuit = HashCircuit::<8> { message: Some(message), output: Some(output) };
    let prover = MockProver::run(k, &circuit, vec![]).unwrap();
    assert_eq!(prover.verify(), Ok(()))
}

#[test]
fn poseidon_hash_longer_input() {
    let rng = OsRng;

    let message = [0; 13].map(|_| Fp::random(rng));
    let output = parameters::<9>(8, 56).hash(&message);

    let k = 7;
    let circuit = HashCircuit::<13> { message: Some(message), output: Some(output) };
    let prover = MockProver::run(k, &circuit, vec![]).unwrap();
    assert_eq!(prover.verify(), Ok(()))
}

#[test]
fn another_output_is_rejected() {
    let message = [0, 1, 2, 3, 4, 5, 6, 7].map(Fp::from);
    let output = parameters::<9>(8, 56).hash(&message) + Fp::one();
    let circuit = HashCircuit::<8> { message: Some(message), output: Some(output) };
    let prover = MockProver::run(6, &circuit, vec![]).unwrap();
    assert!(prover.verify().is_err());
}

#[test]
fn hash_keys_need_no_witness() {
    let params: Params<EqAffine> = Params::new(7);
    let circuit = HashCircuit::<13> { message: None, output: None };
    assert!(keygen_vk(&params, &circuit).is_ok());
}

/// The constraint system of the chip, written out gate by gate.
fn configure_by_hand<const WIDTH: usize, const RATE: usize>(
    meta: &mut ConstraintSystem<Fp>,
    parameters: &Parameters<WIDTH>,
) {
    let state: Vec<_> = (0..WIDTH).map(|_| meta.advice_column()).collect();
    let partial_sbox = meta.advice_column();
    let mid_0_helper = meta.advice_column();
    let mid_0_helper_sqr = meta.advice_column();
    let cur_0_rc_a0 = meta.advice_column();
    let cur_0_rc_a0_sqr = meta.advice_column();
    let state_rc_a: Vec<_> = (0..WIDTH).map(|_| meta.advice_column()).collect();
    let state_rc_a_sqr: Vec<_> = (0..WIDTH).map(|_| meta.advice_column()).collect();
    let rc_a: Vec<_> = (0..WIDTH).map(|_| meta.fixed_column()).collect();
    let rc_b: Vec<_> = (0..WIDTH).map(|_| meta.fixed_column()).collect();
    let m_reg = parameters.mds;
    let m_inv = parameters.mds_inv;
    for column in state.iter() {
        meta.enable_equality(*column);
    }
    for column in rc_b.iter() {
        meta.enable_equality(*column);
    }
    let s_full = meta.fixed_column();
    let s_partial = meta.fixed_column();
    let s_pad_and_add = meta.fixed_column();
    meta.create_gate("full round state_rc_a", |meta| {
        let s_full = meta.query_fixed(s_full, Rotation::cur());
        let mut polys = Vec::new();
        for i in 0..WIDTH {
            let word = meta.query_advice(state[i], Rotation::cur());
            let constant = meta.query_fixed(rc_a[i], Rotation::cur());
            let sum = meta.query_advice(state_rc_a[i], Rotation::cur());
            polys.push((word + constant - sum) * s_full.clone());
        }
        polys
    });
    meta.create_gate("full round state_rc_a_sqr", |meta| {
        let s_full = meta.query_fixed(s_full, Rotation::cur());
        let mut polys = Vec::new();
        for i in 0..WIDTH {
            let square = meta.query_advice(state_rc_a_sqr[i], Rotation::cur());
            let sum = meta.query_advice(state_rc_a[i], Rotation::cur());
            polys.push((sum.clone() * sum - square) * s_full.clone());
        }
        polys
    });
    meta.create_gate("full round", |meta| {
        let s_full = meta.query_fixed(s_full, Rotation::cur());
        let mut polys = Vec::new();
        for i in 0..WIDTH {
            let next = meta.query_advice(state[i], Rotation::next());
            let mut mixed: Option<Expression<Fp>> = None;
            for j in 0..WIDTH {
                let square = meta.query_advice(state_rc_a_sqr[j], Rotation::cur());
                let sum = meta.query_advice(state_rc_a[j], Rotation::cur());
                let term = sum * square.clone() * square * m_reg[i][j];
                mixed = Some(match mixed {
                    Some(mixed) => mixed + term,
                    None => term,
                });
            }
            polys.push(s_full.clone() * (mixed.unwrap() - next));
        }
        polys
    });
    meta.create_gate("cur0_rc_a0", |meta| {
        let word = meta.query_advice(state[0], Rotation::cur());
        let constant = meta.query_fixed(rc_a[0], Rotation::cur());
        let sum = meta.query_advice(cur_0_rc_a0, Rotation::cur());
        let square = meta.query_advice(cur_0_rc_a0_sqr, Rotation::cur());
        let s_partial = meta.query_fixed(s_partial, Rotation::cur());
        vec![
            (sum.clone() - word - constant) * s_partial.clone(),
            (square - sum.clone() * sum) * s_partial,
        ]
    });
    let mid = |first: &Expression<Fp>, i: usize, meta: &mut VirtualCells<Fp>| {
        let mut mid = first.clone() * m_reg[i][0];
        for j in 1..WIDTH {
            let word = meta.query_advice(state[j], Rotation::cur());
            let constant = meta.query_fixed(rc_a[j], Rotation::cur());
            mid = mid + (word + constant) * m_reg[i][j];
        }
        mid
    };
    meta.create_gate("mid_0_helper", |meta| {
        let first = meta.query_advice(partial_sbox, Rotation::cur());
        let constant = meta.query_fixed(rc_b[0], Rotation::cur());
        let helper = meta.query_advice(mid_0_helper, Rotation::cur());
        let square = meta.query_advice(mid_0_helper_sqr, Rotation::cur());
        let s_partial = meta.query_fixed(s_partial, Rotation::cur());
        vec![
            (helper.clone() - mid(&first, 0, meta) - constant) * s_partial.clone(),
            (square - helper.clone() * helper) * s_partial,
        ]
    });
    meta.create_gate("partial rounds", |meta| {
        let first = meta.query_advice(partial_sbox, Rotation::cur());
        let helper = meta.query_advice(mid_0_helper, Rotation::cur());
        let helper_sqr = meta.query_advice(mid_0_helper_sqr, Rotation::cur());
        let sum = meta.query_advice(cur_0_rc_a0, Rotation::cur());
        let sum_sqr = meta.query_advice(cur_0_rc_a0_sqr, Rotation::cur());
        let s_partial = meta.query_fixed(s_partial, Rotation::cur());
        let next = |i: usize, meta: &mut VirtualCells<Fp>| {
            let mut unmixed: Option<Expression<Fp>> = None;
            for j in 0..WIDTH {
                let term = meta.query_advice(state[j], Rotation::next()) * m_inv[i][j];
                unmixed = Some(match unmixed {
                    Some(unmixed) => unmixed + term,
                    None => term,
                });
            }
            unmixed.unwrap()
        };
        let mut polys = vec![
            s_partial.clone() * (sum_sqr.clone() * sum_sqr * sum - first.clone()),
            s_partial.clone() * (helper_sqr.clone() * helper_sqr * helper - next(0, meta)),
        ];
        for i in 1..WIDTH {
            let constant = meta.query_fixed(rc_b[i], Rotation::cur());
            polys.push(s_partial.clone() * (mid(&first, i, meta) + constant - next(i, meta)));
        }
        polys
    });
    meta.create_gate("pad-and-add", |meta| {
        let capacity_before = meta.query_advice(state[RATE], Rotation::prev());
        let capacity_after = meta.query_advice(state[RATE], Rotation::next());
        let s_pad_and_add = meta.query_fixed(s_pad_and_add, Rotation::cur());
        let mut polys = Vec::new();
        for i in 0..RATE {
            let before = meta.query_advice(state[i], Rotation::prev());
            let input = meta.query_advice(state[i], Rotation::cur());
            let after = meta.query_advice(state[i], Rotation::next());
            polys.push(s_pad_and_add.clone() * (before + input - after));
        }
        polys.push(s_pad_and_add * (capacity_before - capacity_after));
        polys
    });
    meta.enable_constant(rc_b[0]);
}

#[test]
fn configures_the_constraint_system_that_is_written_out() {
    let mut by_hand = ConstraintSystem::default();
    configure_by_hand::<3, 2>(&mut by_hand, &parameters(2, 2));
    let mut by_chip = ConstraintSystem::default();
    let _: Pow5Config<3, 2> = configure(&mut by_chip, parameters(2, 2).spec());
    assert_eq!(format!("{:?}", by_chip.pinned()), format!("{:?}", by_hand.pinned()));
    assert_eq!(by_chip.degree(), by_hand.degree());

    let mut wide_by_hand = ConstraintSystem::default();
    configure_by_hand::<9, 8>(&mut wide_by_hand, &parameters(8, 56));
    let mut wide_by_chip = ConstraintSystem::default();
    let config: Pow5Config<9, 8> = configure(&mut wide_by_chip, parameters(8, 56).spec());
    assert_eq!(format!("{:?}", wide_by_chip.pinned()), format!("{:?}", wide_by_hand.pinned()));
    assert_eq!(config.half_full_rounds, 4);
    assert_eq!(config.half_partial_rounds, 28);
    assert_eq!(config.alpha, [5, 0, 0, 0]);
}

/// Records every assignment of a circuit.
struct Recorder {
    events: Vec<String>,
}

impl Assignment<Fp> for Recorder {
    fn enter_region<NR, N>(&mut self, name_fn: N)
    where
        NR: Into<String>,
        N: FnOnce() -> NR,
    {
        self.events.push(format!("enter {}", name_fn().into()));
    }

    fn exit_region(&mut self) {}

    fn enable_selector<A, AR>(&mut self, _: A, _: &Selector, _: usize) -> Result<(), Error>
    where
        A: FnOnce() -> AR,
        AR: Into<String>,
    {
        Err(Error::Synthesis)
    }

    fn query_instance(&self, _: Column<Instance>, _: usize) -> Result<Option<Fp>, Error> {
        Err(Error::Synthesis)
    }

    fn assign_advice<V, VR, A, AR>(
        &mut self,
        annotation: A,
        column: Column<Advice>,
        row: usize,
        to: V,
    ) -> Result<(), Error>
    where
        V: FnOnce() -> Result<VR, Error>,
        VR: Into<Assigned<Fp>>,
        A: FnOnce() -> AR,
        AR: Into<String>,
    {
        let value = to()?.into().evaluate();
        self.events.push(assignment(&annotation().into(), &format!("{:?}", column), row, value));
        Ok(())
    }

    fn assign_fixed<V, VR, A, AR>(
        &mut self,
        annotation: A,
        column: Column<Fixed>,
        row: usize,
        to: V,
    ) -> Result<(), Error>
    where
        V: FnOnce() -> Result<VR, Error>,
        VR: Into<Assigned<Fp>>,
        A: FnOnce() -> AR,
        AR: Into<String>,
    {
        let value = to()?.into().evaluate();
        self.events.push(assignment(&annotation().into(), &format!("{:?}", column), row, value));
        Ok(())
    }

    fn copy(
        &mut self,
        left_column: Column<Any>,
        left_row: usize,
        right_column: Column<Any>,
        right_row: usize,
    ) -> Result<(), Error> {
        self.events.push(tie(left_column, left_row, right_column, right_row));
        Ok(())
    }

    fn fill_from_row(
        &mut self,
        _: Column<Fixed>,
        _: usize,
        _: Option<Assigned<Fp>>,
    ) -> Result<(), Error> {
        Err(Error::Synthesis)
    }

    fn push_namespace<NR, N>(&mut self, _: N)
    where
        NR: Into<String>,
        N: FnOnce() -> NR,
    {
    }

    fn pop_namespace(&mut self, _: Option<String>) {}
}

fn assignment(label: &str, column: &str, row: usize, value: Fp) -> String {
    format!("{} at {} {} is {:?}", label, column, row, value)
}

fn tie(
    left_column: Column<Any>,
    left_row: usize,
    right_column: Column<Any>,
    right_row: usize,
) -> String {
    format!("{:?} {} is {:?} {}", left_column, left_row, right_column, right_row)
}

/// What a small circuit does with the chip.
#[derive(Clone, Copy, PartialEq, Eq)]
enum Task {
    Permute,
    Absorb,
    Start,
}

struct SmallCircuit {
    task: Task,
    witness: bool,
}

const WORDS: [u64; 3] = [5, 6, 7];

impl Circuit<Fp> for SmallCircuit {
    type Config = Pow5Config<3, 2>;
    type FloorPlanner = SimpleFloorPlanner;

    fn without_witnesses(&self) -> Self {
        SmallCircuit { task: self.task, witness: false }
    }

    fn configure(meta: &mut ConstraintSystem<Fp>) -> Self::Config {
        configure(meta, parameters(2, 2).spec())
    }

    fn synthesize(
        &self,
        config: Self::Config,
        mut layouter: impl Layouter<Fp>,
    ) -> Result<(), Error> {
        let chip = Pow5Chip::construct(config.clone());
        assert_eq!(chip.config().half_full_rounds, 1);
        let words: Vec<AssignedCell<Fp, Fp>> = layouter.assign_region(
            || "words",
            |mut region| {
                (0..3)
                    .map(|i| {
                        let value = if self.witness { Some(Fp::from(WORDS[i])) } else { None };
                        region.assign_advice(
                            || format!("word_{}", i),
                            config.state[i].0,
                            0,
                            || value.ok_or(Error::Synthesis),
                        )
                    })
                    .collect()
            },
        )?;
        let state: Vec<StateWord> =
            words.iter().map(|word| StateWord::from(AssignedWord(word.clone()))).collect();
        let state: [StateWord; 3] = state.try_into().unwrap();
        match self.task {
            Task::Permute => {
                let outcome = permute(&chip, &mut layouter, &state)?;
                if self.witness {
                    let expected = parameters::<3>(2, 2).permute(WORDS.map(Fp::from));
                    for i in 0..3 {
                        assert_eq!(value_of(&outcome[i]), Some(expected[i]));
                    }
                }
            }
            Task::Absorb => {
                let input = Absorbing([
                    Some(PaddedWord::Message(AssignedWord::from(state[1].clone()))),
                    Some(PaddedWord::Padding(felt(Fp::from(40)))),
                ]);
                let outcome = layouter.assign_region(
                    || "add input",
                    |mut region| {
                        chip.add_input(&mut ChipRegion(&mut region), &state, &input)
                            .map_err(refused)
                    },
                )?;
                if self.witness {
                    // 5 + 6, 6 + 40 and 7 as it was.
                    assert_eq!(value_of(&outcome[0]), Some(Fp::from(11)));
                    assert_eq!(value_of(&outcome[1]), Some(Fp::from(46)));
                    assert_eq!(value_of(&outcome[2]), Some(Fp::from(7)));
                }
            }
            Task::Start => {
                let start = layouter.assign_region(
                    || "initial state",
                    |mut region| {
                        let state = chip
                            .initial_state(&mut ChipRegion(&mut region), felt(Fp::from(99)))
                            .map_err(refused)?;
                        // The values are known whether or not there is a witness.
                        assert_eq!(value_of(&state[0]), Some(Fp::zero()));
                        assert_eq!(value_of(&state[1]), Some(Fp::zero()));
                        assert_eq!(value_of(&state[2]), Some(Fp::from(99)));
                        Ok(state)
                    },
                )?;
                let output = Pow5Chip::<3, 2>::get_output(&start);
                assert_eq!(output.0.len(), 2);
                let second = output.0[1].clone().unwrap();
                assert_eq!(
                    format!("{:?}", second.0 .0.cell()),
                    format!("{:?}", start[1].0 .0.cell())
                );
            }
        }
        Ok(())
    }
}

fn record(task: Task) -> (Pow5Config<3, 2>, Vec<String>) {
    let mut meta = ConstraintSystem::default();
    let config = SmallCircuit::configure(&mut meta);
    let mut recorder = Recorder { events: Vec::new() };
    SimpleFloorPlanner::synthesize(
        &mut recorder,
        &SmallCircuit { task, witness: true },
        config.clone(),
        vec![config.rc_b[0].0],
    )
    .unwrap();
    // The first region holds the words.
    (config, recorder.events.split_off(4))
}

#[test]
fn permuting_makes_these_requests() {
    let (config, events) = record(Task::Permute);
    let p = parameters::<3>(2, 2);
    let advice = |label: String, column: AdviceColumn, row: usize, value: Fp| {
        assignment(&label, &format!("{:?}", column.0), row, value)
    };
    let fixed = |label: String, column: FixedColumn, row: usize, value: Fp| {
        assignment(&label, &format!("{:?}", column.0), row, value)
    };
    let mut state = WORDS.map(Fp::from);
    let mut expected = vec![format!("enter permute state")];
    for i in 0..3 {
        expected.push(advice(format!("load state_{}", i), config.state[i], 1, state[i]));
        let column = Column::<Any>::from(config.state[i].0);
        expected.push(tie(column, 1, column, 0));
    }
    // A full round, two partial rounds and a full round.
    for (row, round) in [(1, 0), (2, 1), (3, 3)] {
        let full = round != 1;
        let gate = if full { config.s_full } else { config.s_partial };
        expected.push(fixed(format!("round"), gate, row, Fp::one()));
        let c = p.round_constants[round];
        for i in 0..3 {
            expected.push(fixed(format!("round_{} rc_{}", round, i), config.rc_a[i], row, c[i]));
        }
        let q = [state[0] + c[0], state[1] + c[1], state[2] + c[2]];
        let next_round = if full {
            for i in 0..3 {
                expected.push(advice(
                    format!("round_{} state_rc_a", round),
                    config.state_rc_a[i],
                    row,
                    q[i],
                ));
                expected.push(advice(
                    format!("round_{} state_rc_a_sqr", round),
                    config.state_rc_a_sqr[i],
                    row,
                    q[i].square(),
                ));
            }
            state = p.mix(q.map(|x| x.pow(&[5, 0, 0, 0])));
            round + 1
        } else {
            let sbox = q[0].pow(&[5, 0, 0, 0]);
            expected.push(advice(format!("round_1 partial_sbox"), config.partial_sbox, row, sbox));
            let d = p.round_constants[round + 1];
            for i in 0..3 {
                expected.push(fixed(format!("round_2 rc_{}", i), config.rc_b[i], row, d[i]));
            }
            let mid = p.mix([sbox, q[1], q[2]]);
            let helper = mid[0] + d[0];
            for (label, column, value) in [
                ("mid_0_helper_curr", config.mid_0_helper, helper),
                ("mid_0_helper_sqr_curr", config.mid_0_helper_sqr, helper.square()),
                ("mid_0_helper_curr", config.cur_0_rc_a0, q[0]),
                ("mid_0_helper_sqr_curr", config.cur_0_rc_a0_sqr, q[0].square()),
            ] {
                expected.push(advice(format!("round_1 {}", label), column, row, value));
            }
            state = p.mix([helper.pow(&[5, 0, 0, 0]), mid[1] + d[1], mid[2] + d[2]]);
            round + 2
        };
        for i in 0..3 {
            expected.push(advice(
                format!("round_{} state_{}", next_round, i),
                config.state[i],
                row + 1,
                state[i],
            ));
        }
    }
    assert_eq!(events, expected);
}

#[test]
fn absorbing_makes_these_requests() {
    let (config, events) = record(Task::Absorb);
    let state = |i: usize| format!("{:?}", config.state[i].0);
    let any = |i: usize| Column::<Any>::from(config.state[i].0);
    let pad = config.rc_b[1].0;
    let expected = vec![
        format!("enter add input"),
        assignment("s_pad_and_add", &format!("{:?}", config.s_pad_and_add.0), 2, Fp::one()),
        assignment("load state_0", &state(0), 1, Fp::from(5)),
        tie(any(0), 1, any(0), 0),
        assignment("load state_1", &state(1), 1, Fp::from(6)),
        tie(any(1), 1, any(1), 0),
        assignment("load state_2", &state(2), 1, Fp::from(7)),
        tie(any(2), 1, any(2), 0),
        assignment("load input_0", &state(0), 2, Fp::from(6)),
        tie(any(0), 2, any(1), 0),
        assignment("load pad_1", &format!("{:?}", pad), 2, Fp::from(40)),
        assignment("load input_1", &state(1), 2, Fp::from(40)),
        tie(any(1), 2, Column::<Any>::from(pad), 2),
        assignment("load output_0", &state(0), 3, Fp::from(11)),
        assignment("load output_1", &state(1), 3, Fp::from(46)),
        assignment("load output_2", &state(2), 3, Fp::from(7)),
    ];
    assert_eq!(events, expected);
}

#[test]
fn starting_makes_these_requests() {
    let (config, events) = record(Task::Start);
    let state = |i: usize| format!("{:?}", config.state[i].0);
    assert_eq!(
        events[..4],
        [
            format!("enter initial state"),
            assignment("state_0", &state(0), 1, Fp::zero()),
            assignment("state_1", &state(1), 1, Fp::zero()),
            assignment("state_2", &state(2), 1, Fp::from(99)),
        ]
    );
}

#[test]
fn small_circuits_satisfy_the_gates() {
    for task in [Task::Permute, Task::Absorb, Task::Start] {
        let prover = MockProver::run(4, &SmallCircuit { task, witness: true }, vec![]).unwrap();
        assert_eq!(prover.verify(), Ok(()));
    }
}

#[test]
fn a_missing_witness_is_an_error() {
    for task in [Task::Permute, Task::Absorb] {
        let run = MockProver::run(4, &SmallCircuit { task, witness: false }, vec![]);
        assert!(matches!(run, Err(Error::Synthesis)));
    }
}

/// Lays out rows of which one cell may differ from what the rounds lead to.
struct ForgedCircuit {
    forge: Option<usize>,
}

impl Circuit<Fp> for ForgedCircuit {
    type Config = Pow5Config<3, 2>;
    type FloorPlanner = SimpleFloorPlanner;

    fn without_witnesses(&self) -> Self {
        ForgedCircuit { forge: self.forge }
    }

    fn configure(meta: &mut ConstraintSystem<Fp>) -> Self::Config {
        configure(meta, parameters(2, 2).spec())
    }

    fn synthesize(
        &self,
        config: Self::Config,
        mut layouter: impl Layouter<Fp>,
    ) -> Result<(), Error> {
        layouter.assign_region(
            || "one full round",
            |mut region| {
                let mut state = Vec::new();
                for i in 0..3 {
                    let word = region.assign_advice(
                        || "word",
                        config.state[i].0,
                        0,
                        || Ok(Fp::from(WORDS[i])),
                    )?;
                    state.push(StateWord(AssignedWord(word)));
                }
                let state = Pow5State(state.try_into().unwrap());
                state
                    .full_round(&mut ChipRegion(&mut region), &config, 0, 0)
                    .map_err(refused)?
                    .partial_round(&mut ChipRegion(&mut region), &config, 1, 1)
                    .map_err(refused)?;
                let cells = [
                    (config.state_rc_a[0], 0),
                    (config.state_rc_a_sqr[1], 0),
                    (config.state[2], 1),
                    (config.cur_0_rc_a0, 1),
                    (config.cur_0_rc_a0_sqr, 1),
                    (config.partial_sbox, 1),
                    (config.mid_0_helper, 1),
                    (config.mid_0_helper_sqr, 1),
                    (config.state[1], 2),
                ];
                if let Some(i) = self.forge {
                    let (column, row) = cells[i];
                    region.assign_advice(|| "forged", column.0, row, || Ok(Fp::one()))?;
                }
                Ok(())
            },
        )
    }
}

#[test]
fn the_gates_reject_a_forged_cell() {
    let honest = MockProver::run(4, &ForgedCircuit { forge: None }, vec![]).unwrap();
    assert_eq!(honest.verify(), Ok(()));
    for i in 0..9 {
        let forged = MockProver::run(4, &ForgedCircuit { forge: Some(i) }, vec![]).unwrap();
        assert!(forged.verify().is_err());
    }
}

#[test]
fn a_left_inverse_is_an_inverse() {
    let p = parameters::<3>(2, 2);
    for (a, b) in [(p.mds_inv, p.mds), (p.mds, p.mds_inv)] {
        for i in 0..3 {
            for j in 0..3 {
                let mut entry = Fp::zero();
                for k in 0..3 {
                    entry += a[i][k] * b[k][j];
                }
                assert_eq!(entry, Fp::from((i == j) as u64));
            }
        }
    }
}

/// Absorbs blocks one after the other, and checks the values of the state after every one.
struct AbsorbCircuit {
    blocks: Vec<[u64; 2]>,
    states: Vec<[u64; 3]>,
}

impl Circuit<Fp> for AbsorbCircuit {
    type Config = Pow5Config<3, 2>;
    type FloorPlanner = SimpleFloorPlanner;

    fn without_witnesses(&self) -> Self {
        AbsorbCircuit { blocks: self.blocks.clone(), states: self.states.clone() }
    }

    fn configure(meta: &mut ConstraintSystem<Fp>) -> Self::Config {
        configure(meta, parameters(2, 2).spec())
    }

    fn synthesize(
        &self,
        config: Self::Config,
        mut layouter: impl Layouter<Fp>,
    ) -> Result<(), Error> {
        let chip = Pow5Chip::construct(config);
        let mut state = layouter.assign_region(
            || "initial state",
            |mut region| {
                chip.initial_state(&mut ChipRegion(&mut region), felt(Fp::from(9)))
                    .map_err(refused)
            },
        )?;
        for (block, expected) in self.blocks.iter().zip(&self.states) {
            let input =
                Absorbing(block.map(|x| Some(PaddedWord::Padding(felt(Fp::from(x))))));
            state = layouter.assign_region(
                || "add input",
                |mut region| {
                    chip.add_input(&mut ChipRegion(&mut region), &state, &input).map_err(refused)
                },
            )?;
            for i in 0..3 {
                assert_eq!(value_of(&state[i]), Some(Fp::from(expected[i])));
            }
        }
        Ok(())
    }
}

#[test]
fn absorbing_twice_is_absorbing_the_sum() {
    for (blocks, states) in [
        (vec![[1, 2], [30, 40]], vec![[1, 2, 9], [31, 42, 9]]),
        (vec![[30, 40], [1, 2]], vec![[30, 40, 9], [31, 42, 9]]),
        (vec![[31, 42]], vec![[31, 42, 9]]),
    ] {
        let prover = MockProver::run(5, &AbsorbCircuit { blocks, states }, vec![]).unwrap();
        assert_eq!(prover.verify(), Ok(()));
    }
}

#[test]
fn different_states_have_different_images() {
    let p = parameters::<3>(2, 2);
    let a = p.permute([5, 6, 7].map(Fp::from));
    let b = p.permute([5, 6, 8].map(Fp::from));
    assert_ne!(a, b);
}

/// Refuses one request, and counts the requests.
struct Refuser {
    refuse: usize,
    requests: usize,
}

impl Refuser {
    fn answer(&mut self) -> Result<(), Error> {
        self.requests += 1;
        if self.requests == self.refuse {
            Err(Error::InvalidInstances)
        } else {
            Ok(())
        }
    }
}

impl Assignment<Fp> for Refuser {
    fn enter_region<NR, N>(&mut self, _: N)
    where
        NR: Into<String>,
        N: FnOnce() -> NR,
    {
    }

    fn exit_region(&mut self) {}

    fn enable_selector<A, AR>(&mut self, _: A, _: &Selector, _: usize) -> Result<(), Error>
    where
        A: FnOnce() -> AR,
        AR: Into<String>,
    {
        Err(Error::Synthesis)
    }

    fn query_instance(&self, _: Column<Instance>, _: usize) -> Result<Option<Fp>, Error> {
        Err(Error::Synthesis)
    }

    fn assign_advice<V, VR, A, AR>(
        &mut self,
        _: A,
        _: Column<Advice>,
        _: usize,
        to: V,
    ) -> Result<(), Error>
    where
        V: FnOnce() -> Result<VR, Error>,
        VR: Into<Assigned<Fp>>,
        A: FnOnce() -> AR,
        AR: Into<String>,
    {
        self.answer()?;
        to().map(|_| ())
    }

    fn assign_fixed<V, VR, A, AR>(
        &mut self,
        _: A,
        _: Column<Fixed>,
        _: usize,
        to: V,
    ) -> Result<(), Error>
    where
        V: FnOnce() -> Result<VR, Error>,
        VR: Into<Assigned<Fp>>,
        A: FnOnce() -> AR,
        AR: Into<String>,
    {
        self.answer()?;
        to().map(|_| ())
    }

    fn copy(&mut self, _: Column<Any>, _: usize, _: Column<Any>, _: usize) -> Result<(), Error> {
        self.answer()
    }

    fn fill_from_row(
        &mut self,
        _: Column<Fixed>,
        _: usize,
        _: Option<Assigned<Fp>>,
    ) -> Result<(), Error> {
        Err(Error::Synthesis)
    }

    fn push_namespace<NR, N>(&mut self, _: N)
    where
        NR: Into<String>,
        N: FnOnce() -> NR,
    {
    }

    fn pop_namespace(&mut self, _: Option<String>) {}
}

#[test]
fn the_first_refusal_ends_an_instruction() {
    let mut meta = ConstraintSystem::default();
    let config = SmallCircuit::configure(&mut meta);
    // Three words, and then: a state of three words loaded and tied, two rows of thirteen and one of
    // fifteen requests; or a selector, a state, a message word, a padding word and an output.
    for (task, requests) in [(Task::Permute, 3 + 6 + 13 + 15 + 13), (Task::Absorb, 18)] {
        let mut refused = 0;
        for refuse in 1..=requests + 1 {
            let mut refuser = Refuser { refuse, requests: 0 };
            let outcome = SimpleFloorPlanner::synthesize(
                &mut refuser,
                &SmallCircuit { task, witness: true },
                config.clone(),
                vec![config.rc_b[0].0],
            );
            match outcome {
                Ok(()) => assert!(refuser.requests < refuse),
                Err(error) => {
                    assert!(matches!(error, Error::InvalidInstances));
                    assert_eq!(refuser.requests, refuse);
                    refused += 1;
                }
            }
        }
        assert_eq!(refused, requests);
    }
}
