//! The configuration of the chip: its columns, its constants and the gates that tie them
//! together.
use crate::column::{AdviceColumn, FixedColumn, Query, CUR, NEXT, PREV};
use crate::field::{le_limbs, Felt};
use crate::gate::{advice, fixed, GateModel, Poly};
use crate::linear::{matrix, residues};
use crate::permutation::Permutation;
use vstd::prelude::*;

verus! {

/// Configuration for a [`Pow5Chip`](crate::chip::Pow5Chip).
#[derive(Clone, Debug)]
pub struct Pow5Config<const WIDTH: usize, const RATE: usize> {
    pub state: [AdviceColumn; WIDTH],
    pub state_rc_a: [AdviceColumn; WIDTH],
    pub state_rc_a_sqr: [AdviceColumn; WIDTH],
    pub partial_sbox: AdviceColumn,
    pub mid_0_helper: AdviceColumn,
    pub mid_0_helper_sqr: AdviceColumn,
    pub cur_0_rc_a0: AdviceColumn,
    pub cur_0_rc_a0_sqr: AdviceColumn,
    pub rc_a: [FixedColumn; WIDTH],
    pub rc_b: [FixedColumn; WIDTH],
    pub s_full: FixedColumn,
    pub s_partial: FixedColumn,
    pub s_pad_and_add: FixedColumn,
    pub half_full_rounds: usize,
    pub half_partial_rounds: usize,
    pub alpha: [u64; 4],
    pub round_constants: Vec<[Felt; WIDTH]>,
    pub m_reg: [[Felt; WIDTH]; WIDTH],
}

/// The parameters of a Poseidon permutation of `WIDTH` words.
#[derive(Clone, Debug)]
pub struct PoseidonSpec<const WIDTH: usize> {
    /// The number of full rounds.
    pub full_rounds: usize,
    /// The number of partial rounds.
    pub partial_rounds: usize,
    /// The constants of every round.
    pub round_constants: Vec<[Felt; WIDTH]>,
    /// The rows of the mixing matrix.
    pub mds: [[Felt; WIDTH]; WIDTH],
    /// The rows of the inverse of the mixing matrix.
    pub mds_inv: [[Felt; WIDTH]; WIDTH],
}

impl<const WIDTH: usize> PoseidonSpec<WIDTH> {
    /// The permutation with these parameters.
    pub open spec fn permutation(self) -> Permutation {
        Permutation {
            half_full_rounds: (self.full_rounds / 2) as nat,
            half_partial_rounds: (self.partial_rounds / 2) as nat,
            round_constants: Seq::new(
                self.round_constants@.len(),
                |r: int| residues(self.round_constants@[r]@),
            ),
            mds: matrix(self.mds),
        }
    }
}

impl<const WIDTH: usize, const RATE: usize> Pow5Config<WIDTH, RATE> {
    /// The permutation that the chip is configured for.
    pub open spec fn permutation(self) -> Permutation {
        Permutation {
            half_full_rounds: self.half_full_rounds as nat,
            half_partial_rounds: self.half_partial_rounds as nat,
            round_constants: Seq::new(
                self.round_constants@.len(),
                |r: int| residues(self.round_constants@[r]@),
            ),
            mds: matrix(self.m_reg),
        }
    }

    /// The selectors differ from one another and from the columns of the round constants.
    pub open spec fn selectors_apart(self) -> bool {
        &&& self.s_full != self.s_partial
        &&& self.s_full != self.s_pad_and_add
        &&& self.s_partial != self.s_pad_and_add
        &&& forall|i: int|
            0 <= i < WIDTH ==> {
                &&& #[trigger] self.rc_a@[i] != self.s_full
                &&& self.rc_a@[i] != self.s_partial
                &&& self.rc_a@[i] != self.s_pad_and_add
            }
        &&& forall|i: int|
            0 <= i < WIDTH ==> {
                &&& #[trigger] self.rc_b@[i] != self.s_full
                &&& self.rc_b@[i] != self.s_partial
                &&& self.rc_b@[i] != self.s_pad_and_add
            }
    }

    /// One word of the state is kept from the input, and the S-box is the fifth power.
    pub open spec fn well_formed(self) -> bool {
        &&& WIDTH == RATE + 1
        &&& le_limbs(self.alpha) == 5
    }

    /// There are constants for every round.
    pub open spec fn has_constants(self) -> bool {
        2 * self.half_full_rounds + 2 * self.half_partial_rounds <= self.round_constants@.len()
    }

    // "full round state_rc_a".

    pub open spec fn rc_a_queries(self, n: nat) -> Seq<Query>
        decreases n,
    {
        if n == 0 {
            seq![Query::Fixed(self.s_full, CUR)]
        } else {
            self.rc_a_queries((n - 1) as nat).push(Query::Advice(self.state@[n - 1], CUR)).push(
                Query::Fixed(self.rc_a@[n - 1], CUR),
            ).push(Query::Advice(self.state_rc_a@[n - 1], CUR))
        }
    }

    /// On the rows of full rounds, `state_rc_a` holds the state with the round constants added.
    pub open spec fn rc_a_poly(self, i: int) -> Poly {
        advice(self.state@[i], CUR).sum(fixed(self.rc_a@[i])).difference(
            advice(self.state_rc_a@[i], CUR),
        ).product(fixed(self.s_full))
    }

    pub open spec fn rc_a_gate(self) -> GateModel {
        GateModel {
            name: "full round state_rc_a"@,
            queries: self.rc_a_queries(WIDTH as nat),
            polys: Seq::new(WIDTH as nat, |i: int| self.rc_a_poly(i)),
        }
    }

    // "full round state_rc_a_sqr".

    pub open spec fn rc_a_sqr_queries(self, n: nat) -> Seq<Query>
        decreases n,
    {
        if n == 0 {
            seq![Query::Fixed(self.s_full, CUR)]
        } else {
            self.rc_a_sqr_queries((n - 1) as nat).push(
                Query::Advice(self.state_rc_a_sqr@[n - 1], CUR),
            ).push(Query::Advice(self.state_rc_a@[n - 1], CUR))
        }
    }

    /// On the rows of full rounds, `state_rc_a_sqr` holds the square of `state_rc_a`.
    pub open spec fn rc_a_sqr_poly(self, i: int) -> Poly {
        advice(self.state_rc_a@[i], CUR).product(advice(self.state_rc_a@[i], CUR)).difference(
            advice(self.state_rc_a_sqr@[i], CUR),
        ).product(fixed(self.s_full))
    }

    pub open spec fn rc_a_sqr_gate(self) -> GateModel {
        GateModel {
            name: "full round state_rc_a_sqr"@,
            queries: self.rc_a_sqr_queries(WIDTH as nat),
            polys: Seq::new(WIDTH as nat, |i: int| self.rc_a_sqr_poly(i)),
        }
    }

    // "full round".

    /// `base`, and then the cells that one of its polynomials mixes.
    pub open spec fn mixed_queries(self, base: Seq<Query>, n: nat) -> Seq<Query>
        decreases n,
    {
        if n == 0 {
            base
        } else {
            self.mixed_queries(base, (n - 1) as nat).push(
                Query::Advice(self.state_rc_a_sqr@[n - 1], CUR),
            ).push(Query::Advice(self.state_rc_a@[n - 1], CUR))
        }
    }

    pub open spec fn full_queries(self, n: nat) -> Seq<Query>
        decreases n,
    {
        if n == 0 {
            seq![Query::Fixed(self.s_full, CUR)]
        } else {
            self.mixed_queries(
                self.full_queries((n - 1) as nat).push(Query::Advice(self.state@[n - 1], NEXT)),
                WIDTH as nat,
            )
        }
    }

    /// The fifth power of word `i`, with its factor in row `row` of the mixing matrix.
    pub open spec fn mixed_term(self, row: int, i: int) -> Poly {
        advice(self.state_rc_a@[i], CUR).product(advice(self.state_rc_a_sqr@[i], CUR)).product(
            advice(self.state_rc_a_sqr@[i], CUR),
        ).scaled(self.m_reg@[row]@[i])
    }

    /// The sum of the first `n + 1` terms.
    pub open spec fn mixed(self, row: int, n: nat) -> Poly
        decreases n,
    {
        if n == 0 {
            self.mixed_term(row, 0)
        } else {
            self.mixed(row, (n - 1) as nat).sum(self.mixed_term(row, n as int))
        }
    }

    /// On the rows of full rounds, the next state is the mixed fifth powers.
    pub open spec fn full_poly(self, row: int) -> Poly {
        fixed(self.s_full).product(
            self.mixed(row, (WIDTH - 1) as nat).difference(advice(self.state@[row], NEXT)),
        )
    }

    pub open spec fn full_gate(self) -> GateModel {
        GateModel {
            name: "full round"@,
            queries: self.full_queries(WIDTH as nat),
            polys: Seq::new(WIDTH as nat, |i: int| self.full_poly(i)),
        }
    }

    // "cur0_rc_a0".

    /// On the rows of partial rounds, `cur_0_rc_a0` holds the first word with its round constant
    /// added.
    pub open spec fn cur_0_poly(self) -> Poly {
        advice(self.cur_0_rc_a0, CUR).difference(advice(self.state@[0], CUR)).difference(
            fixed(self.rc_a@[0]),
        ).product(fixed(self.s_partial))
    }

    /// On the rows of partial rounds, `cur_0_rc_a0_sqr` holds the square of `cur_0_rc_a0`.
    pub open spec fn cur_0_sqr_poly(self) -> Poly {
        advice(self.cur_0_rc_a0_sqr, CUR).difference(
            advice(self.cur_0_rc_a0, CUR).product(advice(self.cur_0_rc_a0, CUR)),
        ).product(fixed(self.s_partial))
    }

    pub open spec fn cur_0_gate(self) -> GateModel {
        GateModel {
            name: "cur0_rc_a0"@,
            queries: seq![
                Query::Advice(self.state@[0], CUR),
                Query::Fixed(self.rc_a@[0], CUR),
                Query::Advice(self.cur_0_rc_a0, CUR),
                Query::Advice(self.cur_0_rc_a0_sqr, CUR),
                Query::Fixed(self.s_partial, CUR),
            ],
            polys: seq![self.cur_0_poly(), self.cur_0_sqr_poly()],
        }
    }

    // "mid_0_helper".

    /// `base`, and then the cells of the state between two partial rounds.
    pub open spec fn mid_queries(self, base: Seq<Query>, n: nat) -> Seq<Query>
        decreases n,
    {
        if n == 0 {
            base
        } else {
            self.mid_queries(base, (n - 1) as nat).push(Query::Advice(self.state@[n as int], CUR)).push(
                Query::Fixed(self.rc_a@[n as int], CUR),
            )
        }
    }

    /// The first `n + 1` terms of word `row` of the state between two partial rounds.
    pub open spec fn mid(self, row: int, n: nat) -> Poly
        decreases n,
    {
        if n == 0 {
            advice(self.partial_sbox, CUR).scaled(self.m_reg@[row]@[0])
        } else {
            self.mid(row, (n - 1) as nat).sum(
                advice(self.state@[n as int], CUR).sum(fixed(self.rc_a@[n as int])).scaled(
                    self.m_reg@[row]@[n as int],
                ),
            )
        }
    }

    /// On the rows of partial rounds, `mid_0_helper` holds the first word between the two rounds
    /// with the constant of the second one added.
    pub open spec fn helper_poly(self) -> Poly {
        advice(self.mid_0_helper, CUR).difference(self.mid(0, (WIDTH - 1) as nat)).difference(
            fixed(self.rc_b@[0]),
        ).product(fixed(self.s_partial))
    }

    /// On the rows of partial rounds, `mid_0_helper_sqr` holds the square of `mid_0_helper`.
    pub open spec fn helper_sqr_poly(self) -> Poly {
        advice(self.mid_0_helper_sqr, CUR).difference(
            advice(self.mid_0_helper, CUR).product(advice(self.mid_0_helper, CUR)),
        ).product(fixed(self.s_partial))
    }

    pub open spec fn helper_gate(self) -> GateModel {
        GateModel {
            name: "mid_0_helper"@,
            queries: self.mid_queries(
                seq![
                    Query::Advice(self.partial_sbox, CUR),
                    Query::Fixed(self.rc_b@[0], CUR),
                    Query::Advice(self.mid_0_helper, CUR),
                    Query::Advice(self.mid_0_helper_sqr, CUR),
                    Query::Fixed(self.s_partial, CUR),
                ],
                (WIDTH - 1) as nat,
            ),
            polys: seq![self.helper_poly(), self.helper_sqr_poly()],
        }
    }

    // "partial rounds".

    /// `base`, and then the cells of the next state.
    pub open spec fn next_queries(self, base: Seq<Query>, n: nat) -> Seq<Query>
        decreases n,
    {
        if n == 0 {
            base
        } else {
            self.next_queries(base, (n - 1) as nat).push(Query::Advice(self.state@[n - 1], NEXT))
        }
    }

    pub open spec fn partial_base_queries(self) -> Seq<Query> {
        seq![
            Query::Advice(self.partial_sbox, CUR),
            Query::Advice(self.mid_0_helper, CUR),
            Query::Advice(self.mid_0_helper_sqr, CUR),
            Query::Advice(self.cur_0_rc_a0, CUR),
            Query::Advice(self.cur_0_rc_a0_sqr, CUR),
            Query::Fixed(self.s_partial, CUR),
        ]
    }

    pub open spec fn partial_queries(self, n: nat) -> Seq<Query>
        decreases n,
    {
        if n == 0 {
            self.next_queries(self.partial_base_queries(), WIDTH as nat)
        } else {
            self.next_queries(
                self.mid_queries(
                    self.partial_queries((n - 1) as nat).push(
                        Query::Fixed(self.rc_b@[n as int], CUR),
                    ),
                    (WIDTH - 1) as nat,
                ),
                WIDTH as nat,
            )
        }
    }

    /// The first `n + 1` terms of word `row` of the next state, taken back through the mixing
    /// matrix.
    pub open spec fn unmixed(self, m_inv: [[Felt; WIDTH]; WIDTH], row: int, n: nat) -> Poly
        decreases n,
    {
        if n == 0 {
            advice(self.state@[0], NEXT).scaled(m_inv@[row]@[0])
        } else {
            self.unmixed(m_inv, row, (n - 1) as nat).sum(
                advice(self.state@[n as int], NEXT).scaled(m_inv@[row]@[n as int]),
            )
        }
    }

    /// On the rows of partial rounds, `partial_sbox` holds the fifth power of `cur_0_rc_a0`.
    pub open spec fn sbox_a_poly(self) -> Poly {
        fixed(self.s_partial).product(
            advice(self.cur_0_rc_a0_sqr, CUR).product(advice(self.cur_0_rc_a0_sqr, CUR)).product(
                advice(self.cur_0_rc_a0, CUR),
            ).difference(advice(self.partial_sbox, CUR)),
        )
    }

    /// On the rows of partial rounds, the first word of the next state before mixing is the fifth
    /// power of `mid_0_helper`.
    pub open spec fn sbox_b_poly(self, m_inv: [[Felt; WIDTH]; WIDTH]) -> Poly {
        fixed(self.s_partial).product(
            advice(self.mid_0_helper_sqr, CUR).product(advice(self.mid_0_helper_sqr, CUR)).product(
                advice(self.mid_0_helper, CUR),
            ).difference(self.unmixed(m_inv, 0, (WIDTH - 1) as nat)),
        )
    }

    /// On the rows of partial rounds, the other words of the next state before mixing are those
    /// between the two rounds with the constants of the second one added.
    pub open spec fn linear_poly(self, m_inv: [[Felt; WIDTH]; WIDTH], row: int) -> Poly {
        fixed(self.s_partial).product(
            self.mid(row, (WIDTH - 1) as nat).sum(fixed(self.rc_b@[row])).difference(
                self.unmixed(m_inv, row, (WIDTH - 1) as nat),
            ),
        )
    }

    pub open spec fn partial_gate(self, m_inv: [[Felt; WIDTH]; WIDTH]) -> GateModel {
        GateModel {
            name: "partial rounds"@,
            queries: self.partial_queries((WIDTH - 1) as nat),
            polys: Seq::new(
                (WIDTH + 1) as nat,
                |i: int|
                    if i == 0 {
                        self.sbox_a_poly()
                    } else if i == 1 {
                        self.sbox_b_poly(m_inv)
                    } else {
                        self.linear_poly(m_inv, i - 1)
                    },
            ),
        }
    }

    // "pad-and-add".

    pub open spec fn pad_queries(self, n: nat) -> Seq<Query>
        decreases n,
    {
        if n == 0 {
            seq![
                Query::Advice(self.state@[RATE as int], PREV),
                Query::Advice(self.state@[RATE as int], NEXT),
                Query::Fixed(self.s_pad_and_add, CUR),
            ]
        } else {
            self.pad_queries((n - 1) as nat).push(Query::Advice(self.state@[n - 1], PREV)).push(
                Query::Advice(self.state@[n - 1], CUR),
            ).push(Query::Advice(self.state@[n - 1], NEXT))
        }
    }

    /// Around a row of input, a word of the next state is that of the previous state with the
    /// input added.
    pub open spec fn pad_poly(self, i: int) -> Poly {
        fixed(self.s_pad_and_add).product(
            advice(self.state@[i], PREV).sum(advice(self.state@[i], CUR)).difference(
                advice(self.state@[i], NEXT),
            ),
        )
    }

    /// Around a row of input, the last word stays as it was.
    pub open spec fn capacity_poly(self) -> Poly {
        fixed(self.s_pad_and_add).product(
            advice(self.state@[RATE as int], PREV).difference(advice(self.state@[RATE as int], NEXT)),
        )
    }

    pub open spec fn pad_gate(self) -> GateModel {
        GateModel {
            name: "pad-and-add"@,
            queries: self.pad_queries(RATE as nat),
            polys: Seq::new(
                (RATE + 1) as nat,
                |i: int|
                    if i < RATE {
                        self.pad_poly(i)
                    } else {
                        self.capacity_poly()
                    },
            ),
        }
    }

    /// All gates of the chip, in order.
    pub open spec fn gates(self, m_inv: [[Felt; WIDTH]; WIDTH]) -> Seq<GateModel> {
        seq![
            self.rc_a_gate(),
            self.rc_a_sqr_gate(),
            self.full_gate(),
            self.cur_0_gate(),
            self.helper_gate(),
            self.partial_gate(m_inv),
            self.pad_gate(),
        ]
    }
}

} // verus!
