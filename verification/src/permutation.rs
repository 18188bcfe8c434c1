//! The Poseidon permutation with the fifth power as its S-box, as a specification, and its
//! arrangement in rows: one full round to a row, two partial rounds to a row.
use crate::field::{
    fadd, fpow, group_in_field, law_the_field_is_arithmetic_modulo_its_order,
    lemma_fadd_associates, lemma_fadd_commutes, lemma_small_residues, modulus,
};
use crate::linear::{
    law_a_dot_product_sums_products, lemma_mat_vec_in_field, mat_vec, vector_in_field,
};
use vstd::arithmetic::div_mod::lemma_mod_twice;
use vstd::arithmetic::power::{lemma_pow_mod_noop, pow};
use vstd::prelude::*;

verus! {

/// What determines a permutation: the halved numbers of full and of partial rounds, the round
/// constants and the rows of the mixing matrix.
pub struct Permutation {
    pub half_full_rounds: nat,
    pub half_partial_rounds: nat,
    pub round_constants: Seq<Seq<int>>,
    pub mds: Seq<Seq<int>>,
}

pub open spec fn sbox(x: int) -> int {
    fpow(x, 5)
}

/// Adds the constants of a round to the state.
pub open spec fn add_constants(state: Seq<int>, constants: Seq<int>) -> Seq<int> {
    Seq::new(state.len(), |i: int| fadd(state[i], constants[i]))
}

/// The S-box on every word of the state.
pub open spec fn sbox_all(state: Seq<int>) -> Seq<int> {
    Seq::new(state.len(), |i: int| sbox(state[i]))
}

/// The S-box on the first word of the state only.
pub open spec fn sbox_first(state: Seq<int>) -> Seq<int> {
    state.update(0, sbox(state[0]))
}

pub open spec fn full_round(mds: Seq<Seq<int>>, constants: Seq<int>, state: Seq<int>) -> Seq<int> {
    mat_vec(mds, sbox_all(add_constants(state, constants)))
}

pub open spec fn partial_round(mds: Seq<Seq<int>>, constants: Seq<int>, state: Seq<int>) -> Seq<
    int,
> {
    mat_vec(mds, sbox_first(add_constants(state, constants)))
}

impl Permutation {
    /// Every constant and the matrix have the width `width`, and there are constants for every
    /// round.
    pub open spec fn shaped(self, width: nat) -> bool {
        &&& width > 0
        &&& self.rounds() <= self.round_constants.len()
        &&& forall|r: int|
            0 <= r < self.round_constants.len() ==> (#[trigger] self.round_constants[r]).len()
                == width
        &&& self.mds.len() == width
        &&& forall|i: int| 0 <= i < width ==> (#[trigger] self.mds[i]).len() == width
    }

    /// The number of rounds.
    pub open spec fn rounds(self) -> nat {
        2 * self.half_full_rounds + 2 * self.half_partial_rounds
    }

    /// Round `r` is a full one: the partial rounds stand between two halves of full ones.
    pub open spec fn round_is_full(self, r: nat) -> bool {
        r < self.half_full_rounds || r >= self.half_full_rounds + 2 * self.half_partial_rounds
    }

    /// The state after round `r` is applied to `state`.
    pub open spec fn round(self, r: nat, state: Seq<int>) -> Seq<int> {
        if self.round_is_full(r) {
            full_round(self.mds, self.round_constants[r as int], state)
        } else {
            partial_round(self.mds, self.round_constants[r as int], state)
        }
    }

    /// The state after the first `r` rounds.
    pub open spec fn after_rounds(self, state: Seq<int>, r: nat) -> Seq<int>
        decreases r,
    {
        if r == 0 {
            state
        } else {
            self.round((r - 1) as nat, self.after_rounds(state, (r - 1) as nat))
        }
    }

    /// The image of `state` under the permutation.
    pub open spec fn permute(self, state: Seq<int>) -> Seq<int> {
        self.after_rounds(state, self.rounds())
    }

    /// The number of rows that the permutation takes.
    pub open spec fn rows(self) -> nat {
        2 * self.half_full_rounds + self.half_partial_rounds
    }

    /// Row `k` holds one full round; otherwise it holds two partial ones.
    pub open spec fn row_is_full(self, k: nat) -> bool {
        k < self.half_full_rounds || k >= self.half_full_rounds + self.half_partial_rounds
    }

    /// The first round that row `k` holds.
    pub open spec fn row_round(self, k: nat) -> nat {
        if k < self.half_full_rounds {
            k
        } else if k < self.half_full_rounds + self.half_partial_rounds {
            (self.half_full_rounds + 2 * (k - self.half_full_rounds)) as nat
        } else {
            k + self.half_partial_rounds
        }
    }

    /// The state after the rounds of row `k` are applied to `state`.
    pub open spec fn row(self, k: nat, state: Seq<int>) -> Seq<int> {
        let r = self.row_round(k) as int;
        if self.row_is_full(k) {
            full_round(self.mds, self.round_constants[r], state)
        } else {
            partial_round(
                self.mds,
                self.round_constants[r + 1],
                partial_round(self.mds, self.round_constants[r], state),
            )
        }
    }

    /// The state after the first `k` rows.
    pub open spec fn after_rows(self, state: Seq<int>, k: nat) -> Seq<int>
        decreases k,
    {
        if k == 0 {
            state
        } else {
            self.row((k - 1) as nat, self.after_rows(state, (k - 1) as nat))
        }
    }
}

/// Adds a block of input to a state. Words beyond the block stay as they are.
pub open spec fn absorb(state: Seq<int>, block: Seq<int>) -> Seq<int> {
    Seq::new(
        state.len(),
        |i: int|
            if i < block.len() {
                fadd(state[i], block[i])
            } else {
                state[i]
            },
    )
}

/// The sum of two blocks of input.
pub open spec fn block_sum(a: Seq<int>, b: Seq<int>) -> Seq<int> {
    Seq::new(a.len(), |i: int| fadd(a[i], b[i]))
}

impl Permutation {
    /// The state of a sponge after the first `n` blocks: each is added to the state, and the sum is
    /// permuted.
    pub open spec fn sponge(self, initial: Seq<int>, blocks: Seq<Seq<int>>, n: nat) -> Seq<int>
        decreases n,
    {
        if n == 0 {
            initial
        } else {
            self.permute(absorb(self.sponge(initial, blocks, (n - 1) as nat), blocks[n - 1]))
        }
    }

    /// The hash of `blocks`: the first `rate` words of the state after all of them.
    pub open spec fn hash(self, initial: Seq<int>, blocks: Seq<Seq<int>>, rate: nat) -> Seq<int> {
        self.sponge(initial, blocks, blocks.len()).take(rate as int)
    }
}

/// The residues of a sum are those of its terms, and so are those of a power.
proof fn lemma_powers_of_sums(x: int, c: int)
    ensures
        fadd(x, c) % modulus() == (x + c) % modulus(),
        sbox(fadd(x, c)) % modulus() == pow(x + c, 5) % modulus(),
{
    lemma_small_residues();
    lemma_mod_twice(x + c, modulus());
    lemma_pow_mod_noop(x + c, 5, modulus());
    lemma_mod_twice(pow(fadd(x, c), 5), modulus());
}

/// A full round adds the constants of the round to all words, takes the fifth powers of all of them
/// and mixes these: word `i` of the outcome is the sum of the fifth powers, each times its entry in
/// row `i` of the matrix, modulo the order of the field. The sum is given with all it grows through.
pub proof fn law_a_full_round_mixes_fifth_powers(
    mds: Seq<Seq<int>>,
    constants: Seq<int>,
    state: Seq<int>,
    i: int,
) -> (sums: Seq<int>)
    requires
        0 <= i < mds.len(),
    ensures
        full_round(mds, constants, state).len() == mds.len(),
        sums.len() == state.len() + 1,
        sums[0] == 0,
        forall|j: int|
            0 <= j < state.len() ==> #[trigger] sums[j + 1] == sums[j] + mds[i][j] * pow(
                state[j] + constants[j],
                5,
            ),
        full_round(mds, constants, state)[i] == sums.last() % 0x40000000000000000000000000000000224698fc094cf91b992d30ed00000001int,
{
    let b = sbox_all(add_constants(state, constants));
    let w = Seq::new(state.len(), |j: int| pow(state[j] + constants[j], 5));
    assert forall|j: int| 0 <= j < state.len() implies #[trigger] b[j] % modulus() == w[j]
        % modulus() by {
        lemma_powers_of_sums(state[j], constants[j]);
    }
    law_a_dot_product_sums_products(mds[i], b, w, state.len())
}

/// A partial round adds the constants of the round to all words, takes the fifth power of the first
/// one only and mixes.
pub proof fn law_a_partial_round_mixes_one_fifth_power(
    mds: Seq<Seq<int>>,
    constants: Seq<int>,
    state: Seq<int>,
    i: int,
) -> (sums: Seq<int>)
    requires
        0 <= i < mds.len(),
        state.len() > 0,
    ensures
        partial_round(mds, constants, state).len() == mds.len(),
        sums.len() == state.len() + 1,
        sums[0] == 0,
        sums[1] == mds[i][0] * pow(state[0] + constants[0], 5),
        forall|j: int|
            1 <= j < state.len() ==> #[trigger] sums[j + 1] == sums[j] + mds[i][j] * (state[j]
                + constants[j]),
        partial_round(mds, constants, state)[i] == sums.last() % 0x40000000000000000000000000000000224698fc094cf91b992d30ed00000001int,
{
    let b = sbox_first(add_constants(state, constants));
    let w = Seq::new(
        state.len(),
        |j: int|
            if j == 0 {
                pow(state[0] + constants[0], 5)
            } else {
                state[j] + constants[j]
            },
    );
    assert forall|j: int| 0 <= j < state.len() implies #[trigger] b[j] % modulus() == w[j]
        % modulus() by {
        lemma_powers_of_sums(state[j], constants[j]);
    }
    let sums = law_a_dot_product_sums_products(mds[i], b, w, state.len());
    assert(sums[0int + 1] == sums[0] + mds[i][0] * w[0]);
    sums
}

impl Permutation {
    /// The permutation goes through twice `half_full_rounds` full rounds and twice
    /// `half_partial_rounds` partial ones. The partial ones stand in the middle, and every round has
    /// the constants of its own number.
    pub proof fn law_the_permutation_goes_round_by_round(self, state: Seq<int>) -> (states: Seq<
        Seq<int>,
    >)
        ensures
            self.rounds() == 2 * self.half_full_rounds + 2 * self.half_partial_rounds,
            states.len() == 2 * self.half_full_rounds + 2 * self.half_partial_rounds + 1,
            states[0] == state,
            states.last() == self.permute(state),
            forall|r: int|
                0 <= r < self.half_full_rounds ==> #[trigger] states[r + 1] == full_round(
                    self.mds,
                    self.round_constants[r],
                    states[r],
                ),
            forall|r: int|
                self.half_full_rounds <= r < self.half_full_rounds + 2 * self.half_partial_rounds
                    ==> #[trigger] states[r + 1] == partial_round(
                    self.mds,
                    self.round_constants[r],
                    states[r],
                ),
            forall|r: int|
                self.half_full_rounds + 2 * self.half_partial_rounds <= r < 2
                    * self.half_full_rounds + 2 * self.half_partial_rounds
                    ==> #[trigger] states[r + 1] == full_round(
                    self.mds,
                    self.round_constants[r],
                    states[r],
                ),
    {
        let states = Seq::new(self.rounds() + 1, |r: int| self.after_rounds(state, r as nat));
        assert forall|r: int| 0 <= r < self.rounds() implies #[trigger] states[r + 1]
            == self.round(r as nat, states[r]) by {
            assert(states[r + 1] == self.after_rounds(state, (r + 1) as nat));
        }
        states
    }

    /// The rows: one full round to each of the first and of the last `half_full_rounds`, and two
    /// partial rounds to each of those between them.
    pub proof fn law_rows_hold_the_rounds(self, k: nat)
        requires
            k < 2 * self.half_full_rounds + self.half_partial_rounds,
        ensures
            self.rows() == 2 * self.half_full_rounds + self.half_partial_rounds,
            k < self.half_full_rounds ==> self.row_is_full(k) && self.row_round(k) == k,
            self.half_full_rounds <= k < self.half_full_rounds + self.half_partial_rounds
                ==> !self.row_is_full(k) && self.row_round(k) == self.half_full_rounds + 2 * (k
                - self.half_full_rounds),
            self.half_full_rounds + self.half_partial_rounds <= k ==> self.row_is_full(k)
                && self.row_round(k) == self.half_full_rounds + 2 * self.half_partial_rounds + (k
                - self.half_full_rounds - self.half_partial_rounds),
    {
    }

    /// A sponge goes through its blocks: word by word, each is added to the state modulo the order of
    /// the field, and the sum is permuted. The hash is the first words of the last state.
    pub proof fn law_a_sponge_goes_block_by_block(
        self,
        initial: Seq<int>,
        blocks: Seq<Seq<int>>,
        rate: nat,
    ) -> (states: Seq<Seq<int>>)
        requires
            rate <= self.sponge(initial, blocks, blocks.len()).len(),
        ensures
            states.len() == blocks.len() + 1,
            states[0] == initial,
            forall|j: int|
                #![trigger states[j + 1]]
                0 <= j < blocks.len() ==> exists|sum: Seq<int>|
                    {
                        &&& states[j + 1] == #[trigger] self.permute(sum)
                        &&& sum.len() == states[j].len()
                        &&& forall|i: int|
                            0 <= i < sum.len() ==> #[trigger] sum[i] == if i < blocks[j].len() {
                                (states[j][i] + blocks[j][i]) % 0x40000000000000000000000000000000224698fc094cf91b992d30ed00000001int
                            } else {
                                states[j][i]
                            }
                    },
            self.hash(initial, blocks, rate).len() == rate,
            forall|i: int|
                0 <= i < rate ==> #[trigger] self.hash(initial, blocks, rate)[i]
                    == states.last()[i],
    {
        law_the_field_is_arithmetic_modulo_its_order(0, 0, 0);
        let states = Seq::new(blocks.len() + 1, |j: int| self.sponge(initial, blocks, j as nat));
        assert forall|j: int|
            #![trigger states[j + 1]]
            0 <= j < blocks.len() implies exists|sum: Seq<int>|
            {
                &&& states[j + 1] == #[trigger] self.permute(sum)
                &&& sum.len() == states[j].len()
                &&& forall|i: int|
                    0 <= i < sum.len() ==> #[trigger] sum[i] == if i < blocks[j].len() {
                        (states[j][i] + blocks[j][i]) % 0x40000000000000000000000000000000224698fc094cf91b992d30ed00000001int
                    } else {
                        states[j][i]
                    }
            } by {
            let sum = absorb(states[j], blocks[j]);
            assert(states[j + 1] == self.sponge(initial, blocks, (j + 1) as nat));
            assert(states[j + 1] == self.permute(sum));
        }
        states
    }
}

/// Absorbing two blocks one after the other is absorbing their sum, in either order.
pub proof fn law_absorbing_twice_is_absorbing_the_sum(
    state: Seq<int>,
    first: Seq<int>,
    second: Seq<int>,
)
    requires
        first.len() == second.len(),
    ensures
        absorb(absorb(state, first), second) == absorb(state, block_sum(first, second)),
        absorb(absorb(state, second), first) == absorb(state, block_sum(first, second)),
{
    assert forall|i: int| 0 <= i < state.len() implies #[trigger] absorb(
        absorb(state, first),
        second,
    )[i] == absorb(state, block_sum(first, second))[i] && absorb(absorb(state, second), first)[i]
        == absorb(state, block_sum(first, second))[i] by {
        if i < first.len() {
            lemma_fadd_associates(state[i], first[i], second[i]);
            lemma_fadd_associates(state[i], second[i], first[i]);
            lemma_fadd_commutes(first[i], second[i]);
        }
    }
    assert(absorb(absorb(state, first), second) =~= absorb(state, block_sum(first, second)));
    assert(absorb(absorb(state, second), first) =~= absorb(state, block_sum(first, second)));
}

proof fn lemma_rows_reach_round(p: Permutation, state: Seq<int>, k: nat)
    requires
        k <= p.rows(),
    ensures
        p.after_rows(state, k) == p.after_rounds(state, p.row_round(k)),
    decreases k,
{
    if k > 0 {
        let j = (k - 1) as nat;
        lemma_rows_reach_round(p, state, j);
        let r = p.row_round(j);
        if p.row_is_full(j) {
            assert(p.row_round(k) == r + 1);
            assert(p.round_is_full(r));
        } else {
            assert(p.row_round(k) == r + 2);
            assert(!p.round_is_full(r) && !p.round_is_full(r + 1));
            assert(p.after_rounds(state, r + 1) == p.round(r, p.after_rounds(state, r)));
            assert(p.after_rounds(state, r + 2) == p.round(
                r + 1,
                p.after_rounds(state, r + 1),
            ));
        }
    }
}

/// Going through the rows is going through the rounds: the arrangement computes the
/// permutation.
pub proof fn law_rows_compute_the_permutation(p: Permutation, state: Seq<int>)
    ensures
        p.after_rows(state, p.rows()) == p.permute(state),
{
    lemma_rows_reach_round(p, state, p.rows());
    assert(p.row_round(p.rows()) == p.rounds());
}

pub proof fn lemma_add_constants_in_field(state: Seq<int>, constants: Seq<int>)
    ensures
        vector_in_field(add_constants(state, constants)),
        vector_in_field(sbox_all(add_constants(state, constants))),
        state.len() > 0 ==> vector_in_field(sbox_first(add_constants(state, constants))),
{
    broadcast use group_in_field;

}

/// Every state on the way has the width of the permutation and holds least residues.
pub proof fn lemma_row_in_field(p: Permutation, k: nat, state: Seq<int>, width: nat)
    requires
        p.shaped(width),
    ensures
        vector_in_field(p.row(k, state)),
        p.row(k, state).len() == width,
{
    let r = p.row_round(k) as int;
    lemma_mat_vec_in_field(p.mds, sbox_all(add_constants(state, p.round_constants[r])));
    let mid = partial_round(p.mds, p.round_constants[r], state);
    lemma_mat_vec_in_field(p.mds, sbox_first(add_constants(mid, p.round_constants[r + 1])));
}

} // verus!
