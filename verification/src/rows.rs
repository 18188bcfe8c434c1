//! What the gates of the chip demand of a row of a table.
use crate::column::{CUR, NEXT};
use crate::config::Pow5Config;
use crate::field::{
    fadd, fmul, fsub, group_in_field, in_field, lemma_fadd_zero, lemma_fifth_power,
    lemma_fmul_commutes, lemma_fmul_one, lemma_fmul_zero, lemma_fsub_self, lemma_fsub_twice,
    lemma_fsub_zero, Felt,
};
use crate::gate::{advice, fixed, Poly, Table};
use crate::linear::{
    dot, law_left_inverse_is_inverse, lemma_dot_in_field, lemma_inverse_cancels,
    lemma_matrix_in_field, mat_vec, matrix, undoes,
};
use crate::permutation::{
    add_constants, full_round, lemma_add_constants_in_field, partial_round, sbox, sbox_all,
    sbox_first,
};
use vstd::prelude::*;

verus! {

/// Under a selector that is set, a polynomial vanishes where it vanishes without the selector;
/// under one that is not set, it vanishes.
proof fn lemma_selected(x: int, selector: int)
    requires
        in_field(x),
    ensures
        selector == 1 ==> fmul(x, selector) == x && fmul(selector, x) == x,
        selector == 0 ==> fmul(x, selector) == 0 && fmul(selector, x) == 0,
{
    lemma_fmul_one(x);
    lemma_fmul_zero(x);
}

proof fn lemma_difference_vanishes(x: int, y: int)
    requires
        in_field(x),
        in_field(y),
    ensures
        fsub(x, y) == 0 <==> x == y,
{
    lemma_fsub_self(x);
    if fsub(x, y) == 0 {
        lemma_fsub_zero(x, y);
    }
}

proof fn lemma_second_difference_vanishes(x: int, y: int, z: int)
    requires
        in_field(x),
    ensures
        fsub(fsub(x, y), z) == 0 <==> x == fadd(y, z),
{
    broadcast use group_in_field;

    lemma_fsub_twice(x, y, z);
    lemma_difference_vanishes(x, fadd(y, z));
}

impl<const WIDTH: usize, const RATE: usize> Pow5Config<WIDTH, RATE> {
    /// The words of the state on row `row`.
    pub open spec fn state_at(self, table: Table, row: int) -> Seq<int> {
        Seq::new(WIDTH as nat, |i: int| (table.advice)(self.state@[i], row))
    }

    /// The constants of the first round of row `row`.
    pub open spec fn rc_a_at(self, table: Table, row: int) -> Seq<int> {
        Seq::new(WIDTH as nat, |i: int| (table.fixed)(self.rc_a@[i], row))
    }

    /// The constants of the second round of row `row`.
    pub open spec fn rc_b_at(self, table: Table, row: int) -> Seq<int> {
        Seq::new(WIDTH as nat, |i: int| (table.fixed)(self.rc_b@[i], row))
    }

    /// The fifth powers that a row of a full round mixes.
    pub open spec fn powers_at(self, table: Table, row: int) -> Seq<int> {
        Seq::new(
            WIDTH as nat,
            |i: int|
                {
                    let sqr = (table.advice)(self.state_rc_a_sqr@[i], row);
                    fmul(fmul((table.advice)(self.state_rc_a@[i], row), sqr), sqr)
                },
        )
    }

    /// The words that the first round of a row of partial rounds mixes.
    pub open spec fn unmixed_mid_at(self, table: Table, row: int) -> Seq<int> {
        Seq::new(
            WIDTH as nat,
            |i: int|
                if i == 0 {
                    (table.advice)(self.partial_sbox, row)
                } else {
                    fadd(self.state_at(table, row)[i], self.rc_a_at(table, row)[i])
                },
        )
    }

    /// Word `i` of the state between the two partial rounds of a row.
    pub open spec fn mid_at(self, table: Table, row: int, i: int) -> int {
        dot(matrix(self.m_reg)[i], self.unmixed_mid_at(table, row), WIDTH as nat)
    }

    /// The demands of the gates "full round state_rc_a", "full round state_rc_a_sqr" and "full
    /// round" on a row of a full round.
    pub open spec fn full_row(self, table: Table, row: int) -> bool {
        forall|i: int|
            0 <= i < WIDTH ==> {
                &&& (table.advice)(self.state_rc_a@[i], row) == fadd(
                    #[trigger] self.state_at(table, row)[i],
                    self.rc_a_at(table, row)[i],
                )
                &&& (table.advice)(self.state_rc_a_sqr@[i], row) == fmul(
                    (table.advice)(self.state_rc_a@[i], row),
                    (table.advice)(self.state_rc_a@[i], row),
                )
                &&& self.state_at(table, row + 1)[i] == dot(
                    matrix(self.m_reg)[i],
                    self.powers_at(table, row),
                    WIDTH as nat,
                )
            }
    }

    /// The demands of the gates "cur0_rc_a0", "mid_0_helper" and "partial rounds" on a row of
    /// partial rounds.
    pub open spec fn partial_row(
        self,
        m_inv: [[Felt; WIDTH]; WIDTH],
        table: Table,
        row: int,
    ) -> bool {
        let first = (table.advice)(self.cur_0_rc_a0, row);
        let first_sqr = (table.advice)(self.cur_0_rc_a0_sqr, row);
        let helper = (table.advice)(self.mid_0_helper, row);
        let helper_sqr = (table.advice)(self.mid_0_helper_sqr, row);
        let next = self.state_at(table, row + 1);
        &&& first == fadd(self.state_at(table, row)[0], self.rc_a_at(table, row)[0])
        &&& first_sqr == fmul(first, first)
        &&& helper == fadd(self.mid_at(table, row, 0), self.rc_b_at(table, row)[0])
        &&& helper_sqr == fmul(helper, helper)
        &&& (table.advice)(self.partial_sbox, row) == fmul(fmul(first_sqr, first_sqr), first)
        &&& dot(matrix(m_inv)[0], next, WIDTH as nat) == fmul(
            fmul(helper_sqr, helper_sqr),
            helper,
        )
        &&& forall|i: int|
            1 <= i < WIDTH ==> dot(#[trigger] matrix(m_inv)[i], next, WIDTH as nat) == fadd(
                self.mid_at(table, row, i),
                self.rc_b_at(table, row)[i],
            )
    }

    /// The demands of "pad-and-add" on a row of input.
    pub open spec fn input_row(self, table: Table, row: int) -> bool {
        &&& forall|i: int|
            0 <= i < RATE ==> #[trigger] self.state_at(table, row + 1)[i] == fadd(
                self.state_at(table, row - 1)[i],
                self.state_at(table, row)[i],
            )
        &&& self.state_at(table, row + 1)[RATE as int] == self.state_at(table, row - 1)[RATE as int]
    }

    proof fn lemma_mixed(self, table: Table, row: int, i: int, n: nat)
        requires
            table.well_formed(),
            0 <= i < WIDTH,
            n < WIDTH,
        ensures
            self.mixed(i, n).eval(table, row) == dot(
                matrix(self.m_reg)[i],
                self.powers_at(table, row),
                n + 1,
            ),
        decreases n,
    {
        reveal_with_fuel(Poly::eval, 5);
        let m = matrix(self.m_reg)[i];
        let p = self.powers_at(table, row);
        let term = self.mixed_term(i, n as int);
        assert(term.eval(table, row) == fmul(p[n as int], m[n as int]));
        lemma_fmul_commutes(p[n as int], m[n as int]);
        if n == 0 {
            broadcast use group_in_field;

            lemma_fadd_zero(fmul(m[0], p[0]));
            assert(dot(m, p, 0) == 0);
        } else {
            self.lemma_mixed(table, row, i, (n - 1) as nat);
        }
    }

    proof fn lemma_mid(self, table: Table, row: int, i: int, n: nat)
        requires
            table.well_formed(),
            0 <= i < WIDTH,
            n < WIDTH,
        ensures
            self.mid(i, n).eval(table, row) == dot(
                matrix(self.m_reg)[i],
                self.unmixed_mid_at(table, row),
                n + 1,
            ),
        decreases n,
    {
        reveal_with_fuel(Poly::eval, 4);
        let m = matrix(self.m_reg)[i];
        let w = self.unmixed_mid_at(table, row);
        lemma_fmul_commutes(w[n as int], m[n as int]);
        if n == 0 {
            broadcast use group_in_field;

            lemma_fadd_zero(fmul(m[0], w[0]));
            assert(dot(m, w, 0) == 0);
        } else {
            self.lemma_mid(table, row, i, (n - 1) as nat);
        }
    }

    proof fn lemma_unmixed(
        self,
        m_inv: [[Felt; WIDTH]; WIDTH],
        table: Table,
        row: int,
        i: int,
        n: nat,
    )
        requires
            table.well_formed(),
            0 <= i < WIDTH,
            n < WIDTH,
        ensures
            self.unmixed(m_inv, i, n).eval(table, row) == dot(
                matrix(m_inv)[i],
                self.state_at(table, row + 1),
                n + 1,
            ),
        decreases n,
    {
        reveal_with_fuel(Poly::eval, 4);
        let m = matrix(m_inv)[i];
        let next = self.state_at(table, row + 1);
        lemma_fmul_commutes(next[n as int], m[n as int]);
        if n == 0 {
            broadcast use group_in_field;

            lemma_fadd_zero(fmul(m[0], next[0]));
            assert(dot(m, next, 0) == 0);
        } else {
            self.lemma_unmixed(m_inv, table, row, i, (n - 1) as nat);
        }
    }

    /// The gates of full rounds demand `full_row` of the rows of full rounds, and nothing of other
    /// rows.
    pub proof fn law_full_gates(self, table: Table, row: int)
        requires
            WIDTH > 0,
            table.well_formed(),
        ensures
            (table.fixed)(self.s_full, row) == 1 ==> ((self.rc_a_gate().holds(table, row)
                && self.rc_a_sqr_gate().holds(table, row) && self.full_gate().holds(table, row))
                <==> self.full_row(table, row)),
            (table.fixed)(self.s_full, row) == 0 ==> self.rc_a_gate().holds(table, row)
                && self.rc_a_sqr_gate().holds(table, row) && self.full_gate().holds(table, row),
    {
        let s = (table.fixed)(self.s_full, row);
        assert forall|i: int| 0 <= i < WIDTH implies {
            &&& s == 0 ==> #[trigger] self.rc_a_poly(i).eval(table, row) == 0
                && self.rc_a_sqr_poly(i).eval(table, row) == 0 && self.full_poly(i).eval(table, row)
                == 0
            &&& s == 1 ==> ((self.rc_a_poly(i).eval(table, row) == 0) <==> (table.advice)(
                self.state_rc_a@[i],
                row,
            ) == fadd(self.state_at(table, row)[i], self.rc_a_at(table, row)[i]))
            &&& s == 1 ==> ((self.rc_a_sqr_poly(i).eval(table, row) == 0) <==> (table.advice)(
                self.state_rc_a_sqr@[i],
                row,
            ) == fmul(
                (table.advice)(self.state_rc_a@[i], row),
                (table.advice)(self.state_rc_a@[i], row),
            ))
            &&& s == 1 ==> ((self.full_poly(i).eval(table, row) == 0) <==> self.state_at(
                table,
                row + 1,
            )[i] == dot(matrix(self.m_reg)[i], self.powers_at(table, row), WIDTH as nat))
        } by {
            self.lemma_full_polys(table, row, i);
        }
        if s == 1 {
            if self.rc_a_gate().holds(table, row) && self.rc_a_sqr_gate().holds(table, row)
                && self.full_gate().holds(table, row) {
                assert forall|i: int| 0 <= i < WIDTH implies {
                    &&& (table.advice)(self.state_rc_a@[i], row) == fadd(
                        #[trigger] self.state_at(table, row)[i],
                        self.rc_a_at(table, row)[i],
                    )
                    &&& (table.advice)(self.state_rc_a_sqr@[i], row) == fmul(
                        (table.advice)(self.state_rc_a@[i], row),
                        (table.advice)(self.state_rc_a@[i], row),
                    )
                    &&& self.state_at(table, row + 1)[i] == dot(
                        matrix(self.m_reg)[i],
                        self.powers_at(table, row),
                        WIDTH as nat,
                    )
                } by {
                    assert(self.rc_a_gate().polys[i].eval(table, row) == 0);
                    assert(self.rc_a_sqr_gate().polys[i].eval(table, row) == 0);
                    assert(self.full_gate().polys[i].eval(table, row) == 0);
                    assert(self.rc_a_poly(i).eval(table, row) == 0);
                }
            }
            if self.full_row(table, row) {
                assert forall|i: int| 0 <= i < WIDTH implies {
                    &&& #[trigger] self.rc_a_poly(i).eval(table, row) == 0
                    &&& self.rc_a_sqr_poly(i).eval(table, row) == 0
                    &&& self.full_poly(i).eval(table, row) == 0
                } by {
                    let word = self.state_at(table, row)[i];
                }
            }
        }
        if s == 0 || s == 1 && self.full_row(table, row) {
            assert forall|i: int| 0 <= i < WIDTH implies (
            #[trigger] self.rc_a_gate().polys[i]).eval(table, row) == 0 by {
                assert(self.rc_a_poly(i).eval(table, row) == 0);
            }
            assert forall|i: int| 0 <= i < WIDTH implies (
            #[trigger] self.rc_a_sqr_gate().polys[i]).eval(table, row) == 0 by {
                assert(self.rc_a_poly(i).eval(table, row) == 0);
            }
            assert forall|i: int| 0 <= i < WIDTH implies (
            #[trigger] self.full_gate().polys[i]).eval(table, row) == 0 by {
                assert(self.rc_a_poly(i).eval(table, row) == 0);
            }
        }
    }

    proof fn lemma_full_polys(self, table: Table, row: int, i: int)
        requires
            table.well_formed(),
            0 <= i < WIDTH,
        ensures
            (table.fixed)(self.s_full, row) == 0 ==> self.rc_a_poly(i).eval(table, row) == 0
                && self.rc_a_sqr_poly(i).eval(table, row) == 0 && self.full_poly(i).eval(table, row)
                == 0,
            (table.fixed)(self.s_full, row) == 1 ==> ((self.rc_a_poly(i).eval(table, row) == 0)
                <==> (table.advice)(self.state_rc_a@[i], row) == fadd(
                self.state_at(table, row)[i],
                self.rc_a_at(table, row)[i],
            )),
            (table.fixed)(self.s_full, row) == 1 ==> ((self.rc_a_sqr_poly(i).eval(table, row) == 0)
                <==> (table.advice)(self.state_rc_a_sqr@[i], row) == fmul(
                (table.advice)(self.state_rc_a@[i], row),
                (table.advice)(self.state_rc_a@[i], row),
            )),
            (table.fixed)(self.s_full, row) == 1 ==> ((self.full_poly(i).eval(table, row) == 0)
                <==> self.state_at(table, row + 1)[i] == dot(
                matrix(self.m_reg)[i],
                self.powers_at(table, row),
                WIDTH as nat,
            )),
    {
        broadcast use {group_in_field, lemma_dot_in_field};

        reveal_with_fuel(Poly::eval, 4);
        let s = (table.fixed)(self.s_full, row);
        let a = (table.advice)(self.state_rc_a@[i], row);
        let sqr = (table.advice)(self.state_rc_a_sqr@[i], row);
        let sum = fadd(self.state_at(table, row)[i], self.rc_a_at(table, row)[i]);
        assert(in_field(a) && in_field(sqr));
        lemma_selected(fsub(sum, a), s);
        lemma_difference_vanishes(sum, a);
        lemma_selected(fsub(fmul(a, a), sqr), s);
        lemma_difference_vanishes(fmul(a, a), sqr);
        self.lemma_mixed(table, row, i, (WIDTH - 1) as nat);
        let mixed = dot(matrix(self.m_reg)[i], self.powers_at(table, row), WIDTH as nat);
        let next = (table.advice)(self.state@[i], row + 1);
        lemma_selected(fsub(mixed, next), s);
        lemma_difference_vanishes(mixed, next);
        assert(self.full_poly(i).eval(table, row) == fmul(
            s,
            self.mixed(i, (WIDTH - 1) as nat).difference(advice(self.state@[i], NEXT)).eval(
                table,
                row,
            ),
        ));
    }

    /// The gates of partial rounds demand `partial_row` of the rows of partial rounds, and nothing
    /// of other rows.
    pub proof fn law_partial_gates(
        self,
        m_inv: [[Felt; WIDTH]; WIDTH],
        table: Table,
        row: int,
    )
        requires
            WIDTH > 0,
            table.well_formed(),
        ensures
            (table.fixed)(self.s_partial, row) == 1 ==> ((self.cur_0_gate().holds(table, row)
                && self.helper_gate().holds(table, row) && self.partial_gate(m_inv).holds(
                table,
                row,
            )) <==> self.partial_row(m_inv, table, row)),
            (table.fixed)(self.s_partial, row) == 0 ==> self.cur_0_gate().holds(table, row)
                && self.helper_gate().holds(table, row) && self.partial_gate(m_inv).holds(
                table,
                row,
            ),
    {
        let s = (table.fixed)(self.s_partial, row);
        self.lemma_first_word_polys(table, row);
        self.lemma_helper_polys(table, row);
        self.lemma_sbox_b_poly(m_inv, table, row);
        let cur_0 = self.cur_0_gate();
        let helper = self.helper_gate();
        let partial = self.partial_gate(m_inv);
        let next = self.state_at(table, row + 1);
        assert(cur_0.holds(table, row) <==> self.cur_0_poly().eval(table, row) == 0
            && self.cur_0_sqr_poly().eval(table, row) == 0) by {
            assert(cur_0.polys[0] == self.cur_0_poly() && cur_0.polys[1] == self.cur_0_sqr_poly());
        }
        assert(helper.holds(table, row) <==> self.helper_poly().eval(table, row) == 0
            && self.helper_sqr_poly().eval(table, row) == 0) by {
            assert(helper.polys[0] == self.helper_poly() && helper.polys[1]
                == self.helper_sqr_poly());
        }
        assert(partial.polys[0] == self.sbox_a_poly());
        assert(partial.polys[1] == self.sbox_b_poly(m_inv));
        assert forall|i: int| 1 <= i < WIDTH implies {
            &&& #[trigger] partial.polys[i + 1] == self.linear_poly(m_inv, i)
            &&& s == 0 ==> self.linear_poly(m_inv, i).eval(table, row) == 0
            &&& s == 1 ==> ((self.linear_poly(m_inv, i).eval(table, row) == 0) <==> dot(
                matrix(m_inv)[i],
                next,
                WIDTH as nat,
            ) == fadd(self.mid_at(table, row, i), self.rc_b_at(table, row)[i]))
        } by {
            self.lemma_linear_poly(m_inv, table, row, i);
        }
        if s == 1 && partial.holds(table, row) {
            assert forall|i: int| 1 <= i < WIDTH implies dot(
                #[trigger] matrix(m_inv)[i],
                next,
                WIDTH as nat,
            ) == fadd(self.mid_at(table, row, i), self.rc_b_at(table, row)[i]) by {
                assert(partial.polys[i + 1].eval(table, row) == 0);
            }
        }
        if s == 0 || s == 1 && self.partial_row(m_inv, table, row) {
            assert forall|k: int| 0 <= k < partial.polys.len() implies (
            #[trigger] partial.polys[k]).eval(table, row) == 0 by {
                if k >= 2 {
                    let i = k - 1;
                    assert(partial.polys[i + 1] == self.linear_poly(m_inv, i));
                    let m_i = matrix(m_inv)[i];
                }
            }
        }
    }

    proof fn lemma_first_word_polys(self, table: Table, row: int)
        requires
            WIDTH > 0,
            table.well_formed(),
        ensures
            ({
                let s = (table.fixed)(self.s_partial, row);
                let first = (table.advice)(self.cur_0_rc_a0, row);
                let sqr = (table.advice)(self.cur_0_rc_a0_sqr, row);
                &&& s == 0 ==> self.cur_0_poly().eval(table, row) == 0
                    && self.cur_0_sqr_poly().eval(table, row) == 0 && self.sbox_a_poly().eval(
                    table,
                    row,
                ) == 0
                &&& s == 1 ==> ((self.cur_0_poly().eval(table, row) == 0) <==> first == fadd(
                    self.state_at(table, row)[0],
                    self.rc_a_at(table, row)[0],
                ))
                &&& s == 1 ==> ((self.cur_0_sqr_poly().eval(table, row) == 0) <==> sqr == fmul(
                    first,
                    first,
                ))
                &&& s == 1 ==> ((self.sbox_a_poly().eval(table, row) == 0) <==> (table.advice)(
                    self.partial_sbox,
                    row,
                ) == fmul(fmul(sqr, sqr), first))
            }),
    {
        broadcast use group_in_field;

        reveal_with_fuel(Poly::eval, 5);
        let s = (table.fixed)(self.s_partial, row);
        let first = (table.advice)(self.cur_0_rc_a0, row);
        let sqr = (table.advice)(self.cur_0_rc_a0_sqr, row);
        let word = (table.advice)(self.state@[0], row);
        let constant = (table.fixed)(self.rc_a@[0], row);
        let sbox = (table.advice)(self.partial_sbox, row);
        assert(in_field(first) && in_field(sqr) && in_field(sbox));
        lemma_selected(fsub(fsub(first, word), constant), s);
        lemma_second_difference_vanishes(first, word, constant);
        lemma_selected(fsub(sqr, fmul(first, first)), s);
        lemma_difference_vanishes(sqr, fmul(first, first));
        lemma_selected(fsub(fmul(fmul(sqr, sqr), first), sbox), s);
        lemma_difference_vanishes(fmul(fmul(sqr, sqr), first), sbox);
    }

    proof fn lemma_helper_polys(self, table: Table, row: int)
        requires
            WIDTH > 0,
            table.well_formed(),
        ensures
            ({
                let s = (table.fixed)(self.s_partial, row);
                let helper = (table.advice)(self.mid_0_helper, row);
                let sqr = (table.advice)(self.mid_0_helper_sqr, row);
                &&& s == 0 ==> self.helper_poly().eval(table, row) == 0
                    && self.helper_sqr_poly().eval(table, row) == 0
                &&& s == 1 ==> ((self.helper_poly().eval(table, row) == 0) <==> helper == fadd(
                    self.mid_at(table, row, 0),
                    self.rc_b_at(table, row)[0],
                ))
                &&& s == 1 ==> ((self.helper_sqr_poly().eval(table, row) == 0) <==> sqr == fmul(
                    helper,
                    helper,
                ))
            }),
    {
        broadcast use group_in_field;

        reveal_with_fuel(Poly::eval, 4);
        let s = (table.fixed)(self.s_partial, row);
        let helper = (table.advice)(self.mid_0_helper, row);
        let sqr = (table.advice)(self.mid_0_helper_sqr, row);
        let mid = self.mid(0, (WIDTH - 1) as nat);
        let constant = (table.fixed)(self.rc_b@[0], row);
        assert(in_field(helper) && in_field(sqr));
        self.lemma_mid(table, row, 0, (WIDTH - 1) as nat);
        lemma_selected(fsub(fsub(helper, mid.eval(table, row)), constant), s);
        lemma_second_difference_vanishes(helper, mid.eval(table, row), constant);
        assert(self.helper_poly().eval(table, row) == fmul(
            advice(self.mid_0_helper, CUR).difference(mid).difference(fixed(self.rc_b@[0])).eval(
                table,
                row,
            ),
            s,
        ));
        lemma_selected(fsub(sqr, fmul(helper, helper)), s);
        lemma_difference_vanishes(sqr, fmul(helper, helper));
    }

    proof fn lemma_sbox_b_poly(self, m_inv: [[Felt; WIDTH]; WIDTH], table: Table, row: int)
        requires
            WIDTH > 0,
            table.well_formed(),
        ensures
            ({
                let s = (table.fixed)(self.s_partial, row);
                let helper = (table.advice)(self.mid_0_helper, row);
                let sqr = (table.advice)(self.mid_0_helper_sqr, row);
                &&& s == 0 ==> self.sbox_b_poly(m_inv).eval(table, row) == 0
                &&& s == 1 ==> ((self.sbox_b_poly(m_inv).eval(table, row) == 0) <==> dot(
                    matrix(m_inv)[0],
                    self.state_at(table, row + 1),
                    WIDTH as nat,
                ) == fmul(fmul(sqr, sqr), helper))
            }),
    {
        broadcast use {group_in_field, lemma_dot_in_field};

        reveal_with_fuel(Poly::eval, 5);
        let s = (table.fixed)(self.s_partial, row);
        let helper = (table.advice)(self.mid_0_helper, row);
        let sqr = (table.advice)(self.mid_0_helper_sqr, row);
        let unmixed = self.unmixed(m_inv, 0, (WIDTH - 1) as nat);
        let power = fmul(fmul(sqr, sqr), helper);
        self.lemma_unmixed(m_inv, table, row, 0, (WIDTH - 1) as nat);
        lemma_selected(fsub(power, unmixed.eval(table, row)), s);
        lemma_difference_vanishes(power, unmixed.eval(table, row));
        assert(self.sbox_b_poly(m_inv).eval(table, row) == fmul(
            s,
            advice(self.mid_0_helper_sqr, CUR).product(advice(self.mid_0_helper_sqr, CUR)).product(
                advice(self.mid_0_helper, CUR),
            ).difference(unmixed).eval(table, row),
        ));
    }

    proof fn lemma_linear_poly(
        self,
        m_inv: [[Felt; WIDTH]; WIDTH],
        table: Table,
        row: int,
        i: int,
    )
        requires
            1 <= i < WIDTH,
            table.well_formed(),
        ensures
            ({
                let s = (table.fixed)(self.s_partial, row);
                &&& s == 0 ==> self.linear_poly(m_inv, i).eval(table, row) == 0
                &&& s == 1 ==> ((self.linear_poly(m_inv, i).eval(table, row) == 0) <==> dot(
                    matrix(m_inv)[i],
                    self.state_at(table, row + 1),
                    WIDTH as nat,
                ) == fadd(self.mid_at(table, row, i), self.rc_b_at(table, row)[i]))
            }),
    {
        broadcast use {group_in_field, lemma_dot_in_field};

        reveal_with_fuel(Poly::eval, 4);
        let s = (table.fixed)(self.s_partial, row);
        let last = (WIDTH - 1) as nat;
        let unmixed = self.unmixed(m_inv, i, last);
        let sum = fadd(self.mid(i, last).eval(table, row), self.rc_b_at(table, row)[i]);
        self.lemma_unmixed(m_inv, table, row, i, last);
        self.lemma_mid(table, row, i, last);
        lemma_selected(fsub(sum, unmixed.eval(table, row)), s);
        lemma_difference_vanishes(sum, unmixed.eval(table, row));
        assert(self.linear_poly(m_inv, i).eval(table, row) == fmul(
            s,
            self.mid(i, last).sum(fixed(self.rc_b@[i])).difference(unmixed).eval(table, row),
        ));
    }

    /// "pad-and-add" demands `input_row` of the rows of input, and nothing of other rows.
    pub proof fn law_pad_gate(self, table: Table, row: int)
        requires
            RATE < WIDTH,
            table.well_formed(),
        ensures
            (table.fixed)(self.s_pad_and_add, row) == 1 ==> (self.pad_gate().holds(table, row)
                <==> self.input_row(table, row)),
            (table.fixed)(self.s_pad_and_add, row) == 0 ==> self.pad_gate().holds(table, row),
    {
        broadcast use group_in_field;

        reveal_with_fuel(Poly::eval, 4);
        let s = (table.fixed)(self.s_pad_and_add, row);
        let gate = self.pad_gate();
        let before = self.state_at(table, row - 1);
        let input = self.state_at(table, row);
        let after = self.state_at(table, row + 1);
        assert forall|i: int| 0 <= i < RATE implies {
            &&& #[trigger] gate.polys[i] == self.pad_poly(i)
            &&& s == 0 ==> gate.polys[i].eval(table, row) == 0
            &&& s == 1 ==> ((gate.polys[i].eval(table, row) == 0) <==> after[i] == fadd(
                before[i],
                input[i],
            ))
        } by {
            assert(in_field(after[i]));
            lemma_selected(fsub(fadd(before[i], input[i]), after[i]), s);
            lemma_difference_vanishes(fadd(before[i], input[i]), after[i]);
        }
        let r = RATE as int;
        assert(gate.polys[r] == self.capacity_poly());
        assert(in_field(after[r]) && in_field(before[r]));
        lemma_selected(fsub(before[r], after[r]), s);
        lemma_difference_vanishes(before[r], after[r]);
        if s == 1 {
            if gate.holds(table, row) {
                assert forall|i: int| 0 <= i < RATE implies #[trigger] after[i] == fadd(
                    before[i],
                    input[i],
                ) by {
                    assert(gate.polys[i].eval(table, row) == 0);
                }
            }
            if self.input_row(table, row) {
                assert forall|i: int| 0 <= i < gate.polys.len() implies (
                #[trigger] gate.polys[i]).eval(table, row) == 0 by {
                    if i < RATE {
                        assert(after[i] == fadd(before[i], input[i]));
                    }
                }
            }
        }
    }

    /// Every gate of the chip holds on row `row`.
    pub open spec fn gates_hold(
        self,
        m_inv: [[Felt; WIDTH]; WIDTH],
        table: Table,
        row: int,
    ) -> bool {
        forall|g: int|
            0 <= g < self.gates(m_inv).len() ==> (#[trigger] self.gates(m_inv)[g]).holds(
                table,
                row,
            )
    }

    /// The gates of the chip, one by one.
    pub proof fn lemma_gates_hold(self, m_inv: [[Felt; WIDTH]; WIDTH], table: Table, row: int)
        ensures
            self.gates_hold(m_inv, table, row) <==> {
                &&& self.rc_a_gate().holds(table, row)
                &&& self.rc_a_sqr_gate().holds(table, row)
                &&& self.full_gate().holds(table, row)
                &&& self.cur_0_gate().holds(table, row)
                &&& self.helper_gate().holds(table, row)
                &&& self.partial_gate(m_inv).holds(table, row)
                &&& self.pad_gate().holds(table, row)
            },
    {
        let gates = self.gates(m_inv);
        assert(gates[0] == self.rc_a_gate());
        assert(gates[1] == self.rc_a_sqr_gate());
        assert(gates[2] == self.full_gate());
        assert(gates[3] == self.cur_0_gate());
        assert(gates[4] == self.helper_gate());
        assert(gates[5] == self.partial_gate(m_inv));
        assert(gates[6] == self.pad_gate());
    }

    /// A row on which no selector is set satisfies every gate, whatever else it holds.
    pub proof fn law_rows_rest(self, m_inv: [[Felt; WIDTH]; WIDTH], table: Table, row: int)
        requires
            WIDTH == RATE + 1,
            table.well_formed(),
            (table.fixed)(self.s_full, row) == 0,
            (table.fixed)(self.s_partial, row) == 0,
            (table.fixed)(self.s_pad_and_add, row) == 0,
        ensures
            self.gates_hold(m_inv, table, row),
    {
        self.law_full_gates(table, row);
        self.law_partial_gates(m_inv, table, row);
        self.law_pad_gate(table, row);
        self.lemma_gates_hold(m_inv, table, row);
    }

    /// Row `row` holds a full round: the sums with the round constants and their squares, and below
    /// it the state after the round.
    pub open spec fn holds_full_round(self, table: Table, row: int) -> bool {
        let q = add_constants(self.state_at(table, row), self.rc_a_at(table, row));
        &&& forall|i: int|
            0 <= i < WIDTH ==> {
                &&& (table.advice)(self.state_rc_a@[i], row) == #[trigger] q[i]
                &&& (table.advice)(self.state_rc_a_sqr@[i], row) == fmul(q[i], q[i])
            }
        &&& self.state_at(table, row + 1) == mat_vec(matrix(self.m_reg), sbox_all(q))
    }

    /// Row `row` holds two partial rounds: the inputs of their S-boxes with the squares and the output
    /// of the first S-box, and below it the state after both rounds.
    pub open spec fn holds_two_rounds(self, table: Table, row: int) -> bool {
        let c = add_constants(self.state_at(table, row), self.rc_a_at(table, row));
        let z = add_constants(
            mat_vec(matrix(self.m_reg), sbox_first(c)),
            self.rc_b_at(table, row),
        );
        &&& (table.advice)(self.cur_0_rc_a0, row) == c[0]
        &&& (table.advice)(self.cur_0_rc_a0_sqr, row) == fmul(c[0], c[0])
        &&& (table.advice)(self.partial_sbox, row) == sbox(c[0])
        &&& (table.advice)(self.mid_0_helper, row) == z[0]
        &&& (table.advice)(self.mid_0_helper_sqr, row) == fmul(z[0], z[0])
        &&& self.state_at(table, row + 1) == mat_vec(matrix(self.m_reg), sbox_first(z))
    }

    /// A row of a full round that meets its demands leads from its state to that after the round.
    pub proof fn lemma_full_row_is_a_round(self, table: Table, row: int)
        requires
            WIDTH > 0,
            table.well_formed(),
            self.full_row(table, row),
        ensures
            self.state_at(table, row + 1) == full_round(
                matrix(self.m_reg),
                self.rc_a_at(table, row),
                self.state_at(table, row),
            ),
    {
        let q = add_constants(self.state_at(table, row), self.rc_a_at(table, row));
        assert forall|i: int| 0 <= i < WIDTH implies #[trigger] self.powers_at(table, row)[i]
            == sbox_all(q)[i] by {
            let word = self.state_at(table, row)[i];
            lemma_fifth_power(q[i]);
        }
        assert(self.powers_at(table, row) =~= sbox_all(q));
        let round = full_round(
            matrix(self.m_reg),
            self.rc_a_at(table, row),
            self.state_at(table, row),
        );
        assert forall|i: int| 0 <= i < WIDTH implies #[trigger] self.state_at(table, row + 1)[i]
            == round[i] by {
            let word = self.state_at(table, row)[i];
        }
        assert(self.state_at(table, row + 1) =~= round);
    }

    /// A row that holds a full round, the sums with the round constants and their squares meets the
    /// demands.
    pub proof fn lemma_a_round_is_a_full_row(self, table: Table, row: int)
        requires
            WIDTH > 0,
            table.well_formed(),
            forall|i: int|
                0 <= i < WIDTH ==> {
                    let q = fadd(
                        #[trigger] self.state_at(table, row)[i],
                        self.rc_a_at(table, row)[i],
                    );
                    &&& (table.advice)(self.state_rc_a@[i], row) == q
                    &&& (table.advice)(self.state_rc_a_sqr@[i], row) == fmul(q, q)
                },
            self.state_at(table, row + 1) == full_round(
                matrix(self.m_reg),
                self.rc_a_at(table, row),
                self.state_at(table, row),
            ),
        ensures
            self.full_row(table, row),
    {
        let q = add_constants(self.state_at(table, row), self.rc_a_at(table, row));
        assert forall|i: int| 0 <= i < WIDTH implies #[trigger] self.powers_at(table, row)[i]
            == sbox_all(q)[i] by {
            let word = self.state_at(table, row)[i];
            lemma_fifth_power(q[i]);
        }
        assert(self.powers_at(table, row) =~= sbox_all(q));
    }

    /// The state between the two partial rounds of a row, where the first S-box is right.
    proof fn lemma_mid_is_a_round(self, table: Table, row: int)
        requires
            WIDTH > 0,
            table.well_formed(),
            (table.advice)(self.partial_sbox, row) == sbox(
                fadd(self.state_at(table, row)[0], self.rc_a_at(table, row)[0]),
            ),
        ensures
            forall|i: int|
                0 <= i < WIDTH ==> #[trigger] self.mid_at(table, row, i) == partial_round(
                    matrix(self.m_reg),
                    self.rc_a_at(table, row),
                    self.state_at(table, row),
                )[i],
    {
        let q = add_constants(self.state_at(table, row), self.rc_a_at(table, row));
        assert(self.unmixed_mid_at(table, row) =~= sbox_first(q));
    }

    /// A row of partial rounds that meets its demands leads from its state to that after the two
    /// rounds.
    pub proof fn lemma_partial_row_is_two_rounds(
        self,
        m_inv: [[Felt; WIDTH]; WIDTH],
        table: Table,
        row: int,
    )
        requires
            WIDTH > 0,
            table.well_formed(),
            undoes(matrix(m_inv), matrix(self.m_reg), WIDTH as nat),
            self.partial_row(m_inv, table, row),
        ensures
            self.state_at(table, row + 1) == partial_round(
                matrix(self.m_reg),
                self.rc_b_at(table, row),
                partial_round(
                    matrix(self.m_reg),
                    self.rc_a_at(table, row),
                    self.state_at(table, row),
                ),
            ),
    {
        let next = self.state_at(table, row + 1);
        let mds = matrix(self.m_reg);
        let first = (table.advice)(self.cur_0_rc_a0, row);
        let helper = (table.advice)(self.mid_0_helper, row);
        lemma_fifth_power(first);
        lemma_fifth_power(helper);
        self.lemma_mid_is_a_round(table, row);
        let mid = partial_round(mds, self.rc_a_at(table, row), self.state_at(table, row));
        let z = sbox_first(add_constants(mid, self.rc_b_at(table, row)));
        assert forall|i: int| 0 <= i < WIDTH implies #[trigger] mat_vec(matrix(m_inv), next)[i]
            == z[i] by {
            assert(self.mid_at(table, row, i) == mid[i]);
            let m_i = matrix(m_inv)[i];
        }
        assert(mat_vec(matrix(m_inv), next) =~= z);
        lemma_matrix_in_field(m_inv);
        law_left_inverse_is_inverse(mds, matrix(m_inv), WIDTH as nat);
        lemma_inverse_cancels(mds, matrix(m_inv), next);
    }

    /// A row that holds two partial rounds, the inputs of their S-boxes with the squares and the
    /// output of the first S-box meets the demands.
    pub proof fn lemma_two_rounds_are_a_partial_row(
        self,
        m_inv: [[Felt; WIDTH]; WIDTH],
        table: Table,
        row: int,
    )
        requires
            WIDTH > 0,
            table.well_formed(),
            undoes(matrix(m_inv), matrix(self.m_reg), WIDTH as nat),
            ({
                let mid = partial_round(
                    matrix(self.m_reg),
                    self.rc_a_at(table, row),
                    self.state_at(table, row),
                );
                let first = fadd(self.state_at(table, row)[0], self.rc_a_at(table, row)[0]);
                let helper = fadd(mid[0], self.rc_b_at(table, row)[0]);
                &&& (table.advice)(self.cur_0_rc_a0, row) == first
                &&& (table.advice)(self.cur_0_rc_a0_sqr, row) == fmul(first, first)
                &&& (table.advice)(self.partial_sbox, row) == sbox(first)
                &&& (table.advice)(self.mid_0_helper, row) == helper
                &&& (table.advice)(self.mid_0_helper_sqr, row) == fmul(helper, helper)
                &&& self.state_at(table, row + 1) == partial_round(
                    matrix(self.m_reg),
                    self.rc_b_at(table, row),
                    mid,
                )
            }),
        ensures
            self.partial_row(m_inv, table, row),
    {
        let next = self.state_at(table, row + 1);
        let mds = matrix(self.m_reg);
        let mid = partial_round(mds, self.rc_a_at(table, row), self.state_at(table, row));
        lemma_fifth_power((table.advice)(self.cur_0_rc_a0, row));
        lemma_fifth_power((table.advice)(self.mid_0_helper, row));
        self.lemma_mid_is_a_round(table, row);
        let z = sbox_first(add_constants(mid, self.rc_b_at(table, row)));
        lemma_add_constants_in_field(mid, self.rc_b_at(table, row));
        lemma_matrix_in_field(m_inv);
        law_left_inverse_is_inverse(mds, matrix(m_inv), WIDTH as nat);
        lemma_inverse_cancels(mds, matrix(m_inv), z);
        assert(mat_vec(matrix(m_inv), next) == z);
        assert forall|i: int| 0 <= i < WIDTH implies dot(
            #[trigger] matrix(m_inv)[i],
            next,
            WIDTH as nat,
        ) == z[i] by {
            assert(mat_vec(matrix(m_inv), next)[i] == z[i]);
        }
        assert(self.mid_at(table, row, 0) == mid[0]);
        let m_0 = matrix(m_inv)[0];
        assert forall|i: int| 1 <= i < WIDTH implies dot(
            #[trigger] matrix(m_inv)[i],
            next,
            WIDTH as nat,
        ) == fadd(self.mid_at(table, row, i), self.rc_b_at(table, row)[i]) by {
            assert(self.mid_at(table, row, i) == mid[i]);
        }
    }

    /// On a row of a full round, the gates of the chip hold if and only if the row holds a full round.
    pub proof fn law_a_full_row_enforces_a_round(
        self,
        m_inv: [[Felt; WIDTH]; WIDTH],
        table: Table,
        row: int,
    )
        requires
            WIDTH == RATE + 1,
            table.well_formed(),
            (table.fixed)(self.s_full, row) == 1,
            (table.fixed)(self.s_partial, row) == 0,
            (table.fixed)(self.s_pad_and_add, row) == 0,
        ensures
            self.gates_hold(m_inv, table, row) <==> self.holds_full_round(table, row),
    {
        self.lemma_gates_hold(m_inv, table, row);
        self.law_full_gates(table, row);
        self.law_partial_gates(m_inv, table, row);
        self.law_pad_gate(table, row);
        let q = add_constants(self.state_at(table, row), self.rc_a_at(table, row));
        if self.full_row(table, row) {
            self.lemma_full_row_is_a_round(table, row);
            assert forall|i: int| 0 <= i < WIDTH implies {
                &&& (table.advice)(self.state_rc_a@[i], row) == #[trigger] q[i]
                &&& (table.advice)(self.state_rc_a_sqr@[i], row) == fmul(q[i], q[i])
            } by {
                let word = self.state_at(table, row)[i];
            }
        }
        if self.holds_full_round(table, row) {
            assert forall|i: int| 0 <= i < WIDTH implies {
                let sum = fadd(
                    #[trigger] self.state_at(table, row)[i],
                    self.rc_a_at(table, row)[i],
                );
                &&& (table.advice)(self.state_rc_a@[i], row) == sum
                &&& (table.advice)(self.state_rc_a_sqr@[i], row) == fmul(sum, sum)
            } by {
                let word = q[i];
            }
            self.lemma_a_round_is_a_full_row(table, row);
        }
    }

    /// On a row of partial rounds, the gates of the chip hold if and only if the row holds two partial
    /// rounds. Of the matrix in the gates it is enough that it undoes the mixing matrix.
    pub proof fn law_a_partial_row_enforces_two_rounds(
        self,
        m_inv: [[Felt; WIDTH]; WIDTH],
        table: Table,
        row: int,
    )
        requires
            WIDTH == RATE + 1,
            table.well_formed(),
            undoes(matrix(m_inv), matrix(self.m_reg), WIDTH as nat),
            (table.fixed)(self.s_full, row) == 0,
            (table.fixed)(self.s_partial, row) == 1,
            (table.fixed)(self.s_pad_and_add, row) == 0,
        ensures
            self.gates_hold(m_inv, table, row) <==> self.holds_two_rounds(table, row),
    {
        self.lemma_gates_hold(m_inv, table, row);
        self.law_full_gates(table, row);
        self.law_partial_gates(m_inv, table, row);
        self.law_pad_gate(table, row);
        if self.partial_row(m_inv, table, row) {
            self.lemma_partial_row_is_two_rounds(m_inv, table, row);
            lemma_fifth_power((table.advice)(self.cur_0_rc_a0, row));
            self.lemma_mid_is_a_round(table, row);
            assert(self.mid_at(table, row, 0) == partial_round(
                matrix(self.m_reg),
                self.rc_a_at(table, row),
                self.state_at(table, row),
            )[0]);
        }
        if self.holds_two_rounds(table, row) {
            self.lemma_two_rounds_are_a_partial_row(m_inv, table, row);
        }
    }
}

} // verus!
