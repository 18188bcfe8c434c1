//! The permutation takes different states to different states.
use crate::fermat::{lemma_fermat_exponent, prime};
use crate::field::{
    fadd, fpow, in_field, lemma_fadd_associates, lemma_fadd_zero, lemma_small_residues, modulus,
};
use crate::linear::{lemma_left_inverse_cancels, lemma_mat_vec_in_field, undoes, vector_in_field};
use crate::permutation::{
    add_constants, full_round, lemma_add_constants_in_field, partial_round, sbox, sbox_all,
    sbox_first, Permutation,
};
use vstd::arithmetic::div_mod::*;
use vstd::arithmetic::power::*;
use vstd::prelude::*;

verus! {

/// The S-box takes different elements to different elements, since the order of the field is a prime
/// that leaves two modulo five.
pub proof fn law_the_sbox_is_injective(x: int, y: int)
    requires
        prime(modulus()),
        in_field(x),
        in_field(y),
        sbox(x) == sbox(y),
    ensures
        x == y,
{
    let p = modulus();
    let e = ((1 + 4 * (p - 1)) / 5) as nat;
    assert(5 * e == 1 + 4 * (p - 1)) by {
        reveal(modulus);
    }
    lemma_fifth_root(x, e);
    lemma_fifth_root(y, e);
}

/// The inverse of the S-box is a power.
proof fn lemma_fifth_root(x: int, e: nat)
    requires
        prime(modulus()),
        in_field(x),
        5 * e == 1 + 4 * (modulus() - 1),
    ensures
        fpow(sbox(x), e) == x,
{
    let p = modulus();
    lemma_small_residues();
    lemma_pow_mod_noop(pow(x, 5), e, p);
    lemma_pow_multiplies(x, 5, e);
    lemma_fermat_exponent(x as nat, p, 4);
    lemma_small_mod(x as nat, p as nat);
}

proof fn lemma_fadd_cancels(a: int, b: int, c: int)
    requires
        in_field(a),
        in_field(b),
        fadd(a, c) == fadd(b, c),
    ensures
        a == b,
{
    let p = modulus();
    let d = -c;
    lemma_fadd_associates(a, c, d);
    lemma_fadd_associates(b, c, d);
    lemma_small_residues();
    lemma_small_mod(0, p as nat);
    assert(fadd(c, d) == 0);
    lemma_fadd_zero(a);
    lemma_fadd_zero(b);
}

proof fn lemma_add_constants_cancels(a: Seq<int>, b: Seq<int>, constants: Seq<int>)
    requires
        a.len() == b.len(),
        vector_in_field(a),
        vector_in_field(b),
        add_constants(a, constants) == add_constants(b, constants),
    ensures
        a == b,
{
    assert forall|i: int| 0 <= i < a.len() implies #[trigger] a[i] == b[i] by {
        assert(add_constants(a, constants)[i] == fadd(a[i], constants[i]));
        assert(add_constants(b, constants)[i] == fadd(b[i], constants[i]));
        assert(in_field(a[i]) && in_field(b[i]));
        lemma_fadd_cancels(a[i], b[i], constants[i]);
    }
    assert(a =~= b);
}

/// A full round takes different states to different states.
proof fn lemma_full_round_is_injective(
    mds: Seq<Seq<int>>,
    m_inv: Seq<Seq<int>>,
    constants: Seq<int>,
    a: Seq<int>,
    b: Seq<int>,
)
    requires
        prime(modulus()),
        undoes(m_inv, mds, a.len()),
        a.len() == b.len(),
        vector_in_field(a),
        vector_in_field(b),
        full_round(mds, constants, a) == full_round(mds, constants, b),
    ensures
        a == b,
{
    let x = add_constants(a, constants);
    let y = add_constants(b, constants);
    lemma_add_constants_in_field(a, constants);
    lemma_add_constants_in_field(b, constants);
    lemma_left_inverse_cancels(m_inv, mds, sbox_all(x));
    lemma_left_inverse_cancels(m_inv, mds, sbox_all(y));
    assert forall|i: int| 0 <= i < x.len() implies #[trigger] x[i] == y[i] by {
        assert(sbox_all(x)[i] == sbox_all(y)[i]);
        assert(in_field(x[i]) && in_field(y[i]));
        law_the_sbox_is_injective(x[i], y[i]);
    }
    assert(x =~= y);
    lemma_add_constants_cancels(a, b, constants);
}

/// A partial round takes different states to different states.
proof fn lemma_partial_round_is_injective(
    mds: Seq<Seq<int>>,
    m_inv: Seq<Seq<int>>,
    constants: Seq<int>,
    a: Seq<int>,
    b: Seq<int>,
)
    requires
        prime(modulus()),
        undoes(m_inv, mds, a.len()),
        a.len() == b.len(),
        a.len() > 0,
        vector_in_field(a),
        vector_in_field(b),
        partial_round(mds, constants, a) == partial_round(mds, constants, b),
    ensures
        a == b,
{
    let x = add_constants(a, constants);
    let y = add_constants(b, constants);
    lemma_add_constants_in_field(a, constants);
    lemma_add_constants_in_field(b, constants);
    lemma_left_inverse_cancels(m_inv, mds, sbox_first(x));
    lemma_left_inverse_cancels(m_inv, mds, sbox_first(y));
    assert forall|i: int| 0 <= i < x.len() implies #[trigger] x[i] == y[i] by {
        assert(sbox_first(x)[i] == sbox_first(y)[i]);
        assert(in_field(x[i]) && in_field(y[i]));
        if i == 0 {
            law_the_sbox_is_injective(x[i], y[i]);
        }
    }
    assert(x =~= y);
    lemma_add_constants_cancels(a, b, constants);
}

/// Two partial rounds, as a row of the chip holds them, take different states to different states.
pub proof fn law_two_partial_rounds_are_injective(
    mds: Seq<Seq<int>>,
    m_inv: Seq<Seq<int>>,
    first: Seq<int>,
    second: Seq<int>,
    a: Seq<int>,
    b: Seq<int>,
)
    requires
        prime(modulus()),
        undoes(m_inv, mds, a.len()),
        a.len() == b.len(),
        a.len() > 0,
        vector_in_field(a),
        vector_in_field(b),
        partial_round(mds, second, partial_round(mds, first, a)) == partial_round(
            mds,
            second,
            partial_round(mds, first, b),
        ),
    ensures
        a == b,
{
    let x = partial_round(mds, first, a);
    let y = partial_round(mds, first, b);
    lemma_mat_vec_in_field(mds, sbox_first(add_constants(a, first)));
    lemma_mat_vec_in_field(mds, sbox_first(add_constants(b, first)));
    lemma_partial_round_is_injective(mds, m_inv, second, x, y);
    lemma_partial_round_is_injective(mds, m_inv, first, a, b);
}

proof fn lemma_rounds_are_injective(
    p: Permutation,
    m_inv: Seq<Seq<int>>,
    a: Seq<int>,
    b: Seq<int>,
    r: nat,
)
    requires
        prime(modulus()),
        undoes(m_inv, p.mds, a.len()),
        a.len() == b.len(),
        a.len() > 0,
        vector_in_field(a),
        vector_in_field(b),
    ensures
        p.after_rounds(a, r).len() == a.len(),
        p.after_rounds(b, r).len() == a.len(),
        vector_in_field(p.after_rounds(a, r)),
        vector_in_field(p.after_rounds(b, r)),
        p.after_rounds(a, r) == p.after_rounds(b, r) ==> a == b,
    decreases r,
{
    if r > 0 {
        let q = (r - 1) as nat;
        lemma_rounds_are_injective(p, m_inv, a, b, q);
        let x = p.after_rounds(a, q);
        let y = p.after_rounds(b, q);
        let c = p.round_constants[q as int];
        lemma_mat_vec_in_field(p.mds, sbox_all(add_constants(x, c)));
        lemma_mat_vec_in_field(p.mds, sbox_all(add_constants(y, c)));
        lemma_mat_vec_in_field(p.mds, sbox_first(add_constants(x, c)));
        lemma_mat_vec_in_field(p.mds, sbox_first(add_constants(y, c)));
        if p.after_rounds(a, r) == p.after_rounds(b, r) {
            if p.round_is_full(q) {
                lemma_full_round_is_injective(p.mds, m_inv, c, x, y);
            } else {
                lemma_partial_round_is_injective(p.mds, m_inv, c, x, y);
            }
        }
    }
}

/// The permutation takes different states to different states.
pub proof fn law_the_permutation_is_injective(
    p: Permutation,
    m_inv: Seq<Seq<int>>,
    a: Seq<int>,
    b: Seq<int>,
)
    requires
        prime(modulus()),
        undoes(m_inv, p.mds, a.len()),
        a.len() == b.len(),
        a.len() > 0,
        vector_in_field(a),
        vector_in_field(b),
        p.permute(a) == p.permute(b),
    ensures
        a == b,
{
    lemma_rounds_are_injective(p, m_inv, a, b, p.rounds());
}

} // verus!
