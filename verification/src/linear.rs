//! Vectors and matrices over the field, as specifications.
use crate::field::{fadd, fmul, group_in_field, in_field, modulus, Felt};
use crate::field::{
    law_the_field_is_arithmetic_modulo_its_order, lemma_fadd_associates, lemma_fadd_commutes, lemma_fadd_zero, lemma_felt_in_field,
    lemma_fmul_associates, lemma_fmul_commutes, lemma_fmul_distributes, lemma_fmul_one,
    lemma_fmul_zero, lemma_small_residues,
};
use vstd::arithmetic::div_mod::{lemma_add_mod_noop, lemma_mul_mod_noop_right};
use vstd::prelude::*;
use vstd::relations::injective_on;
use vstd::set_lib::{
    lemma_int_range, lemma_len_subset, lemma_map_size, lemma_subset_equality, set_int_range,
};

verus! {

/// The residues of a sequence of elements.
pub open spec fn residues(elements: Seq<Felt>) -> Seq<int> {
    Seq::new(elements.len(), |i: int| elements[i]@)
}

/// The rows of a square matrix of elements, as residues.
pub open spec fn matrix<const WIDTH: usize>(m: [[Felt; WIDTH]; WIDTH]) -> Seq<Seq<int>> {
    Seq::new(WIDTH as nat, |i: int| residues(m@[i]@))
}

/// Every entry of `v` is a least residue.
pub open spec fn vector_in_field(v: Seq<int>) -> bool {
    forall|i: int| 0 <= i < v.len() ==> in_field(#[trigger] v[i])
}

/// The sum of the first `n` products of corresponding entries.
pub open spec fn dot(a: Seq<int>, b: Seq<int>, n: nat) -> int
    decreases n,
{
    if n == 0 {
        0
    } else {
        fadd(dot(a, b, (n - 1) as nat), fmul(a[n - 1], b[n - 1]))
    }
}

/// The product of a matrix, given by its rows, with a column vector.
pub open spec fn mat_vec(m: Seq<Seq<int>>, v: Seq<int>) -> Seq<int> {
    Seq::new(m.len(), |i: int| dot(m[i], v, v.len()))
}

/// The entries of column `j` of a matrix given by its rows.
pub open spec fn column(m: Seq<Seq<int>>, j: int) -> Seq<int> {
    Seq::new(m.len(), |i: int| m[i][j])
}

/// The product of `a` and `b` is the identity matrix of `n` rows.
pub open spec fn product_is_identity(a: Seq<Seq<int>>, b: Seq<Seq<int>>, n: nat) -> bool {
    forall|i: int, j: int|
        0 <= i < n && 0 <= j < n ==> #[trigger] dot(a[i], column(b, j), n) == if i == j {
            1int
        } else {
            0int
        }
}

/// `a` and `b` are square matrices of `n` rows, and multiplying by `a` undoes multiplying by `b`.
pub open spec fn undoes(a: Seq<Seq<int>>, b: Seq<Seq<int>>, n: nat) -> bool {
    &&& a.len() == n
    &&& b.len() == n
    &&& forall|i: int| 0 <= i < n ==> (#[trigger] a[i]).len() == n
    &&& forall|i: int| 0 <= i < n ==> (#[trigger] b[i]).len() == n
    &&& product_is_identity(a, b, n)
}

/// `a` and `b` are square matrices of `n` rows and inverse to each other.
pub open spec fn inverses(a: Seq<Seq<int>>, b: Seq<Seq<int>>, n: nat) -> bool {
    &&& undoes(a, b, n)
    &&& undoes(b, a, n)
}

pub broadcast proof fn lemma_dot_in_field(a: Seq<int>, b: Seq<int>, n: nat)
    ensures
        in_field(#[trigger] dot(a, b, n)),
{
    broadcast use group_in_field;

    lemma_small_residues();
}

pub broadcast proof fn lemma_residues_in_field(s: Seq<Felt>)
    ensures
        #![trigger residues(s)]
        vector_in_field(residues(s)),
        residues(s).len() == s.len(),
{
    broadcast use lemma_felt_in_field;

}

pub proof fn lemma_mat_vec_in_field(m: Seq<Seq<int>>, v: Seq<int>)
    ensures
        vector_in_field(mat_vec(m, v)),
        mat_vec(m, v).len() == m.len(),
{
    broadcast use lemma_dot_in_field;

}

/// A dot product is the sum of the products of corresponding entries, as integers, modulo the order
/// of the field. Entries count by their residues only.
pub proof fn law_a_dot_product_sums_products(a: Seq<int>, b: Seq<int>, w: Seq<int>, n: nat) -> (sums:
    Seq<int>)
    requires
        forall|j: int| 0 <= j < n ==> #[trigger] b[j] % modulus() == w[j] % modulus(),
    ensures
        sums.len() == n + 1,
        sums[0] == 0,
        forall|j: int| 0 <= j < n ==> #[trigger] sums[j + 1] == sums[j] + a[j] * w[j],
        dot(a, b, n) == sums[n as int] % 0x40000000000000000000000000000000224698fc094cf91b992d30ed00000001int,
    decreases n,
{
    law_the_field_is_arithmetic_modulo_its_order(0, 0, 0);
    let m = modulus();
    if n == 0 {
        seq![0int]
    } else {
        let k = n - 1;
        let sums = law_a_dot_product_sums_products(a, b, w, k as nat);
        let more = sums.push(sums[k] + a[k] * w[k]);
        assert(b[k] % m == w[k] % m);
        lemma_mul_mod_noop_right(a[k], b[k], m);
        lemma_mul_mod_noop_right(a[k], w[k], m);
        lemma_add_mod_noop(sums[k], a[k] * w[k], m);
        assert forall|j: int| 0 <= j < n implies #[trigger] more[j + 1] == more[j] + a[j]
            * w[j] by {
            if j < k {
                assert(sums[j + 1] == sums[j] + a[j] * w[j]);
            }
        }
        more
    }
}

/// Matrices and vectors of elements hold the residues of the elements, each in its place, and the
/// product of a matrix and a vector holds the dot products of the rows with the vector.
pub proof fn law_matrices_hold_their_elements<const WIDTH: usize>(
    m: [[Felt; WIDTH]; WIDTH],
    elements: Seq<Felt>,
    v: Seq<int>,
)
    ensures
        residues(elements).len() == elements.len(),
        forall|i: int| 0 <= i < elements.len() ==> #[trigger] residues(elements)[i] == elements[i]@,
        matrix(m).len() == WIDTH,
        forall|i: int| 0 <= i < WIDTH ==> (#[trigger] matrix(m)[i]).len() == WIDTH,
        forall|i: int, j: int|
            0 <= i < WIDTH && 0 <= j < WIDTH ==> #[trigger] matrix(m)[i][j] == m@[i]@[j]@,
        mat_vec(matrix(m), v).len() == WIDTH,
        forall|i: int|
            0 <= i < WIDTH ==> #[trigger] mat_vec(matrix(m), v)[i] == dot(matrix(m)[i], v, v.len()),
{
}

/// The dot product is linear in its first argument.
proof fn lemma_dot_linear(a: Seq<int>, b: Seq<int>, c: int, s: Seq<int>, v: Seq<int>, n: nat)
    requires
        forall|j: int| 0 <= j < n ==> #[trigger] s[j] == fadd(a[j], fmul(c, b[j])),
    ensures
        dot(s, v, n) == fadd(dot(a, v, n), fmul(c, dot(b, v, n))),
    decreases n,
{
    lemma_small_residues();
    if n == 0 {
        lemma_fmul_zero(c);
        lemma_fadd_zero(0);
    } else {
        let m = (n - 1) as nat;
        lemma_dot_linear(a, b, c, s, v, m);
        let x = dot(a, v, m);
        let y = fmul(c, dot(b, v, m));
        let av = fmul(a[n - 1], v[n - 1]);
        let bv = fmul(b[n - 1], v[n - 1]);
        let cbv = fmul(c, bv);
        assert(s[n - 1] == fadd(a[n - 1], fmul(c, b[n - 1])));
        lemma_fmul_distributes(v[n - 1], a[n - 1], fmul(c, b[n - 1]));
        lemma_fmul_associates(c, b[n - 1], v[n - 1]);
        assert(fmul(s[n - 1], v[n - 1]) == fadd(av, cbv));
        // (x + y) + (av + cbv) == (x + av) + (y + cbv)
        lemma_fadd_associates(x, y, fadd(av, cbv));
        lemma_fadd_associates(y, av, cbv);
        lemma_fadd_commutes(y, av);
        lemma_fadd_associates(av, y, cbv);
        lemma_fadd_associates(x, av, fadd(y, cbv));
        lemma_fmul_distributes(c, dot(b, v, m), bv);
    }
}

/// Summing over the first `k` rows of `b` first: the partial products of a row of `a` with the
/// columns of `b`.
spec fn partial_row(a: Seq<int>, b: Seq<Seq<int>>, k: nat, n: nat) -> Seq<int> {
    Seq::new(n, |j: int| dot(a, column(b, j), k))
}

/// The two orders of summation in a product of three factors agree.
proof fn lemma_exchange_sums(a: Seq<int>, b: Seq<Seq<int>>, v: Seq<int>, k: nat)
    requires
        k <= b.len(),
    ensures
        dot(a, mat_vec(b, v), k) == dot(partial_row(a, b, k, v.len()), v, v.len()),
    decreases k,
{
    let n = v.len();
    if k == 0 {
        lemma_zero_dot(partial_row(a, b, 0, n), v, n);
    } else {
        let m = (k - 1) as nat;
        lemma_exchange_sums(a, b, v, m);
        lemma_dot_linear(partial_row(a, b, m, n), b[k - 1], a[k - 1], partial_row(a, b, k, n), v, n);
    }
}

proof fn lemma_zero_dot(z: Seq<int>, v: Seq<int>, n: nat)
    requires
        forall|j: int| 0 <= j < n ==> #[trigger] z[j] == 0,
    ensures
        dot(z, v, n) == 0,
    decreases n,
{
    if n > 0 {
        lemma_zero_dot(z, v, (n - 1) as nat);
        assert(z[n - 1] == 0);
        lemma_fmul_zero(v[n - 1]);
        lemma_small_residues();
        lemma_fadd_zero(0);
    }
}

/// A unit row picks out one entry.
proof fn lemma_unit_dot(u: Seq<int>, v: Seq<int>, i: int, n: nat)
    requires
        0 <= i,
        i < v.len(),
        n <= v.len(),
        vector_in_field(v),
        forall|j: int|
            0 <= j < n ==> #[trigger] u[j] == if i == j {
                1int
            } else {
                0int
            },
    ensures
        dot(u, v, n) == if i < n {
            v[i]
        } else {
            0
        },
    decreases n,
{
    lemma_small_residues();
    if n > 0 {
        lemma_unit_dot(u, v, i, (n - 1) as nat);
        assert(in_field(v[n - 1]) && in_field(v[i]));
        assert(u[n - 1] == if i == n - 1 {
            1int
        } else {
            0int
        });
        lemma_fmul_one(v[n - 1]);
        lemma_fmul_zero(v[n - 1]);
        lemma_fadd_zero(v[i]);
        lemma_fadd_zero(v[n - 1]);
        lemma_fadd_zero(0);
    }
}

/// Multiplying by a matrix undoes multiplying by its inverse.
pub proof fn lemma_inverse_cancels(a: Seq<Seq<int>>, b: Seq<Seq<int>>, v: Seq<int>)
    requires
        inverses(a, b, v.len()),
        vector_in_field(v),
    ensures
        mat_vec(a, mat_vec(b, v)) == v,
        mat_vec(b, mat_vec(a, v)) == v,
{
    lemma_left_inverse_cancels(a, b, v);
    lemma_left_inverse_cancels(b, a, v);
}

/// Multiplying by a matrix undoes multiplying by another, if their product is the identity.
pub proof fn lemma_left_inverse_cancels(a: Seq<Seq<int>>, b: Seq<Seq<int>>, v: Seq<int>)
    requires
        undoes(a, b, v.len()),
        vector_in_field(v),
    ensures
        mat_vec(a, mat_vec(b, v)) == v,
{
    let n = v.len();
    assert forall|i: int| 0 <= i < n implies #[trigger] mat_vec(a, mat_vec(b, v))[i] == v[i] by {
        lemma_exchange_sums(a[i], b, v, n);
        let row = partial_row(a[i], b, n, n);
        assert forall|j: int| 0 <= j < n implies #[trigger] row[j] == if i == j {
            1int
        } else {
            0int
        } by {
            assert(row[j] == dot(a[i], column(b, j), n));
        }
        lemma_unit_dot(row, v, i, n);
    }
    assert(mat_vec(a, mat_vec(b, v)) =~= v);
}

/// All vectors of `n` least residues.
spec fn vectors(n: nat) -> Set<Seq<int>> {
    Set::new(|v: Seq<int>| v.len() == n && vector_in_field(v))
}

proof fn lemma_vectors_finite(n: nat)
    ensures
        vectors(n).finite(),
    decreases n,
{
    if n == 0 {
        assert forall|v: Seq<int>| vectors(0).contains(v) implies v == Seq::<int>::empty() by {
            assert(v =~= Seq::<int>::empty());
        }
        assert(vectors(0) =~= set![Seq::<int>::empty()]);
    } else {
        let m = (n - 1) as nat;
        lemma_vectors_finite(m);
        let range = set_int_range(0, modulus());
        lemma_small_residues();
        lemma_int_range(0, modulus());
        let longer = |v: Seq<int>| range.map(|x: int| v.push(x));
        let parts = vectors(m).map(longer);
        vectors(m).lemma_map_finite(longer);
        assert forall|s: Set<Seq<int>>| parts.contains(s) implies #[trigger] s.finite() by {
            let v = choose|v: Seq<int>| vectors(m).contains(v) && s == longer(v);
            range.lemma_map_finite(|x: int| v.push(x));
        }
        parts.lemma_flatten_finite();
        assert forall|w: Seq<int>| vectors(n).contains(w) implies parts.flatten().contains(w) by {
            let v = w.drop_last();
            let x = w.last();
            assert(in_field(w[n - 1]));
            assert forall|i: int| 0 <= i < v.len() implies in_field(#[trigger] v[i]) by {
                assert(v[i] == w[i]);
            }
            assert(vectors(m).contains(v));
            assert(range.contains(x));
            assert(w =~= v.push(x));
            let f = |y: int| v.push(y);
            assert(f(x) == w);
            assert(longer(v).contains(w));
            assert(parts.contains(longer(v)));
        }
        lemma_len_subset(vectors(n), parts.flatten());
    }
}

/// A square matrix that undoes another is its inverse: their product in the other order is the
/// identity too.
pub proof fn law_left_inverse_is_inverse(a: Seq<Seq<int>>, b: Seq<Seq<int>>, n: nat)
    requires
        undoes(b, a, n),
        forall|i: int| 0 <= i < n ==> vector_in_field(#[trigger] b[i]),
    ensures
        inverses(a, b, n),
{
    let all = vectors(n);
    let f = |v: Seq<int>| mat_vec(a, v);
    lemma_vectors_finite(n);
    assert(injective_on(f, all)) by {
        assert forall|v: Seq<int>, w: Seq<int>|
            all.contains(v) && all.contains(w) && #[trigger] f(v) == #[trigger] f(
                w,
            ) implies v == w by {
            lemma_left_inverse_cancels(b, a, v);
            lemma_left_inverse_cancels(b, a, w);
        }
    }
    let image = all.map(f);
    lemma_map_size(all, image, f);
    assert forall|w: Seq<int>| image.contains(w) implies all.contains(w) by {
        let v = choose|v: Seq<int>| all.contains(v) && w == f(v);
        lemma_mat_vec_in_field(a, v);
    }
    lemma_subset_equality(image, all);
    assert forall|i: int, j: int| 0 <= i < n && 0 <= j < n implies #[trigger] dot(
        a[i],
        column(b, j),
        n,
    ) == if i == j {
        1int
    } else {
        0int
    } by {
        lemma_small_residues();
        let unit = Seq::new(
            n,
            |k: int|
                if k == j {
                    1int
                } else {
                    0int
                },
        );
        assert(all.contains(unit));
        assert(image.contains(unit));
        let v = choose|v: Seq<int>| all.contains(v) && unit == f(v);
        lemma_left_inverse_cancels(b, a, v);
        assert(mat_vec(b, unit) == v);
        assert forall|k: int| 0 <= k < n implies #[trigger] v[k] == column(b, j)[k] by {
            assert(v[k] == dot(b[k], unit, n));
            lemma_dot_commutes(b[k], unit, n);
            assert(vector_in_field(b[k]));
            lemma_unit_dot(unit, b[k], j, n);
        }
        assert(v =~= column(b, j));
        assert(mat_vec(a, v)[i] == unit[i]);
    }
}

proof fn lemma_dot_commutes(a: Seq<int>, b: Seq<int>, n: nat)
    ensures
        dot(a, b, n) == dot(b, a, n),
    decreases n,
{
    if n > 0 {
        lemma_dot_commutes(a, b, (n - 1) as nat);
        lemma_fmul_commutes(a[n - 1], b[n - 1]);
    }
}

/// The rows of a matrix of elements are least residues.
pub proof fn lemma_matrix_in_field<const WIDTH: usize>(m: [[Felt; WIDTH]; WIDTH])
    ensures
        forall|i: int| 0 <= i < WIDTH ==> vector_in_field(#[trigger] matrix(m)[i]),
{
    broadcast use lemma_residues_in_field;

    assert forall|i: int| 0 <= i < WIDTH implies vector_in_field(#[trigger] matrix(m)[i]) by {
        assert(matrix(m)[i] == residues(m@[i]@));
    }
}

} // verus!
