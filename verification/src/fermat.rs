//! Fermat's little theorem.
use vstd::arithmetic::div_mod::*;
use vstd::arithmetic::mul::*;
use vstd::arithmetic::power::*;
use vstd::prelude::*;

verus! {

/// `p` has no divisors but one and itself.
pub open spec fn prime(p: int) -> bool {
    &&& p > 1
    &&& forall|d: int| 1 < d < p ==> #[trigger] (p % d) != 0
}

/// The number of ways to choose `k` of `n` things.
spec fn binomial(n: nat, k: int) -> int
    decreases n,
{
    if k < 0 {
        0
    } else if n == 0 {
        if k == 0 {
            1
        } else {
            0
        }
    } else {
        binomial((n - 1) as nat, k) + binomial((n - 1) as nat, k - 1)
    }
}

/// The first terms of the expansion of a power of `a + 1`, up to that of `a` to the `k`.
spec fn expansion(a: int, n: nat, k: int) -> int
    decreases k + 1,
{
    if k < 0 {
        0
    } else {
        expansion(a, n, k - 1) + binomial(n, k) * pow(a, k as nat)
    }
}

proof fn lemma_binomial_vanishes(n: nat, k: int)
    requires
        k > n,
    ensures
        binomial(n, k) == 0,
    decreases n,
{
    if n > 0 {
        lemma_binomial_vanishes((n - 1) as nat, k);
        lemma_binomial_vanishes((n - 1) as nat, k - 1);
    }
}

proof fn lemma_binomial_ends(n: nat)
    ensures
        binomial(n, 0) == 1,
        binomial(n, n as int) == 1,
    decreases n,
{
    if n > 0 {
        lemma_binomial_ends((n - 1) as nat);
        lemma_binomial_vanishes((n - 1) as nat, n as int);
        assert(binomial((n - 1) as nat, -1) == 0);
    }
}

/// Choosing `k` of `n` things and one of the chosen, in either order.
proof fn lemma_binomial_absorbs(n: nat, k: int)
    requires
        n > 0,
        k > 0,
    ensures
        k * binomial(n, k) == n * binomial((n - 1) as nat, k - 1),
    decreases n,
{
    let m = (n - 1) as nat;
    if n == 1 {
        if k == 1 {
            lemma_binomial_ends(1);
            lemma_binomial_ends(0);
        } else {
            lemma_binomial_vanishes(1, k);
            lemma_binomial_vanishes(0, k - 1);
        }
    } else {
        let l = (n - 2) as nat;
        lemma_binomial_absorbs(m, k);
        let x = binomial(m, k);
        let y = binomial(m, k - 1);
        let u = binomial(l, k - 1);
        let v = binomial(l, k - 2);
        if k > 1 {
            lemma_binomial_absorbs(m, k - 1);
        } else {
            lemma_binomial_ends(m);
            lemma_binomial_ends(l);
        }
        assert((k - 1) * y == m * v) by {
            if k == 1 {
                assert(v == 0);
            }
        }
        assert(y == u + v);
        assert(k * (x + y) == (m + 1) * y) by (nonlinear_arith)
            requires
                k * x == m * u,
                (k - 1) * y == m * v,
                y == u + v,
        ;
    }
}

/// Multiplying the expansion by `a + 1`.
proof fn lemma_expansion_grows(a: int, n: nat, k: int)
    ensures
        expansion(a, n + 1, k) == expansion(a, n, k) + a * expansion(a, n, k - 1),
    decreases k + 1,
{
    if k >= 0 {
        lemma_expansion_grows(a, n, k - 1);
        let b = binomial(n, k);
        let c = binomial(n, k - 1);
        let t = pow(a, k as nat);
        assert(binomial(n + 1, k) == b + c);
        let x = expansion(a, n, k - 1);
        let y = expansion(a, n, k - 2);
        if k == 0 {
            assert(c == 0);
            assert((b + c) * t == b * t);
            assert(a * 0 == 0);
        } else {
            let s = pow(a, (k - 1) as nat);
            assert(t == a * s) by {
                reveal(pow);
            }
            assert(x == y + c * s);
            assert(x + a * y + (b + c) * t == x + b * t + a * x) by (nonlinear_arith)
                requires
                    t == a * s,
                    x == y + c * s,
            ;
        }
    }
}

/// The binomial theorem.
proof fn lemma_expansion_is_power(a: int, n: nat)
    ensures
        expansion(a, n, n as int) == pow(a + 1, n),
    decreases n,
{
    if n == 0 {
        lemma_pow0(a);
        lemma_pow0(a + 1);
        assert(expansion(a, 0, -1) == 0);
        assert(expansion(a, 0, 0) == 1);
    } else {
        let m = (n - 1) as nat;
        lemma_expansion_is_power(a, m);
        lemma_expansion_grows(a, m, n as int);
        lemma_binomial_vanishes(m, n as int);
        assert(expansion(a, m, n as int) == expansion(a, m, m as int));
        let x = pow(a + 1, m);
        assert(pow(a + 1, n) == (a + 1) * x) by {
            reveal(pow);
        }
        assert(x + a * x == (a + 1) * x) by (nonlinear_arith);
    }
}

/// A prime that divides a product with a smaller positive factor divides the other factor.
proof fn lemma_prime_divides(p: int, k: int, x: int)
    requires
        prime(p),
        0 < k < p,
        (k * x) % p == 0,
    ensures
        x % p == 0,
    decreases k,
{
    if k > 1 {
        let q = p / k;
        let r = p % k;
        lemma_fundamental_div_mod(p, k);
        lemma_mod_bound(p, k);
        assert(r != 0);
        let t = (k * x) / p;
        lemma_fundamental_div_mod(k * x, p);
        assert(r * x == (x - q * t) * p) by (nonlinear_arith)
            requires
                p == k * q + r,
                k * x == p * t,
        ;
        lemma_mod_multiples_basic(x - q * t, p);
        lemma_prime_divides(p, r, x);
    } else {
        assert(k * x == x) by (nonlinear_arith)
            requires
                k == 1,
        ;
    }
}

/// Up to the last term but one, the expansion of a prime power leaves one.
proof fn lemma_expansion_of_prime(a: int, p: int, k: int)
    requires
        prime(p),
        0 <= k < p,
    ensures
        expansion(a, p as nat, k) % p == 1,
    decreases k,
{
    if k == 0 {
        lemma_binomial_ends(p as nat);
        lemma_pow0(a);
        assert(expansion(a, p as nat, -1) == 0);
        assert(expansion(a, p as nat, 0) == 1);
        lemma_small_mod(1, p as nat);
    } else {
        lemma_expansion_of_prime(a, p, k - 1);
        let b = binomial(p as nat, k);
        let c = binomial((p - 1) as nat, k - 1);
        let t = pow(a, k as nat);
        lemma_binomial_absorbs(p as nat, k);
        lemma_mul_is_commutative(p, c);
        lemma_mod_multiples_basic(c, p);
        lemma_prime_divides(p, k, b);
        lemma_fundamental_div_mod(b, p);
        let q = b / p;
        assert(b * t == p * (q * t)) by (nonlinear_arith)
            requires
                b == p * q,
        ;
        lemma_mod_multiples_vanish(q * t, expansion(a, p as nat, k - 1), p);
    }
}

/// Fermat's little theorem: a prime power of a number is congruent to the number.
pub proof fn lemma_fermat(a: nat, p: int)
    requires
        prime(p),
    ensures
        pow(a as int, p as nat) % p == a as int % p,
    decreases a,
{
    if a == 0 {
        assert(pow(0, p as nat) == 0) by {
            lemma_pow0(0);
            reveal(pow);
        }
    } else {
        let b = (a - 1) as nat;
        lemma_fermat(b, p);
        lemma_expansion_is_power(b as int, p as nat);
        lemma_expansion_of_prime(b as int, p, p - 1);
        lemma_binomial_ends(p as nat);
        let t = pow(b as int, p as nat);
        let head = expansion(b as int, p as nat, p - 1);
        assert(pow(a as int, p as nat) == head + 1 * t);
        lemma_add_mod_noop(head, t, p);
        lemma_add_mod_noop(1, b as int, p);
        lemma_small_mod(1, p as nat);
    }
}

/// Exponents that leave one modulo `p - 1` give back the number.
pub proof fn lemma_fermat_exponent(a: nat, p: int, m: nat)
    requires
        prime(p),
    ensures
        pow(a as int, (1 + m * (p - 1)) as nat) % p == a as int % p,
    decreases m,
{
    if m == 0 {
        assert(m * (p - 1) == 0) by (nonlinear_arith)
            requires
                m == 0,
        ;
        lemma_pow1(a as int);
    } else {
        let l = (m - 1) as nat;
        lemma_fermat_exponent(a, p, l);
        assert(0 <= l * (p - 1)) by (nonlinear_arith)
            requires
                p > 1,
        ;
        let e = (1 + l * (p - 1)) as nat;
        let f = (p - 1) as nat;
        assert(1 + m * (p - 1) == e + f) by (nonlinear_arith)
            requires
                e == 1 + l * (p - 1),
                f == p - 1,
                l == m - 1,
        ;
        let x = pow(a as int, e);
        let y = pow(a as int, f);
        lemma_pow_adds(a as int, e, f);
        lemma_mul_mod_noop_general(x, y, p);
        lemma_mul_mod_noop_general(a as int, y, p);
        assert(a as int * y == pow(a as int, p as nat)) by {
            reveal(pow);
        }
        lemma_fermat(a, p);
    }
}

} // verus!
