//! Fermat's little theorem, by way of the binomial coefficients of a prime.

use vstd::prelude::*;
use vstd::arithmetic::div_mod::{
    lemma_mod_equivalence, lemma_mod_multiples_basic, lemma_mod_twice,
    lemma_mul_mod_noop_general, lemma_small_mod,
};
use vstd::arithmetic::power::{lemma0_pow, lemma_pow0, lemma_pow1, lemma_pow_adds, pow};
use crate::modular::{
    fermat_inverse, is_prime, lemma_add_congruent, lemma_euclid, lemma_mul_congruent,
    lemma_sub_congruent,
};
use crate::poly::{
    coefficient, lemma_eval_mul_linear, lemma_eval_push, poly_add, poly_eval, poly_mul_linear,
    poly_scale,
};

verus! {

/// The coefficients of `(1 + x)^n`: row `n` of Pascal's triangle.
pub open spec fn binomial_row(n: nat) -> Seq<int>
    decreases n,
{
    if n == 0 {
        seq![1int]
    } else {
        poly_mul_linear(binomial_row((n - 1) as nat), 1, 1)
    }
}

/// Row `n` has `n + 1` entries.
pub proof fn lemma_binomial_row_len(n: nat)
    ensures
        binomial_row(n).len() == n + 1,
    decreases n,
{
    if n > 0 {
        lemma_binomial_row_len((n - 1) as nat);
    }
}

/// Row `n` is the polynomial `(1 + x)^n`.
pub proof fn lemma_binomial_row_eval(n: nat, x: int)
    ensures
        poly_eval(binomial_row(n), x) == pow(1 + x, n),
    decreases n,
{
    if n == 0 {
        assert(poly_eval(seq![1int].drop_first(), x) == 0);
        lemma_pow0(1 + x);
    } else {
        lemma_binomial_row_eval((n - 1) as nat, x);
        lemma_eval_mul_linear(binomial_row((n - 1) as nat), 1, 1, x);
        lemma_pow_adds(1 + x, 1, (n - 1) as nat);
        lemma_pow1(1 + x);
        assert(1 + 1 * x == 1 + x);
    }
}

/// Pascal's rule: an entry is the sum of the two entries above it.
pub proof fn lemma_pascal(n: nat, k: int)
    ensures
        coefficient(binomial_row(n + 1), k) == coefficient(binomial_row(n), k) + coefficient(
            binomial_row(n),
            k - 1,
        ),
{
    let row = binomial_row(n);
    let kept = poly_scale(row, 1);
    let shifted = seq![0int] + poly_scale(row, 1);
    assert(binomial_row(n + 1) == poly_add(kept, shifted));
    assert(coefficient(kept, k) == coefficient(row, k)) by {
        if 0 <= k < row.len() {
            assert(1 * row[k] == row[k]);
        }
    }
    assert(coefficient(shifted, k) == coefficient(row, k - 1)) by {
        if 1 <= k <= row.len() {
            assert(1 * row[k - 1] == row[k - 1]);
        }
    }
}

/// The absorption rule: `k` times entry `k` of row `n` is `n` times entry
/// `k - 1` of row `n - 1`.
pub proof fn lemma_absorption(n: nat, k: int)
    requires
        n >= 1,
    ensures
        k * coefficient(binomial_row(n), k) == n * coefficient(
            binomial_row((n - 1) as nat),
            k - 1,
        ),
    decreases n,
{
    let above = (n - 1) as nat;
    lemma_pascal(above, k);
    lemma_binomial_row_len(above);
    if n == 1 {
        assert(binomial_row(0) =~= seq![1int]);
        let left = coefficient(binomial_row(0), k);
        let right = coefficient(binomial_row(0), k - 1);
        assert(k * (left + right) == 1 * right) by {
            if k == 0 {
                assert(left + right == 1);
            } else if k == 1 {
                assert(left + right == 1);
            } else {
                assert(left + right == 0);
            }
        }
    } else {
        let top = (n - 2) as nat;
        lemma_absorption(above, k);
        lemma_absorption(above, k - 1);
        lemma_pascal(top, k - 1);
        let left = coefficient(binomial_row(above), k);
        let right = coefficient(binomial_row(above), k - 1);
        let top_left = coefficient(binomial_row(top), k - 1);
        let top_right = coefficient(binomial_row(top), k - 2);
        let ni = n as int;
        assert(k * (left + right) == ni * right) by (nonlinear_arith)
            requires
                k * left == (ni - 1) * top_left,
                (k - 1) * right == (ni - 1) * top_right,
                right == top_left + top_right,
        ;
    }
}

/// The first and the last entry of a row are 1.
pub proof fn lemma_binomial_row_ends(n: nat)
    ensures
        coefficient(binomial_row(n), 0) == 1,
        coefficient(binomial_row(n), n as int) == 1,
    decreases n,
{
    if n > 0 {
        let above = (n - 1) as nat;
        lemma_binomial_row_ends(above);
        lemma_binomial_row_len(above);
        lemma_pascal(above, 0);
        lemma_pascal(above, n as int);
    }
}

/// A prime divides every entry of its row but the first and the last.
pub proof fn lemma_prime_divides_binomial(p: nat, k: int)
    requires
        is_prime(p),
        0 < k < p,
    ensures
        coefficient(binomial_row(p), k) % (p as int) == 0,
{
    let entry = coefficient(binomial_row(p), k);
    let above = coefficient(binomial_row((p - 1) as nat), k - 1);
    lemma_absorption(p, k);
    lemma_mod_multiples_basic(above, p as int);
    assert(p * above == above * p) by (nonlinear_arith);
    lemma_euclid(p, k, entry);
    lemma_small_mod(k as nat, p);
}

/// Polynomials whose coefficients are congruent have congruent values.
pub proof fn lemma_eval_congruent(a: Seq<int>, b: Seq<int>, x: int, m: int)
    requires
        m > 0,
        a.len() == b.len(),
        forall|i: int| 0 <= i < a.len() ==> #[trigger] a[i] % m == b[i] % m,
    ensures
        poly_eval(a, x) % m == poly_eval(b, x) % m,
    decreases a.len(),
{
    if a.len() > 0 {
        assert forall|i: int| 0 <= i < a.drop_first().len() implies #[trigger] a.drop_first()[i]
            % m == b.drop_first()[i] % m by {
            assert(a[i + 1] % m == b[i + 1] % m);
        }
        lemma_eval_congruent(a.drop_first(), b.drop_first(), x, m);
        lemma_mul_congruent(x, x, poly_eval(a.drop_first(), x), poly_eval(b.drop_first(), x), m);
        assert(a[0] % m == b[0] % m);
        lemma_add_congruent(
            a[0],
            b[0],
            x * poly_eval(a.drop_first(), x),
            x * poly_eval(b.drop_first(), x),
            m,
        );
    }
}

/// A polynomial with `n` coefficients, the first 1 and the others 0.
pub open spec fn unit_poly(n: nat) -> Seq<int> {
    Seq::new(n, |i: int| if i == 0 { 1int } else { 0int })
}

/// A polynomial whose coefficients are all 0 has the value 0.
proof fn lemma_eval_zero(c: Seq<int>, x: int)
    requires
        forall|i: int| 0 <= i < c.len() ==> #[trigger] c[i] == 0,
    ensures
        poly_eval(c, x) == 0,
    decreases c.len(),
{
    if c.len() > 0 {
        assert(c[0] == 0);
        assert forall|i: int| 0 <= i < c.drop_first().len() implies #[trigger] c.drop_first()[i]
            == 0 by {
            assert(c[i + 1] == 0);
        }
        lemma_eval_zero(c.drop_first(), x);
        assert(x * 0 == 0);
    }
}

/// Modulo a prime `p`, the `p`-th power of `1 + x` is 1 plus the `p`-th
/// power of `x`.
pub proof fn lemma_prime_power_of_sum(p: nat, x: int)
    requires
        is_prime(p),
    ensures
        pow(1 + x, p) % (p as int) == (1 + pow(x, p)) % (p as int),
{
    let row = binomial_row(p);
    let ends = unit_poly(p).push(1);
    lemma_binomial_row_len(p);
    lemma_binomial_row_ends(p);
    lemma_binomial_row_eval(p, x);
    assert forall|i: int| 0 <= i < row.len() implies #[trigger] row[i] % (p as int) == ends[i] % (
    p as int) by {
        lemma_small_mod(0, p);
        if 0 < i < p {
            lemma_prime_divides_binomial(p, i);
            assert(ends[i] == 0);
        } else if i == 0 {
            assert(ends[i] == 1);
        } else {
            assert(ends[i] == 1);
        }
    }
    lemma_eval_congruent(row, ends, x, p as int);
    lemma_eval_push(unit_poly(p), 1, x);
    lemma_eval_zero(unit_poly(p).drop_first(), x);
    assert(x * 0 == 0);
    assert(1 * pow(x, p) == pow(x, p));
}

/// Fermat's little theorem: modulo a prime `p`, the `p`-th power of a
/// number is the number.
pub proof fn lemma_fermat(p: nat, a: nat)
    requires
        is_prime(p),
    ensures
        pow(a as int, p) % (p as int) == a % p,
    decreases a,
{
    if a == 0 {
        lemma0_pow(p);
    } else {
        let below = (a - 1) as nat;
        lemma_fermat(p, below);
        lemma_prime_power_of_sum(p, below as int);
        lemma_add_congruent(1, 1, pow(below as int, p), below as int, p as int);
    }
}

/// Modulo a prime `p`, the power `p - 1` of a number that `p` does not
/// divide is 1.
pub proof fn lemma_fermat_unit_power(p: nat, a: nat)
    requires
        is_prime(p),
        a % p != 0,
    ensures
        pow(a as int, (p - 1) as nat) % (p as int) == 1,
{
    let ai = a as int;
    let pi = p as int;
    let lower = pow(ai, (p - 1) as nat);
    lemma_fermat(p, a);
    lemma_pow_adds(ai, 1, (p - 1) as nat);
    lemma_pow1(ai);
    lemma_mod_twice(ai, pi);
    lemma_sub_congruent(ai * lower, ai, ai, ai, pi);
    lemma_small_mod(0, p);
    lemma_small_mod(1, p);
    assert(ai * lower - ai == ai * (lower - 1)) by (nonlinear_arith);
    lemma_euclid(p, ai, lower - 1);
    lemma_mod_equivalence(lower, 1, pi);
}

/// Modulo a prime `p`, the power `p - 2` of a number that `p` does not
/// divide is its inverse.
pub proof fn lemma_fermat_inverse(p: nat, a: nat)
    requires
        is_prime(p),
        a % p != 0,
    ensures
        (a * fermat_inverse(a as int, p as int)) % (p as int) == 1,
{
    let ai = a as int;
    let pi = p as int;
    let lower = pow(ai, (p - 2) as nat);
    lemma_fermat_unit_power(p, a);
    lemma_pow_adds(ai, 1, (p - 2) as nat);
    lemma_pow1(ai);
    lemma_mul_mod_noop_general(ai, lower, pi);
}

} // verus!
