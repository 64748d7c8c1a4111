//! Arithmetic modulo a positive integer.

use vstd::prelude::*;
use vstd::arithmetic::div_mod::{
    lemma_add_mod_noop, lemma_fundamental_div_mod, lemma_mod_multiples_basic,
    lemma_mod_multiples_vanish, lemma_mul_mod_noop_general, lemma_small_mod, lemma_sub_mod_noop,
};
use vstd::arithmetic::power::pow;

verus! {

/// Sums of congruent numbers are congruent.
pub proof fn lemma_add_congruent(a: int, b: int, c: int, d: int, m: int)
    requires
        m > 0,
        a % m == b % m,
        c % m == d % m,
    ensures
        (a + c) % m == (b + d) % m,
{
    lemma_add_mod_noop(a, c, m);
    lemma_add_mod_noop(b, d, m);
}

/// Differences of congruent numbers are congruent.
pub proof fn lemma_sub_congruent(a: int, b: int, c: int, d: int, m: int)
    requires
        m > 0,
        a % m == b % m,
        c % m == d % m,
    ensures
        (a - c) % m == (b - d) % m,
{
    lemma_sub_mod_noop(a, c, m);
    lemma_sub_mod_noop(b, d, m);
}

/// Products of congruent numbers are congruent.
pub proof fn lemma_mul_congruent(a: int, b: int, c: int, d: int, m: int)
    requires
        m > 0,
        a % m == b % m,
        c % m == d % m,
    ensures
        (a * c) % m == (b * d) % m,
{
    lemma_mul_mod_noop_general(a, c, m);
    lemma_mul_mod_noop_general(b, d, m);
}

/// Adding `m - b % m` is subtracting `b`, modulo `m`.
pub proof fn lemma_shifted_difference(a: int, b: int, m: int)
    requires
        m > 0,
    ensures
        (a + (m - b % m)) % m == (a - b) % m,
{
    lemma_fundamental_div_mod(b, m);
    let q = b / m;
    assert(a + (m - b % m) == (a - b) + m * (q + 1)) by (nonlinear_arith)
        requires
            b == m * q + b % m,
    ;
    lemma_mod_multiples_vanish(q + 1, a - b, m);
}

/// The candidate that Fermat's little theorem gives for the inverse of `a`
/// modulo `m`: `a` to the power `m - 2`.
pub open spec fn fermat_inverse(a: int, m: int) -> int {
    pow(a, (m - 2) as nat) % m
}

/// `e` is an inverse of `a` modulo `m`.
pub open spec fn is_inverse_of(a: int, e: int, m: int) -> bool {
    (a * e) % m == 1
}

/// `a` has an inverse modulo `m`.
pub open spec fn is_unit(a: int, m: int) -> bool {
    exists|e: int| #[trigger] is_inverse_of(a, e, m)
}

/// A unit can be cancelled from a product that is zero modulo `m`.
pub proof fn lemma_unit_cancel(a: int, b: int, m: int)
    requires
        m > 0,
        is_unit(a, m),
        (a * b) % m == 0,
    ensures
        b % m == 0,
{
    let e = choose|e: int| #[trigger] is_inverse_of(a, e, m);
    // b = 1 * b is congruent to (a * e) * b = e * (a * b), which is congruent to e * 0
    if m == 1 {
    } else {
        lemma_small_mod(1, m as nat);
        lemma_small_mod(0, m as nat);
        lemma_mul_congruent(a * e, 1, b, b, m);
        assert((a * e) * b == e * (a * b)) by (nonlinear_arith);
        lemma_mul_congruent(e, e, a * b, 0, m);
        assert(e * 0 == 0);
        assert(1 * b == b);
    }
}

/// Both factors of a unit are units.
pub proof fn lemma_unit_factors(a: int, b: int, m: int)
    requires
        m > 0,
        is_unit(a * b, m),
    ensures
        is_unit(a, m),
        is_unit(b, m),
{
    let e = choose|e: int| #[trigger] is_inverse_of(a * b, e, m);
    assert((a * b) * e == a * (b * e)) by (nonlinear_arith);
    assert((a * b) * e == b * (a * e)) by (nonlinear_arith);
    assert(is_inverse_of(a, b * e, m));
    assert(is_inverse_of(b, a * e, m));
}

/// `d` divides `n`.
pub open spec fn divides(d: nat, n: nat) -> bool {
    d > 0 && n % d == 0
}

/// `n` is a prime number: at least 2, and divided by no number strictly
/// between 1 and itself.
pub open spec fn is_prime(n: nat) -> bool {
    n >= 2 && forall|d: nat| 1 < d < n ==> !#[trigger] divides(d, n)
}

/// Euclid's lemma for a first factor between 0 and the prime.
proof fn lemma_euclid_below(p: nat, a: nat, b: int)
    requires
        is_prime(p),
        0 < a < p,
        (a * b) % (p as int) == 0,
    ensures
        b % (p as int) == 0,
    decreases a,
{
    let pi = p as int;
    if a == 1 {
        assert(1 * b == b);
    } else {
        let q = p / a;
        let r = p % a;
        lemma_fundamental_div_mod(pi, a as int);
        assert(!divides(a, p));
        // r * b == p * b - q * (a * b), and p divides both terms
        assert(r * b == pi * b - q * (a * b)) by (nonlinear_arith)
            requires
                pi == a * q + r,
        ;
        lemma_small_mod(0, p);
        lemma_mod_multiples_basic(b, pi);
        assert(pi * b == b * pi) by (nonlinear_arith);
        lemma_mul_congruent(q as int, q as int, a * b, 0, pi);
        assert(q * 0 == 0);
        lemma_sub_congruent(pi * b, 0, q * (a * b), 0, pi);
        lemma_euclid_below(p, r, b);
    }
}

/// Euclid's lemma: a prime that divides a product divides one of the factors.
pub proof fn lemma_euclid(p: nat, a: int, b: int)
    requires
        is_prime(p),
        (a * b) % (p as int) == 0,
    ensures
        a % (p as int) == 0 || b % (p as int) == 0,
{
    let pi = p as int;
    let reduced = a % pi;
    if reduced != 0 {
        lemma_mul_mod_noop_general(a, b, pi);
        lemma_euclid_below(p, reduced as nat, b);
    }
}

} // verus!
