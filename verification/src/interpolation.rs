//! Lagrange interpolation at zero over the integers modulo `m`.

use vstd::prelude::*;
use vstd::arithmetic::div_mod::{
    lemma_mod_bound, lemma_mod_equivalence, lemma_mod_twice, lemma_mul_mod_noop_general,
    lemma_small_mod,
};
use crate::fermat::lemma_fermat_inverse;
use crate::modular::{
    fermat_inverse, is_inverse_of, is_prime, is_unit, lemma_add_congruent, lemma_euclid,
    lemma_mul_congruent, lemma_sub_congruent, lemma_unit_cancel, lemma_unit_factors,
};
use crate::poly::{
    lemma_division, lemma_eval_add, lemma_eval_mul_linear, lemma_eval_scale, lemma_quotient_len,
    poly_add, poly_eval, poly_mul_linear, poly_quotient, poly_scale,
};

verus! {

/// Why a reconstruction is refused.
#[derive(Debug, Clone, Copy, PartialEq, Eq, Structural)]
pub enum ReconstructError {
    /// The modulus is below 2.
    ModulusTooSmall,
    /// The differences between one x-coordinate and the others multiply to
    /// zero modulo the modulus, as they do when two shares have the same
    /// x-coordinate.
    ZeroDenominator,
    /// A denominator has no inverse of the form that Fermat's little theorem
    /// gives for a prime modulus; the modulus is not prime.
    NotInvertible,
}

/// The product of `xs[j] - t` over every `j` below `n` other than `i`.
pub open spec fn basis_product(xs: Seq<int>, i: int, n: nat, t: int) -> int
    decreases n,
{
    if n == 0 {
        1
    } else {
        basis_product(xs, i, (n - 1) as nat, t) * if n - 1 == i {
            1
        } else {
            xs[n - 1] - t
        }
    }
}

/// The numerator of the `i`-th Lagrange coefficient at zero: the product of
/// the other x-coordinates, modulo `m`.
pub open spec fn lagrange_numerator(xs: Seq<int>, i: int, m: int) -> int {
    basis_product(xs, i, xs.len(), 0) % m
}

/// The denominator of the `i`-th Lagrange coefficient: the product of the
/// differences between the other x-coordinates and `xs[i]`, modulo `m`.
pub open spec fn lagrange_denominator(xs: Seq<int>, i: int, m: int) -> int {
    basis_product(xs, i, xs.len(), xs[i]) % m
}

/// Whether the Fermat candidate is an inverse of the `i`-th denominator.
pub open spec fn inverse_holds(xs: Seq<int>, i: int, m: int) -> bool {
    (lagrange_denominator(xs, i, m) * fermat_inverse(lagrange_denominator(xs, i, m), m)) % m == 1
}

/// The `i`-th Lagrange coefficient at zero: numerator times inverse of the
/// denominator, modulo `m`.
pub open spec fn lagrange_coefficient(xs: Seq<int>, i: int, m: int) -> int {
    (lagrange_numerator(xs, i, m) * fermat_inverse(lagrange_denominator(xs, i, m), m)) % m
}

/// The sum of `lagrange_coefficient * y` over the first `n` points.
pub open spec fn interpolation_sum(xs: Seq<int>, ys: Seq<int>, m: int, n: nat) -> int
    decreases n,
{
    if n == 0 {
        0
    } else {
        interpolation_sum(xs, ys, m, (n - 1) as nat) + lagrange_coefficient(xs, n - 1, m) * ys[n
            - 1]
    }
}

/// What reconstructing from the points `(xs[i], ys[i])` modulo `m` gives: the
/// value at zero of the polynomial through the points, or the reason why it
/// cannot be had.
pub open spec fn reconstruction(xs: Seq<int>, ys: Seq<int>, m: int) -> Result<
    int,
    ReconstructError,
> {
    if m < 2 {
        Err(ReconstructError::ModulusTooSmall)
    } else if exists|i: int| 0 <= i < xs.len() && #[trigger] lagrange_denominator(xs, i, m) == 0 {
        Err(ReconstructError::ZeroDenominator)
    } else if exists|i: int| 0 <= i < xs.len() && !#[trigger] inverse_holds(xs, i, m) {
        Err(ReconstructError::NotInvertible)
    } else {
        Ok(interpolation_sum(xs, ys, m, xs.len()) % m)
    }
}

/// The difference of the x-coordinates at `a` and `b` has an inverse modulo
/// `m`.
pub open spec fn difference_is_unit(xs: Seq<int>, a: int, b: int, m: int) -> bool {
    is_unit(xs[a] - xs[b], m)
}

/// Any two of the first `n` x-coordinates differ by a unit modulo `m`.
pub open spec fn differences_are_units(xs: Seq<int>, n: nat, m: int) -> bool {
    forall|a: int, b: int|
        0 <= a < n && 0 <= b < n && a != b ==> #[trigger] difference_is_unit(xs, a, b, m)
}

/// A polynomial with no more coefficients than it has roots modulo `m`,
/// among points that differ by units, is zero modulo `m` everywhere.
pub proof fn lemma_roots_force_zero(c: Seq<int>, xs: Seq<int>, n: nat, m: int, t: int)
    requires
        m > 0,
        c.len() <= n <= xs.len(),
        differences_are_units(xs, n, m),
        forall|i: int| 0 <= i < n ==> #[trigger] poly_eval(c, xs[i]) % m == 0,
    ensures
        poly_eval(c, t) % m == 0,
    decreases n,
{
    lemma_small_mod(0, m as nat);
    if c.len() > 0 {
        let last = n - 1;
        let a = xs[last];
        let q = poly_quotient(c, a);
        lemma_quotient_len(c, a);
        assert(poly_eval(c, xs[last]) % m == 0);
        assert forall|i: int| 0 <= i < n - 1 implies #[trigger] poly_eval(q, xs[i]) % m == 0 by {
            lemma_division(c, a, xs[i]);
            lemma_sub_congruent(poly_eval(c, xs[i]), 0, poly_eval(c, a), 0, m);
            assert(difference_is_unit(xs, i, last, m));
            lemma_unit_cancel(xs[i] - a, poly_eval(q, xs[i]), m);
        }
        assert(differences_are_units(xs, (n - 1) as nat, m)) by {
            assert forall|a: int, b: int| 0 <= a < n - 1 && 0 <= b < n - 1 && a != b implies
                #[trigger] difference_is_unit(xs, a, b, m) by {}
        }
        lemma_roots_force_zero(q, xs, (n - 1) as nat, m, t);
        lemma_division(c, a, t);
        lemma_mul_congruent(t - a, t - a, poly_eval(q, t), 0, m);
        lemma_add_congruent(poly_eval(c, a), 0, (t - a) * poly_eval(q, t), 0, m);
    }
}

/// The polynomial in `t` that [`basis_product`] is the value of: the product
/// of `xs[j] - t` over every `j` below `n` other than `i`.
pub open spec fn basis_poly(xs: Seq<int>, i: int, n: nat) -> Seq<int>
    decreases n,
{
    if n == 0 {
        seq![1int]
    } else if n - 1 == i {
        basis_poly(xs, i, (n - 1) as nat)
    } else {
        poly_mul_linear(basis_poly(xs, i, (n - 1) as nat), xs[n - 1], -1)
    }
}

/// [`basis_poly`] has the values of [`basis_product`].
pub proof fn lemma_basis_poly_eval(xs: Seq<int>, i: int, n: nat, t: int)
    ensures
        poly_eval(basis_poly(xs, i, n), t) == basis_product(xs, i, n, t),
    decreases n,
{
    if n == 0 {
        assert(poly_eval(seq![1int].drop_first(), t) == 0);
    } else {
        lemma_basis_poly_eval(xs, i, (n - 1) as nat, t);
        let lower = basis_poly(xs, i, (n - 1) as nat);
        let value = basis_product(xs, i, (n - 1) as nat, t);
        if n - 1 == i {
            assert(value * 1 == value);
        } else {
            lemma_eval_mul_linear(lower, xs[n - 1], -1, t);
            assert((xs[n - 1] + (-1) * t) * value == value * (xs[n - 1] - t)) by (nonlinear_arith);
        }
    }
}

/// A basis polynomial over `n` points, one of them left out, has `n`
/// coefficients.
pub proof fn lemma_basis_poly_len(xs: Seq<int>, i: int, n: nat)
    ensures
        basis_poly(xs, i, n).len() == if 0 <= i < n {
            n
        } else {
            n + 1
        },
    decreases n,
{
    if n > 0 {
        lemma_basis_poly_len(xs, i, (n - 1) as nat);
    }
}

/// A basis product vanishes at every point other than its own.
pub proof fn lemma_basis_zero(xs: Seq<int>, i: int, n: nat, k: int)
    requires
        0 <= k < n,
        k != i,
    ensures
        basis_product(xs, i, n, xs[k]) == 0,
    decreases n,
{
    let lower = basis_product(xs, i, (n - 1) as nat, xs[k]);
    if k == n - 1 {
        assert(lower * (xs[k] - xs[k]) == 0) by (nonlinear_arith);
    } else {
        lemma_basis_zero(xs, i, (n - 1) as nat, k);
        let factor = if n - 1 == i {
            1
        } else {
            xs[n - 1] - xs[k]
        };
        assert(lower * factor == 0) by (nonlinear_arith)
            requires
                lower == 0,
        ;
    }
}

/// Every factor of a basis product that is a unit is a unit.
pub proof fn lemma_basis_factor_unit(xs: Seq<int>, i: int, n: nat, m: int, j: int, t: int)
    requires
        m > 0,
        0 <= j < n,
        j != i,
        is_unit(basis_product(xs, i, n, t), m),
    ensures
        is_unit(xs[j] - t, m),
    decreases n,
{
    let lower = basis_product(xs, i, (n - 1) as nat, t);
    if n - 1 == i {
        assert(lower * 1 == lower);
        lemma_basis_factor_unit(xs, i, (n - 1) as nat, m, j, t);
    } else {
        lemma_unit_factors(lower, xs[n - 1] - t, m);
        if j != n - 1 {
            lemma_basis_factor_unit(xs, i, (n - 1) as nat, m, j, t);
        }
    }
}

/// The sum of `ws[i] * basis_product(xs, i, n, t)` over `i` below `k`.
pub open spec fn weighted_sum(xs: Seq<int>, ws: Seq<int>, n: nat, k: nat, t: int) -> int
    decreases k,
{
    if k == 0 {
        0
    } else {
        weighted_sum(xs, ws, n, (k - 1) as nat, t) + ws[k - 1] * basis_product(xs, k - 1, n, t)
    }
}

/// The polynomial in `t` that [`weighted_sum`] is the value of.
pub open spec fn interpolant(xs: Seq<int>, ws: Seq<int>, n: nat, k: nat) -> Seq<int>
    decreases k,
{
    if k == 0 {
        Seq::empty()
    } else {
        poly_add(
            interpolant(xs, ws, n, (k - 1) as nat),
            poly_scale(basis_poly(xs, k - 1, n), ws[k - 1]),
        )
    }
}

/// [`interpolant`] has the values of [`weighted_sum`].
pub proof fn lemma_interpolant_eval(xs: Seq<int>, ws: Seq<int>, n: nat, k: nat, t: int)
    ensures
        poly_eval(interpolant(xs, ws, n, k), t) == weighted_sum(xs, ws, n, k, t),
    decreases k,
{
    if k > 0 {
        lemma_interpolant_eval(xs, ws, n, (k - 1) as nat, t);
        let basis = basis_poly(xs, k - 1, n);
        lemma_eval_add(interpolant(xs, ws, n, (k - 1) as nat), poly_scale(basis, ws[k - 1]), t);
        lemma_eval_scale(basis, ws[k - 1], t);
        lemma_basis_poly_eval(xs, k - 1, n, t);
    }
}

/// An interpolant through `n` points has at most `n` coefficients.
pub proof fn lemma_interpolant_len(xs: Seq<int>, ws: Seq<int>, n: nat, k: nat)
    requires
        k <= n,
    ensures
        interpolant(xs, ws, n, k).len() <= n,
    decreases k,
{
    if k > 0 {
        lemma_interpolant_len(xs, ws, n, (k - 1) as nat);
        lemma_basis_poly_len(xs, k - 1, n);
    }
}

/// At the `k`-th point only the `k`-th term of a weighted sum is left.
pub proof fn lemma_weighted_sum_at_point(xs: Seq<int>, ws: Seq<int>, n: nat, j: nat, k: int)
    requires
        0 <= k < n,
        j <= n,
    ensures
        weighted_sum(xs, ws, n, j, xs[k]) == if k < j {
            ws[k] * basis_product(xs, k, n, xs[k])
        } else {
            0
        },
    decreases j,
{
    if j > 0 {
        lemma_weighted_sum_at_point(xs, ws, n, (j - 1) as nat, k);
        if j - 1 != k {
            lemma_basis_zero(xs, j - 1, n, k);
            assert(ws[j - 1] * 0 == 0);
        }
    }
}

/// The weights that turn [`weighted_sum`] into Lagrange interpolation: each
/// y-coordinate times the inverse of its denominator.
pub open spec fn lagrange_weights(xs: Seq<int>, ys: Seq<int>, m: int) -> Seq<int> {
    Seq::new(xs.len(), |i: int| ys[i] * fermat_inverse(lagrange_denominator(xs, i, m), m))
}

/// Where the inverses hold, any two x-coordinates differ by a unit.
pub proof fn lemma_inverses_give_units(xs: Seq<int>, m: int)
    requires
        m > 0,
        forall|i: int| 0 <= i < xs.len() ==> #[trigger] inverse_holds(xs, i, m),
    ensures
        differences_are_units(xs, xs.len(), m),
{
    assert forall|a: int, b: int|
        0 <= a < xs.len() && 0 <= b < xs.len() && a != b implies #[trigger] difference_is_unit(
        xs,
        a,
        b,
        m,
    ) by {
        let whole = basis_product(xs, b, xs.len(), xs[b]);
        let inverse = fermat_inverse(lagrange_denominator(xs, b, m), m);
        assert(inverse_holds(xs, b, m));
        lemma_mul_mod_noop_general(whole, inverse, m);
        assert(is_inverse_of(whole, inverse, m));
        lemma_basis_factor_unit(xs, b, xs.len(), m, a, xs[b]);
    }
}

/// The sum that a reconstruction computes is congruent to the weighted sum
/// at zero with the Lagrange weights.
pub proof fn lemma_sum_is_weighted_sum(xs: Seq<int>, ys: Seq<int>, m: int, k: nat)
    requires
        m > 0,
        k <= xs.len(),
    ensures
        interpolation_sum(xs, ys, m, k) % m == weighted_sum(
            xs,
            lagrange_weights(xs, ys, m),
            xs.len(),
            k,
            0,
        ) % m,
    decreases k,
{
    if k > 0 {
        let i = k - 1;
        let ws = lagrange_weights(xs, ys, m);
        lemma_sum_is_weighted_sum(xs, ys, m, (k - 1) as nat);
        let whole = basis_product(xs, i, xs.len(), 0);
        let inverse = fermat_inverse(lagrange_denominator(xs, i, m), m);
        lemma_mul_mod_noop_general(whole, inverse, m);
        lemma_mod_twice(whole * inverse, m);
        lemma_mul_congruent(lagrange_coefficient(xs, i, m), whole * inverse, ys[i], ys[i], m);
        assert((whole * inverse) * ys[i] == (ys[i] * inverse) * whole) by (nonlinear_arith);
        lemma_add_congruent(
            interpolation_sum(xs, ys, m, (k - 1) as nat),
            weighted_sum(xs, ws, xs.len(), (k - 1) as nat, 0),
            lagrange_coefficient(xs, i, m) * ys[i],
            ws[i] * whole,
            m,
        );
    }
}

/// Lagrange interpolation at zero gives back the constant term.
///
/// Let the points `(xs[i], ys[i])` lie, modulo `m`, on a polynomial `c` that
/// has no more coefficients than there are points, and let every denominator
/// have its inverse. Then the sum that a reconstruction computes is
/// congruent to `c[0]`.
pub proof fn lemma_interpolation_recovers_constant(
    c: Seq<int>,
    xs: Seq<int>,
    ys: Seq<int>,
    m: int,
)
    requires
        m > 0,
        1 <= c.len() <= xs.len(),
        xs.len() == ys.len(),
        forall|i: int| 0 <= i < xs.len() ==> ys[i] % m == #[trigger] poly_eval(c, xs[i]) % m,
        forall|i: int| 0 <= i < xs.len() ==> #[trigger] inverse_holds(xs, i, m),
    ensures
        interpolation_sum(xs, ys, m, xs.len()) % m == c[0] % m,
{
    let n = xs.len();
    let ws = lagrange_weights(xs, ys, m);
    let through = interpolant(xs, ws, n, n);
    let gap = poly_add(through, poly_scale(c, -1));
    lemma_inverses_give_units(xs, m);
    lemma_interpolant_len(xs, ws, n, n);
    assert forall|k: int| 0 <= k < n implies #[trigger] poly_eval(gap, xs[k]) % m == 0 by {
        let whole = basis_product(xs, k, n, xs[k]);
        let inverse = fermat_inverse(lagrange_denominator(xs, k, m), m);
        lemma_eval_add(through, poly_scale(c, -1), xs[k]);
        lemma_eval_scale(c, -1, xs[k]);
        lemma_interpolant_eval(xs, ws, n, n, xs[k]);
        lemma_weighted_sum_at_point(xs, ws, n, n, k);
        assert(inverse_holds(xs, k, m));
        lemma_mul_mod_noop_general(whole, inverse, m);
        lemma_small_mod(1, m as nat);
        if m > 1 {
            lemma_mul_congruent(ys[k], ys[k], whole * inverse, 1, m);
        }
        assert(ys[k] * (whole * inverse) == (ys[k] * inverse) * whole) by (nonlinear_arith);
        assert(ys[k] * 1 == ys[k]);
        lemma_sub_congruent(ws[k] * whole, poly_eval(c, xs[k]), poly_eval(c, xs[k]), poly_eval(
            c,
            xs[k],
        ), m);
        lemma_small_mod(0, m as nat);
    }
    lemma_roots_force_zero(gap, xs, n, m, 0);
    lemma_eval_add(through, poly_scale(c, -1), 0);
    lemma_eval_scale(c, -1, 0);
    lemma_interpolant_eval(xs, ws, n, n, 0);
    assert(poly_eval(c, 0) == c[0]) by {
        assert(0 * poly_eval(c.drop_first(), 0) == 0);
    }
    lemma_mod_equivalence(weighted_sum(xs, ws, n, n, 0), c[0], m);
    lemma_sum_is_weighted_sum(xs, ys, m, n);
}

/// A basis product with a factor that is zero modulo `m` is zero modulo `m`.
pub proof fn lemma_basis_zero_factor(xs: Seq<int>, i: int, n: nat, m: int, j: int, t: int)
    requires
        m > 0,
        0 <= j < n,
        j != i,
        (xs[j] - t) % m == 0,
    ensures
        basis_product(xs, i, n, t) % m == 0,
    decreases n,
{
    let lower = basis_product(xs, i, (n - 1) as nat, t);
    lemma_small_mod(0, m as nat);
    if j == n - 1 {
        lemma_mul_congruent(lower, lower, xs[j] - t, 0, m);
        assert(lower * 0 == 0);
    } else {
        lemma_basis_zero_factor(xs, i, (n - 1) as nat, m, j, t);
        let factor = if n - 1 == i {
            1
        } else {
            xs[n - 1] - t
        };
        lemma_mul_congruent(lower, 0, factor, factor, m);
        assert(0 * factor == 0);
    }
}

/// Modulo a prime, a basis product without a zero factor is not zero.
pub proof fn lemma_basis_nonzero(xs: Seq<int>, i: int, n: nat, p: nat, t: int)
    requires
        is_prime(p),
        forall|j: int| 0 <= j < n && j != i ==> (#[trigger] xs[j] - t) % (p as int) != 0,
    ensures
        basis_product(xs, i, n, t) % (p as int) != 0,
    decreases n,
{
    if n == 0 {
        lemma_small_mod(1, p);
    } else {
        lemma_basis_nonzero(xs, i, (n - 1) as nat, p, t);
        let lower = basis_product(xs, i, (n - 1) as nat, t);
        if n - 1 == i {
            assert(lower * 1 == lower);
        } else {
            assert((xs[n - 1] - t) % (p as int) != 0);
            if (lower * (xs[n - 1] - t)) % (p as int) == 0 {
                lemma_euclid(p, lower, xs[n - 1] - t);
            }
        }
    }
}

/// The x-coordinates differ from one another modulo `m`.
pub open spec fn distinct_modulo(xs: Seq<int>, m: int) -> bool {
    forall|a: int, b: int|
        0 <= a < xs.len() && 0 <= b < xs.len() && a != b ==> #[trigger] xs[a] % m
            != #[trigger] xs[b] % m
}

/// Two shares with x-coordinates that are equal modulo the modulus end a
/// reconstruction with [`ReconstructError::ZeroDenominator`].
pub proof fn lemma_equal_coordinates_are_refused(
    xs: Seq<int>,
    ys: Seq<int>,
    m: int,
    a: int,
    b: int,
)
    requires
        m >= 2,
        0 <= a < xs.len(),
        0 <= b < xs.len(),
        a != b,
        xs[a] % m == xs[b] % m,
    ensures
        reconstruction(xs, ys, m) == Err::<int, ReconstructError>(
            ReconstructError::ZeroDenominator,
        ),
{
    lemma_mod_equivalence(xs[a], xs[b], m);
    lemma_basis_zero_factor(xs, b, xs.len(), m, a, xs[b]);
    lemma_mod_twice(basis_product(xs, b, xs.len(), xs[b]), m);
    assert(lagrange_denominator(xs, b, m) == 0);
}

/// With a prime modulus and x-coordinates that differ modulo it, a
/// denominator is not zero and has its inverse.
proof fn lemma_prime_denominator(xs: Seq<int>, i: int, p: nat)
    requires
        is_prime(p),
        distinct_modulo(xs, p as int),
        0 <= i < xs.len(),
    ensures
        lagrange_denominator(xs, i, p as int) != 0,
        inverse_holds(xs, i, p as int),
{
    let m = p as int;
    let denominator = lagrange_denominator(xs, i, m);
    assert forall|j: int| 0 <= j < xs.len() && j != i implies (#[trigger] xs[j] - xs[i]) % m
        != 0 by {
        lemma_mod_equivalence(xs[j], xs[i], m);
    }
    lemma_basis_nonzero(xs, i, xs.len(), p, xs[i]);
    lemma_mod_twice(basis_product(xs, i, xs.len(), xs[i]), m);
    lemma_mod_bound(basis_product(xs, i, xs.len(), xs[i]), m);
    lemma_fermat_inverse(p, denominator as nat);
}

/// With a prime modulus and x-coordinates that differ modulo it, a
/// reconstruction succeeds.
pub proof fn lemma_prime_reconstruction_succeeds(xs: Seq<int>, ys: Seq<int>, p: nat)
    requires
        is_prime(p),
        distinct_modulo(xs, p as int),
    ensures
        reconstruction(xs, ys, p as int) is Ok,
        forall|i: int| 0 <= i < xs.len() ==> #[trigger] inverse_holds(xs, i, p as int),
{
    let m = p as int;
    assert forall|i: int| 0 <= i < xs.len() implies #[trigger] lagrange_denominator(xs, i, m)
        != 0 by {
        lemma_prime_denominator(xs, i, p);
    }
    assert forall|i: int| 0 <= i < xs.len() implies #[trigger] inverse_holds(xs, i, m) by {
        lemma_prime_denominator(xs, i, p);
    }
}

/// The secret comes back.
///
/// Let `p` be prime, and let the points `(xs[i], ys[i])`, with x-coordinates
/// that differ modulo `p`, lie modulo `p` on a polynomial `c` that has no
/// more coefficients than there are points. Then the reconstruction from
/// the points is the constant term of `c`, reduced modulo `p`.
pub proof fn lemma_reconstruction_recovers_constant(
    c: Seq<int>,
    xs: Seq<int>,
    ys: Seq<int>,
    p: nat,
)
    requires
        is_prime(p),
        1 <= c.len() <= xs.len(),
        xs.len() == ys.len(),
        distinct_modulo(xs, p as int),
        forall|i: int|
            0 <= i < xs.len() ==> ys[i] % (p as int) == #[trigger] poly_eval(c, xs[i]) % (p as int),
    ensures
        reconstruction(xs, ys, p as int) == Ok::<int, ReconstructError>(c[0] % (p as int)),
{
    lemma_prime_reconstruction_succeeds(xs, ys, p);
    lemma_interpolation_recovers_constant(c, xs, ys, p as int);
}

} // verus!
