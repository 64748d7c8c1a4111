//! Splitting a secret into shares and putting it together again.

use vstd::prelude::*;
use vstd::arithmetic::div_mod::{lemma_mod_twice, lemma_mul_mod_noop_general, lemma_small_mod};
use vstd::arithmetic::power::pow;
use num_bigint::BigUint;
use crate::bignum::{
    big_add, big_clone, big_eq, big_from_u64, big_le, big_modpow, big_mul, big_one, big_rem,
    big_sub, big_zero, entropy_rng, nat_of, random_below,
};
use crate::interpolation::{
    basis_product, distinct_modulo, interpolation_sum, inverse_holds, lagrange_coefficient,
    lagrange_denominator, lagrange_numerator, lemma_equal_coordinates_are_refused,
    lemma_prime_reconstruction_succeeds, lemma_reconstruction_recovers_constant, reconstruction,
    ReconstructError,
};
use crate::modular::{
    is_prime, lemma_add_congruent, lemma_mul_congruent, lemma_shifted_difference,
};
use crate::poly::{lemma_eval_push, poly_eval};

verus! {

/// Why a split is refused.
#[derive(Debug, Clone, Copy, PartialEq, Eq, Structural)]
pub enum SplitError {
    /// The threshold is below 2.
    ThresholdTooSmall,
    /// Fewer shares are asked for than the threshold needs.
    TooFewShares,
    /// The modulus is below 2.
    ModulusTooSmall,
}

/// The numbers that a sequence of `BigUint` coefficients stands for.
pub open spec fn coefficient_values(c: Seq<BigUint>) -> Seq<int> {
    Seq::new(c.len(), |i: int| nat_of(c[i]) as int)
}

/// The x-coordinates of a sequence of shares.
pub open spec fn share_xs(shares: Seq<(usize, BigUint)>) -> Seq<int> {
    Seq::new(shares.len(), |i: int| shares[i].0 as int)
}

/// The y-coordinates of a sequence of shares.
pub open spec fn share_ys(shares: Seq<(usize, BigUint)>) -> Seq<int> {
    Seq::new(shares.len(), |i: int| nat_of(shares[i].1) as int)
}

/// The error that a split with these parameters ends in, if any. The
/// threshold is looked at first, then the number of shares, then the modulus.
pub open spec fn split_rejection(threshold: nat, count: nat, m: nat) -> Option<SplitError> {
    if threshold <= 1 {
        Some(SplitError::ThresholdTooSmall)
    } else if count < threshold {
        Some(SplitError::TooFewShares)
    } else if m < 2 {
        Some(SplitError::ModulusTooSmall)
    } else {
        None
    }
}

/// `c` can be the polynomial of a split: `threshold` coefficients, the
/// secret first, the others below `m`.
pub open spec fn sharing_polynomial(c: Seq<int>, secret: int, threshold: nat, m: int) -> bool {
    &&& c.len() == threshold
    &&& threshold >= 1
    &&& c[0] == secret
    &&& forall|i: int| 1 <= i < c.len() ==> 0 <= #[trigger] c[i] < m
}

/// `shares` are the `count` shares of the polynomial `c` modulo `m`: the
/// share at position `k` has the x-coordinate `k + 1` and the value of `c`
/// there, reduced modulo `m`.
pub open spec fn are_shares_of(
    shares: Seq<(usize, BigUint)>,
    c: Seq<int>,
    count: nat,
    m: int,
) -> bool {
    &&& shares.len() == count
    &&& forall|k: int|
        0 <= k < count ==> (#[trigger] shares[k]).0 == k + 1 && nat_of(shares[k].1) == poly_eval(
            c,
            k + 1,
        ) % m
}

/// The value of the polynomial with the given coefficients at `x`, modulo
/// `modulus`.
fn evaluate_polynomial(coefficients: &Vec<BigUint>, x: usize, modulus: &BigUint) -> (y: BigUint)
    requires
        nat_of(*modulus) >= 1,
    ensures
        nat_of(y) == poly_eval(coefficient_values(coefficients@), x as int) % (nat_of(
            *modulus,
        ) as int),
{
    let ghost c = coefficient_values(coefficients@);
    let ghost m = nat_of(*modulus) as int;
    let x_big = big_from_u64(x as u64);
    let mut y = big_zero();
    let mut i: usize = 0;
    proof {
        assert(c.take(0) =~= Seq::<int>::empty());
        lemma_small_mod(0, m as nat);
    }
    while i < coefficients.len()
        invariant
            i <= coefficients.len(),
            c == coefficient_values(coefficients@),
            m == nat_of(*modulus),
            m >= 1,
            nat_of(x_big) == x,
            nat_of(y) == poly_eval(c.take(i as int), x as int) % m,
        decreases coefficients.len() - i,
    {
        let exponent = big_from_u64(i as u64);
        let power = big_modpow(&x_big, &exponent, modulus);
        let term = big_mul(&coefficients[i], &power);
        let sum = big_add(&y, &term);
        proof {
            let below = poly_eval(c.take(i as int), x as int);
            let monomial = pow(x as int, i as nat);
            assert(c.take(i + 1) =~= c.take(i as int).push(c[i as int]));
            lemma_eval_push(c.take(i as int), c[i as int], x as int);
            lemma_mul_mod_noop_general(c[i as int], monomial, m);
            lemma_mod_twice(below, m);
            lemma_add_congruent(
                nat_of(y) as int,
                below,
                nat_of(term) as int,
                c[i as int] * monomial,
                m,
            );
        }
        y = big_rem(&sum, modulus);
        i = i + 1;
    }
    proof {
        assert(c.take(coefficients.len() as int) =~= c);
    }
    y
}

/// The shares of the polynomial with the given coefficients: its values at
/// `1`, `2`, up to `shares`, each reduced modulo `modulus`.
///
/// The number of coefficients is the threshold. This is the part of a split
/// that does not depend on chance.
pub fn shares_from_coefficients(
    coefficients: &Vec<BigUint>,
    shares: usize,
    modulus: &BigUint,
) -> (result: Result<Vec<(usize, BigUint)>, SplitError>)
    ensures
        match result {
            Ok(v) => split_rejection(coefficients.len() as nat, shares as nat, nat_of(*modulus))
                is None && are_shares_of(
                v@,
                coefficient_values(coefficients@),
                shares as nat,
                nat_of(*modulus) as int,
            ),
            Err(e) => split_rejection(coefficients.len() as nat, shares as nat, nat_of(*modulus))
                == Some(e),
        },
{
    if coefficients.len() <= 1 {
        return Err(SplitError::ThresholdTooSmall);
    }
    if shares < coefficients.len() {
        return Err(SplitError::TooFewShares);
    }
    let one = big_one();
    if big_le(modulus, &one) {
        return Err(SplitError::ModulusTooSmall);
    }
    let ghost c = coefficient_values(coefficients@);
    let ghost m = nat_of(*modulus) as int;
    let mut result: Vec<(usize, BigUint)> = Vec::new();
    let mut k: usize = 0;
    while k < shares
        invariant
            k <= shares,
            c == coefficient_values(coefficients@),
            m == nat_of(*modulus),
            m >= 2,
            are_shares_of(result@, c, k as nat, m),
        decreases shares - k,
    {
        let x = k + 1;
        let y = evaluate_polynomial(coefficients, x, modulus);
        result.push((x, y));
        k = k + 1;
    }
    Ok(result)
}

/// Splits `secret` into `shares` shares of which any `threshold` give it
/// back, provided that `modulus` is a prime above `secret` and above
/// `shares`.
///
/// The shares are the values at `1`, `2`, up to `shares` of a polynomial
/// modulo `modulus` whose constant term is the secret and whose other
/// `threshold - 1` coefficients are drawn at random below `modulus`. That
/// `modulus` is prime is the caller's part and is not tested here. Nothing
/// is drawn and no share is made when the parameters are refused.
pub fn shamir_split_shares(
    secret: &BigUint,
    threshold: usize,
    shares: usize,
    modulus: &BigUint,
) -> (result: Result<Vec<(usize, BigUint)>, SplitError>)
    ensures
        match result {
            Ok(v) => split_rejection(threshold as nat, shares as nat, nat_of(*modulus)) is None
                && exists|c: Seq<int>|
                #[trigger] sharing_polynomial(
                    c,
                    nat_of(*secret) as int,
                    threshold as nat,
                    nat_of(*modulus) as int,
                ) && are_shares_of(v@, c, shares as nat, nat_of(*modulus) as int),
            Err(e) => split_rejection(threshold as nat, shares as nat, nat_of(*modulus)) == Some(
                e,
            ),
        },
{
    if threshold <= 1 {
        return Err(SplitError::ThresholdTooSmall);
    }
    if shares < threshold {
        return Err(SplitError::TooFewShares);
    }
    let one = big_one();
    if big_le(modulus, &one) {
        return Err(SplitError::ModulusTooSmall);
    }
    let mut rng = entropy_rng();
    let mut coefficients: Vec<BigUint> = Vec::new();
    coefficients.push(big_clone(secret));
    let mut i: usize = 1;
    while i < threshold
        invariant
            1 <= i <= threshold,
            nat_of(*modulus) >= 2,
            sharing_polynomial(
                coefficient_values(coefficients@),
                nat_of(*secret) as int,
                i as nat,
                nat_of(*modulus) as int,
            ),
        decreases threshold - i,
    {
        let ghost before = coefficient_values(coefficients@);
        let coefficient = random_below(&mut rng, modulus);
        coefficients.push(coefficient);
        proof {
            let after = coefficient_values(coefficients@);
            assert forall|j: int| 0 <= j < before.len() implies after[j] == before[j] by {}
        }
        i = i + 1;
    }
    shares_from_coefficients(&coefficients, shares, modulus)
}

/// Two of the shares have the same x-coordinate.
pub open spec fn has_repeated_x(shares: Seq<(usize, BigUint)>) -> bool {
    exists|a: int, b: int|
        0 <= a < b < shares.len() && (#[trigger] shares[a]).0 == (#[trigger] shares[b]).0
}

/// Numerator and denominator of the `i`-th Lagrange coefficient at zero,
/// each kept below `modulus` after every factor.
///
/// A difference `x_j - x_i` is taken as `x_j + (modulus - x_i % modulus)`,
/// reduced modulo `modulus`, so that no step goes below zero.
fn basis_products(shares: &[(usize, BigUint)], i: usize, modulus: &BigUint) -> (products: (
    BigUint,
    BigUint,
))
    requires
        i < shares.len(),
        nat_of(*modulus) >= 2,
    ensures
        nat_of(products.0) == lagrange_numerator(
            share_xs(shares@),
            i as int,
            nat_of(*modulus) as int,
        ),
        nat_of(products.1) == lagrange_denominator(
            share_xs(shares@),
            i as int,
            nat_of(*modulus) as int,
        ),
{
    let ghost xs = share_xs(shares@);
    let ghost m = nat_of(*modulus) as int;
    let xi = big_from_u64(shares[i].0 as u64);
    let xi_reduced = big_rem(&xi, modulus);
    let shift = big_sub(modulus, &xi_reduced);
    let mut numerator = big_one();
    let mut denominator = big_one();
    let mut j: usize = 0;
    proof {
        lemma_small_mod(1, m as nat);
    }
    while j < shares.len()
        invariant
            j <= shares.len(),
            i < shares.len(),
            xs == share_xs(shares@),
            m == nat_of(*modulus),
            m >= 2,
            nat_of(shift) == m - xs[i as int] % m,
            nat_of(numerator) == basis_product(xs, i as int, j as nat, 0) % m,
            nat_of(denominator) == basis_product(xs, i as int, j as nat, xs[i as int]) % m,
        decreases shares.len() - j,
    {
        if j != i {
            let xj = big_from_u64(shares[j].0 as u64);
            let shifted = big_add(&xj, &shift);
            let difference = big_rem(&shifted, modulus);
            let numerator_product = big_mul(&numerator, &xj);
            let denominator_product = big_mul(&denominator, &difference);
            proof {
                let above = basis_product(xs, i as int, j as nat, 0);
                let below = basis_product(xs, i as int, j as nat, xs[i as int]);
                lemma_shifted_difference(xs[j as int], xs[i as int], m);
                lemma_mod_twice(above, m);
                lemma_mod_twice(below, m);
                lemma_mod_twice(xs[j as int] - xs[i as int], m);
                lemma_mul_congruent(nat_of(numerator) as int, above, xs[j as int], xs[j as int], m);
                lemma_mul_congruent(
                    nat_of(denominator) as int,
                    below,
                    nat_of(difference) as int,
                    xs[j as int] - xs[i as int],
                    m,
                );
            }
            numerator = big_rem(&numerator_product, modulus);
            denominator = big_rem(&denominator_product, modulus);
        }
        j = j + 1;
    }
    (numerator, denominator)
}

/// Reconstructs the secret from shares by Lagrange interpolation at zero
/// modulo `modulus`.
///
/// With a prime modulus and x-coordinates that differ modulo it, the result
/// is the constant term of the one polynomial of degree below the number of
/// shares that runs through them. Every denominator is looked at before any
/// inverse is taken: a zero among them, as two equal x-coordinates give it,
/// ends the reconstruction. An inverse is the denominator to the power
/// `modulus - 2`; it is multiplied back onto the denominator, and anything
/// but 1 shows that the modulus is not prime and ends the reconstruction
/// too. So a value that is returned is the value at zero of a polynomial
/// through the shares.
pub fn shamir_reconstruct(shares: &[(usize, BigUint)], modulus: &BigUint) -> (result: Result<
    BigUint,
    ReconstructError,
>)
    ensures
        match result {
            Ok(v) => reconstruction(
                share_xs(shares@),
                share_ys(shares@),
                nat_of(*modulus) as int,
            ) == Ok::<int, ReconstructError>(nat_of(v) as int),
            Err(e) => reconstruction(
                share_xs(shares@),
                share_ys(shares@),
                nat_of(*modulus) as int,
            ) == Err::<int, ReconstructError>(e),
        },
        nat_of(*modulus) >= 2 && has_repeated_x(shares@) ==> result == Err::<
            BigUint,
            ReconstructError,
        >(ReconstructError::ZeroDenominator),
        is_prime(nat_of(*modulus)) && distinct_modulo(share_xs(shares@), nat_of(*modulus) as int)
            ==> result is Ok,
{
    let ghost xs = share_xs(shares@);
    let ghost ys = share_ys(shares@);
    let ghost m = nat_of(*modulus) as int;
    proof {
        if m >= 2 && has_repeated_x(shares@) {
            let (a, b) = choose|a: int, b: int|
                0 <= a < b < shares@.len() && (#[trigger] shares@[a]).0 == (
                #[trigger] shares@[b]).0;
            lemma_equal_coordinates_are_refused(xs, ys, m, a, b);
        }
        if is_prime(nat_of(*modulus)) && distinct_modulo(xs, m) {
            lemma_prime_reconstruction_succeeds(xs, ys, nat_of(*modulus));
        }
    }
    let zero = big_zero();
    let one = big_one();
    if big_le(modulus, &one) {
        return Err(ReconstructError::ModulusTooSmall);
    }
    let count = shares.len();
    let mut numerators: Vec<BigUint> = Vec::new();
    let mut denominators: Vec<BigUint> = Vec::new();
    let mut i: usize = 0;
    while i < count
        invariant
            i <= count,
            count == shares.len(),
            xs == share_xs(shares@),
            ys == share_ys(shares@),
            m == nat_of(*modulus),
            m >= 2,
            has_repeated_x(shares@) ==> reconstruction(xs, ys, m) == Err::<int, ReconstructError>(
                ReconstructError::ZeroDenominator,
            ),
            is_prime(nat_of(*modulus)) && distinct_modulo(xs, m) ==> reconstruction(xs, ys, m)
                is Ok,
            nat_of(zero) == 0,
            numerators.len() == i,
            denominators.len() == i,
            forall|k: int|
                0 <= k < i ==> nat_of(#[trigger] numerators[k]) == lagrange_numerator(xs, k, m),
            forall|k: int|
                0 <= k < i ==> nat_of(#[trigger] denominators[k]) == lagrange_denominator(
                    xs,
                    k,
                    m,
                ),
            forall|k: int| 0 <= k < i ==> #[trigger] lagrange_denominator(xs, k, m) != 0,
        decreases count - i,
    {
        let (numerator, denominator) = basis_products(shares, i, modulus);
        if big_eq(&denominator, &zero) {
            assert(lagrange_denominator(xs, i as int, m) == 0);
            return Err(ReconstructError::ZeroDenominator);
        }
        numerators.push(numerator);
        denominators.push(denominator);
        i = i + 1;
    }
    let two = big_from_u64(2);
    let exponent = big_sub(modulus, &two);
    let mut reconstructed = big_zero();
    let mut i: usize = 0;
    proof {
        lemma_small_mod(0, m as nat);
    }
    while i < count
        invariant
            i <= count,
            count == shares.len(),
            xs == share_xs(shares@),
            ys == share_ys(shares@),
            m == nat_of(*modulus),
            m >= 2,
            has_repeated_x(shares@) ==> reconstruction(xs, ys, m) == Err::<int, ReconstructError>(
                ReconstructError::ZeroDenominator,
            ),
            is_prime(nat_of(*modulus)) && distinct_modulo(xs, m) ==> reconstruction(xs, ys, m)
                is Ok,
            nat_of(one) == 1,
            nat_of(exponent) == m - 2,
            numerators.len() == count,
            denominators.len() == count,
            forall|k: int|
                0 <= k < count ==> nat_of(#[trigger] numerators[k]) == lagrange_numerator(
                    xs,
                    k,
                    m,
                ),
            forall|k: int|
                0 <= k < count ==> nat_of(#[trigger] denominators[k]) == lagrange_denominator(
                    xs,
                    k,
                    m,
                ),
            forall|k: int| 0 <= k < count ==> #[trigger] lagrange_denominator(xs, k, m) != 0,
            forall|k: int| 0 <= k < i ==> #[trigger] inverse_holds(xs, k, m),
            nat_of(reconstructed) == interpolation_sum(xs, ys, m, i as nat) % m,
        decreases count - i,
    {
        let inverse = big_modpow(&denominators[i], &exponent, modulus);
        let check_product = big_mul(&denominators[i], &inverse);
        let check = big_rem(&check_product, modulus);
        if !big_eq(&check, &one) {
            assert(!inverse_holds(xs, i as int, m));
            return Err(ReconstructError::NotInvertible);
        }
        let coefficient_product = big_mul(&numerators[i], &inverse);
        let coefficient = big_rem(&coefficient_product, modulus);
        let term_product = big_mul(&coefficient, &shares[i].1);
        let term = big_rem(&term_product, modulus);
        let sum = big_add(&reconstructed, &term);
        proof {
            let before = interpolation_sum(xs, ys, m, i as nat);
            let added = lagrange_coefficient(xs, i as int, m) * ys[i as int];
            assert(nat_of(coefficient) == lagrange_coefficient(xs, i as int, m));
            lemma_mod_twice(before, m);
            lemma_mod_twice(added, m);
            lemma_add_congruent(
                nat_of(reconstructed) as int,
                before,
                nat_of(term) as int,
                added,
                m,
            );
        }
        reconstructed = big_rem(&sum, modulus);
        i = i + 1;
    }
    Ok(reconstructed)
}

/// `picked` is a selection from `all`: its `k`-th share has the x-coordinate
/// and the value of the share of `all` at `indices[k]`, and no share of `all`
/// is taken twice.
pub open spec fn is_selection(
    picked: Seq<(usize, BigUint)>,
    all: Seq<(usize, BigUint)>,
    indices: Seq<int>,
) -> bool {
    &&& picked.len() == indices.len()
    &&& forall|k: int| 0 <= k < indices.len() ==> 0 <= #[trigger] indices[k] < all.len()
    &&& forall|k: int, l: int|
        0 <= k < indices.len() && 0 <= l < indices.len() && k != l ==> #[trigger] indices[k]
            != #[trigger] indices[l]
    &&& forall|k: int|
        0 <= k < indices.len() ==> (#[trigger] picked[k]).0 == all[indices[k]].0 && nat_of(
            picked[k].1,
        ) == nat_of(all[indices[k]].1)
}

/// Any `threshold` shares give the secret back.
///
/// Let `all` be the shares of a split of `secret` with a prime modulus `p`
/// above the secret and above the number of shares. Then the reconstruction
/// from any selection of at least `threshold` of them, in any order, is the
/// secret.
pub proof fn lemma_selected_shares_recover_secret(
    all: Seq<(usize, BigUint)>,
    picked: Seq<(usize, BigUint)>,
    indices: Seq<int>,
    c: Seq<int>,
    secret: nat,
    threshold: nat,
    count: nat,
    p: nat,
)
    requires
        is_prime(p),
        secret < p,
        count < p,
        split_rejection(threshold, count, p) is None,
        sharing_polynomial(c, secret as int, threshold, p as int),
        are_shares_of(all, c, count, p as int),
        is_selection(picked, all, indices),
        picked.len() >= threshold,
    ensures
        reconstruction(share_xs(picked), share_ys(picked), p as int) == Ok::<
            int,
            ReconstructError,
        >(secret as int),
{
    let m = p as int;
    let xs = share_xs(picked);
    let ys = share_ys(picked);
    assert forall|k: int| 0 <= k < xs.len() implies xs[k] == indices[k] + 1 && #[trigger] xs[k]
        % m == xs[k] by {
        assert(picked[k].0 == all[indices[k]].0);
        lemma_small_mod(xs[k] as nat, p);
    }
    assert(distinct_modulo(xs, m));
    assert forall|k: int| 0 <= k < xs.len() implies ys[k] % m == #[trigger] poly_eval(c, xs[k])
        % m by {
        assert(picked[k].0 == all[indices[k]].0);
        assert(xs[k] % m == xs[k]);
        lemma_mod_twice(poly_eval(c, xs[k]), m);
    }
    lemma_reconstruction_recovers_constant(c, xs, ys, p);
    lemma_small_mod(secret, p);
}

/// Which shares are selected does not matter: two selections of at least
/// `threshold` shares of one split reconstruct the same value.
pub proof fn lemma_selections_agree(
    all: Seq<(usize, BigUint)>,
    first: Seq<(usize, BigUint)>,
    first_indices: Seq<int>,
    second: Seq<(usize, BigUint)>,
    second_indices: Seq<int>,
    c: Seq<int>,
    secret: nat,
    threshold: nat,
    count: nat,
    p: nat,
)
    requires
        is_prime(p),
        secret < p,
        count < p,
        split_rejection(threshold, count, p) is None,
        sharing_polynomial(c, secret as int, threshold, p as int),
        are_shares_of(all, c, count, p as int),
        is_selection(first, all, first_indices),
        is_selection(second, all, second_indices),
        first.len() >= threshold,
        second.len() >= threshold,
    ensures
        reconstruction(share_xs(first), share_ys(first), p as int) == reconstruction(
            share_xs(second),
            share_ys(second),
            p as int,
        ),
{
    lemma_selected_shares_recover_secret(all, first, first_indices, c, secret, threshold, count, p);
    lemma_selected_shares_recover_secret(
        all,
        second,
        second_indices,
        c,
        secret,
        threshold,
        count,
        p,
    );
}

/// Two splits of one secret, whatever their random coefficients, both give
/// the secret back.
pub proof fn lemma_independent_splits_agree(
    first: Seq<(usize, BigUint)>,
    first_polynomial: Seq<int>,
    second: Seq<(usize, BigUint)>,
    second_polynomial: Seq<int>,
    secret: nat,
    threshold: nat,
    count: nat,
    p: nat,
)
    requires
        is_prime(p),
        secret < p,
        count < p,
        split_rejection(threshold, count, p) is None,
        sharing_polynomial(first_polynomial, secret as int, threshold, p as int),
        sharing_polynomial(second_polynomial, secret as int, threshold, p as int),
        are_shares_of(first, first_polynomial, count, p as int),
        are_shares_of(second, second_polynomial, count, p as int),
    ensures
        reconstruction(share_xs(first), share_ys(first), p as int) == Ok::<int, ReconstructError>(
            secret as int,
        ),
        reconstruction(share_xs(second), share_ys(second), p as int) == Ok::<
            int,
            ReconstructError,
        >(secret as int),
{
    let every = Seq::new(count, |k: int| k);
    lemma_selected_shares_recover_secret(
        first,
        first,
        every,
        first_polynomial,
        secret,
        threshold,
        count,
        p,
    );
    lemma_selected_shares_recover_secret(
        second,
        second,
        every,
        second_polynomial,
        secret,
        threshold,
        count,
        p,
    );
}

/// Without slack the secret still comes back: when the threshold is the
/// number of shares, all shares together reconstruct the secret.
pub proof fn lemma_all_shares_recover_secret(
    all: Seq<(usize, BigUint)>,
    c: Seq<int>,
    secret: nat,
    count: nat,
    p: nat,
)
    requires
        is_prime(p),
        secret < p,
        count < p,
        split_rejection(count, count, p) is None,
        sharing_polynomial(c, secret as int, count, p as int),
        are_shares_of(all, c, count, p as int),
    ensures
        reconstruction(share_xs(all), share_ys(all), p as int) == Ok::<int, ReconstructError>(
            secret as int,
        ),
{
    lemma_selected_shares_recover_secret(
        all,
        all,
        Seq::new(count, |k: int| k),
        c,
        secret,
        count,
        count,
        p,
    );
}

/// With the least threshold, 2, the line through any two different shares
/// meets zero at the secret.
pub proof fn lemma_two_shares_recover_secret(
    all: Seq<(usize, BigUint)>,
    first: int,
    second: int,
    c: Seq<int>,
    secret: nat,
    count: nat,
    p: nat,
)
    requires
        is_prime(p),
        secret < p,
        count < p,
        split_rejection(2, count, p) is None,
        sharing_polynomial(c, secret as int, 2, p as int),
        are_shares_of(all, c, count, p as int),
        0 <= first < count,
        0 <= second < count,
        first != second,
    ensures
        reconstruction(
            share_xs(seq![all[first], all[second]]),
            share_ys(seq![all[first], all[second]]),
            p as int,
        ) == Ok::<int, ReconstructError>(secret as int),
{
    lemma_selected_shares_recover_secret(
        all,
        seq![all[first], all[second]],
        seq![first, second],
        c,
        secret,
        2,
        count,
        p,
    );
}

} // verus!
