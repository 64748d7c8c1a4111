use num_bigint::BigUint;
use shamir_sharing::interpolation::ReconstructError;
use shamir_sharing::sharing::{
    shamir_reconstruct, shamir_split_shares, shares_from_coefficients, SplitError,
};

fn big(n: u64) -> BigUint {
    BigUint::from(n)
}

fn decimal(digits: &str) -> BigUint {
    BigUint::parse_bytes(digits.as_bytes(), 10).unwrap()
}

/// 2^61 - 1, a prime.
fn mersenne_61() -> BigUint {
    big(2_305_843_009_213_693_951)
}

/// 2^127 - 1, a prime.
fn mersenne_127() -> BigUint {
    decimal("170141183460469231731687303715884105727")
}

fn pick(shares: &[(usize, BigUint)], positions: &[usize]) -> Vec<(usize, BigUint)> {
    let mut picked = Vec::new();
    for &position in positions {
        picked.push(shares[position].clone());
    }
    picked
}

/// Every way to choose `size` of the positions `from..count`, in rising order.
fn subsets(from: usize, count: usize, size: usize) -> Vec<Vec<usize>> {
    if size == 0 {
        return vec![Vec::new()];
    }
    let mut all = Vec::new();
    for first in from..count {
        for rest in subsets(first + 1, count, size - 1) {
            let mut subset = vec![first];
            subset.extend(rest);
            all.push(subset);
        }
    }
    all
}

#[test]
fn fixed_coefficients_give_the_expected_shares() {
    let coefficients = vec![big(17), big(5)];
    let shares = shares_from_coefficients(&coefficients, 3, &big(23)).unwrap();
    assert_eq!(shares, vec![(1, big(22)), (2, big(4)), (3, big(9))]);
}

#[test]
fn two_shares_of_a_line_reconstruct_the_secret() {
    let shares = vec![(1, big(22)), (2, big(4))];
    assert_eq!(shamir_reconstruct(&shares, &big(23)), Ok(big(17)));
}

#[test]
fn every_pair_of_the_three_shares_reconstructs_the_secret() {
    let shares = vec![(1, big(22)), (2, big(4)), (3, big(9))];
    for positions in subsets(0, 3, 2) {
        assert_eq!(
            shamir_reconstruct(&pick(&shares, &positions), &big(23)),
            Ok(big(17))
        );
    }
    assert_eq!(shamir_reconstruct(&shares, &big(23)), Ok(big(17)));
}

#[test]
fn a_quadratic_gives_the_expected_shares() {
    // 7 + 3x + 2x^2 modulo 11
    let coefficients = vec![big(7), big(3), big(2)];
    let shares = shares_from_coefficients(&coefficients, 4, &big(11)).unwrap();
    assert_eq!(
        shares,
        vec![(1, big(1)), (2, big(10)), (3, big(1)), (4, big(7))]
    );
    for positions in subsets(0, 4, 3) {
        assert_eq!(
            shamir_reconstruct(&pick(&shares, &positions), &big(11)),
            Ok(big(7))
        );
    }
}

#[test]
fn coefficients_above_the_modulus_are_reduced() {
    // 30 + 28x modulo 23 is 7 + 5x
    let coefficients = vec![big(30), big(28)];
    let shares = shares_from_coefficients(&coefficients, 2, &big(23)).unwrap();
    assert_eq!(shares, vec![(1, big(12)), (2, big(17))]);
    assert_eq!(shamir_reconstruct(&shares, &big(23)), Ok(big(7)));
}

#[test]
fn high_powers_are_taken_modulo_the_modulus() {
    // x^5 modulo 7 at 1, 2, ..., 6
    let coefficients = vec![big(0), big(0), big(0), big(0), big(0), big(1)];
    let shares = shares_from_coefficients(&coefficients, 6, &big(7)).unwrap();
    assert_eq!(
        shares,
        vec![
            (1, big(1)),
            (2, big(4)),
            (3, big(5)),
            (4, big(2)),
            (5, big(3)),
            (6, big(6))
        ]
    );
    assert_eq!(shamir_reconstruct(&shares, &big(7)), Ok(big(0)));
}

#[test]
fn shares_from_coefficients_refuses_what_a_split_refuses() {
    assert_eq!(
        shares_from_coefficients(&vec![], 3, &big(23)),
        Err(SplitError::ThresholdTooSmall)
    );
    assert_eq!(
        shares_from_coefficients(&vec![big(17)], 3, &big(23)),
        Err(SplitError::ThresholdTooSmall)
    );
    assert_eq!(
        shares_from_coefficients(&vec![big(17), big(5)], 1, &big(23)),
        Err(SplitError::TooFewShares)
    );
    assert_eq!(
        shares_from_coefficients(&vec![big(17), big(5)], 2, &big(1)),
        Err(SplitError::ModulusTooSmall)
    );
}

#[test]
fn split_refuses_fewer_shares_than_the_threshold() {
    assert_eq!(
        shamir_split_shares(&big(17), 3, 2, &big(23)),
        Err(SplitError::TooFewShares)
    );
    assert_eq!(
        shamir_split_shares(&big(17), 6, 0, &big(23)),
        Err(SplitError::TooFewShares)
    );
}

#[test]
fn split_refuses_a_threshold_below_two() {
    assert_eq!(
        shamir_split_shares(&big(17), 0, 3, &big(23)),
        Err(SplitError::ThresholdTooSmall)
    );
    assert_eq!(
        shamir_split_shares(&big(17), 1, 3, &big(23)),
        Err(SplitError::ThresholdTooSmall)
    );
}

#[test]
fn split_refuses_a_modulus_below_two() {
    assert_eq!(
        shamir_split_shares(&big(17), 2, 3, &big(0)),
        Err(SplitError::ModulusTooSmall)
    );
    assert_eq!(
        shamir_split_shares(&big(0), 2, 3, &big(1)),
        Err(SplitError::ModulusTooSmall)
    );
}

#[test]
fn split_looks_at_the_threshold_first_and_the_modulus_last() {
    assert_eq!(
        shamir_split_shares(&big(17), 1, 0, &big(0)),
        Err(SplitError::ThresholdTooSmall)
    );
    assert_eq!(
        shamir_split_shares(&big(17), 3, 2, &big(0)),
        Err(SplitError::TooFewShares)
    );
}

#[test]
fn split_numbers_the_shares_from_one() {
    let shares = shamir_split_shares(&big(17), 3, 5, &big(23)).unwrap();
    assert_eq!(shares.len(), 5);
    for (position, (x, y)) in shares.iter().enumerate() {
        assert_eq!(*x, position + 1);
        assert!(*y < big(23));
    }
}

#[test]
fn every_threshold_subset_reconstructs_the_secret() {
    let secret = big(123_456_789_012_345);
    let modulus = mersenne_61();
    let shares = shamir_split_shares(&secret, 3, 5, &modulus).unwrap();
    let all = subsets(0, 5, 3);
    assert_eq!(all.len(), 10);
    for positions in all {
        assert_eq!(
            shamir_reconstruct(&pick(&shares, &positions), &modulus),
            Ok(secret.clone()),
            "{:?}",
            positions
        );
    }
}

#[test]
fn shares_one_three_five_agree_with_shares_two_three_four() {
    let secret = big(424_242);
    let modulus = mersenne_61();
    let shares = shamir_split_shares(&secret, 3, 5, &modulus).unwrap();
    let odd = shamir_reconstruct(&pick(&shares, &[0, 2, 4]), &modulus);
    let middle = shamir_reconstruct(&pick(&shares, &[1, 2, 3]), &modulus);
    assert_eq!(odd, middle);
    assert_eq!(odd, Ok(secret));
}

#[test]
fn the_order_of_the_shares_does_not_matter() {
    let secret = big(99);
    let modulus = big(101);
    let shares = shamir_split_shares(&secret, 3, 6, &modulus).unwrap();
    assert_eq!(
        shamir_reconstruct(&pick(&shares, &[5, 0, 3]), &modulus),
        Ok(secret.clone())
    );
    assert_eq!(
        shamir_reconstruct(&pick(&shares, &[3, 5, 0]), &modulus),
        Ok(secret)
    );
}

#[test]
fn more_shares_than_the_threshold_reconstruct_the_secret() {
    let secret = big(31_337);
    let modulus = mersenne_61();
    let shares = shamir_split_shares(&secret, 3, 8, &modulus).unwrap();
    for size in 3..=8 {
        assert_eq!(
            shamir_reconstruct(&shares[..size], &modulus),
            Ok(secret.clone())
        );
    }
}

#[test]
fn two_splits_differ_and_both_reconstruct_the_secret() {
    let secret = decimal("1234567890123456789012345678901234567");
    let modulus = mersenne_127();
    let first = shamir_split_shares(&secret, 4, 6, &modulus).unwrap();
    let second = shamir_split_shares(&secret, 4, 6, &modulus).unwrap();
    assert_ne!(first, second);
    assert_eq!(shamir_reconstruct(&first[..4], &modulus), Ok(secret.clone()));
    assert_eq!(shamir_reconstruct(&second[2..], &modulus), Ok(secret));
}

#[test]
fn a_threshold_equal_to_the_number_of_shares_reconstructs() {
    let secret = big(5_000_000_000);
    let modulus = mersenne_61();
    let shares = shamir_split_shares(&secret, 5, 5, &modulus).unwrap();
    assert_eq!(shares.len(), 5);
    assert_eq!(shamir_reconstruct(&shares, &modulus), Ok(secret));
}

#[test]
fn the_least_threshold_reconstructs_from_two_points() {
    let secret = big(77);
    let modulus = big(101);
    let shares = shamir_split_shares(&secret, 2, 2, &modulus).unwrap();
    assert_eq!(shares.len(), 2);
    assert_eq!(shamir_reconstruct(&shares, &modulus), Ok(secret.clone()));
    let shares = shamir_split_shares(&secret, 2, 7, &modulus).unwrap();
    for positions in subsets(0, 7, 2) {
        assert_eq!(
            shamir_reconstruct(&pick(&shares, &positions), &modulus),
            Ok(secret.clone())
        );
    }
}

#[test]
fn six_of_eight_shares_reconstruct() {
    // a 127-bit modulus
    let secret = decimal("987654321098765432109876543210");
    let modulus = mersenne_127();
    let shares = shamir_split_shares(&secret, 6, 8, &modulus).unwrap();
    assert_eq!(shamir_reconstruct(&shares[..6], &modulus), Ok(secret));
}

#[test]
fn a_secret_of_zero_reconstructs() {
    let modulus = big(101);
    let shares = shamir_split_shares(&big(0), 3, 4, &modulus).unwrap();
    assert_eq!(shamir_reconstruct(&shares[1..], &modulus), Ok(big(0)));
}

#[test]
fn a_secret_above_the_modulus_comes_back_reduced() {
    let modulus = big(101);
    let shares = shamir_split_shares(&big(1000), 2, 3, &modulus).unwrap();
    assert_eq!(shamir_reconstruct(&shares[..2], &modulus), Ok(big(91)));
}

#[test]
fn reconstruct_detects_equal_x_coordinates() {
    let shares = vec![(1, big(22)), (1, big(4))];
    assert_eq!(
        shamir_reconstruct(&shares, &big(23)),
        Err(ReconstructError::ZeroDenominator)
    );
    let shares = vec![(1, big(22)), (2, big(4)), (3, big(9)), (2, big(4))];
    assert_eq!(
        shamir_reconstruct(&shares, &big(23)),
        Err(ReconstructError::ZeroDenominator)
    );
}

#[test]
fn reconstruct_detects_x_coordinates_equal_modulo_the_modulus() {
    let shares = vec![(1, big(22)), (24, big(4))];
    assert_eq!(
        shamir_reconstruct(&shares, &big(23)),
        Err(ReconstructError::ZeroDenominator)
    );
}

#[test]
fn reconstruct_reduces_x_coordinates_above_the_modulus() {
    // 17 + 5x modulo 23 at 24 is 17 + 5 = 22
    let shares = vec![(24, big(22)), (2, big(4))];
    assert_eq!(shamir_reconstruct(&shares, &big(23)), Ok(big(17)));
    let shares = vec![(2, big(4)), (47, big(22))];
    assert_eq!(shamir_reconstruct(&shares, &big(23)), Ok(big(17)));
}

#[test]
fn reconstruct_refuses_a_modulus_below_two() {
    let shares = vec![(1, big(0)), (2, big(0))];
    assert_eq!(
        shamir_reconstruct(&shares, &big(0)),
        Err(ReconstructError::ModulusTooSmall)
    );
    assert_eq!(
        shamir_reconstruct(&shares, &big(1)),
        Err(ReconstructError::ModulusTooSmall)
    );
    assert_eq!(
        shamir_reconstruct(&[], &big(1)),
        Err(ReconstructError::ModulusTooSmall)
    );
}

#[test]
fn reconstruct_detects_a_modulus_that_is_not_prime() {
    // modulo 15 the difference 3 - 1 = 2 is a unit, but 2^13 = 2 is not its inverse
    let shares = vec![(1, big(4)), (3, big(8))];
    assert_eq!(
        shamir_reconstruct(&shares, &big(15)),
        Err(ReconstructError::NotInvertible)
    );
    // modulo 15 the difference 4 - 1 = 3 is no unit at all
    let shares = vec![(1, big(4)), (4, big(8))];
    assert_eq!(
        shamir_reconstruct(&shares, &big(15)),
        Err(ReconstructError::NotInvertible)
    );
}

#[test]
fn a_zero_denominator_is_reported_before_a_failed_inverse() {
    // modulo 15: for the share at 1 the differences 4 - 1 and 6 - 1 multiply to zero; for the
    // share at 4 the denominator (1 - 4)(6 - 4) = 9 has no inverse.
    let shares = vec![(4, big(1)), (1, big(1)), (6, big(1))];
    assert_eq!(
        shamir_reconstruct(&shares, &big(15)),
        Err(ReconstructError::ZeroDenominator)
    );
}

#[test]
fn a_modulus_that_is_not_prime_is_accepted_where_the_inverses_hold() {
    // modulo 15 the differences 2 - 1 and 1 - 2 are 1 and -1, their own inverses:
    // 4 + 7x at 1 and 2 is 11 and 18 = 3
    let shares = vec![(1, big(11)), (2, big(3))];
    assert_eq!(shamir_reconstruct(&shares, &big(15)), Ok(big(4)));
}

#[test]
fn no_shares_reconstruct_zero() {
    assert_eq!(shamir_reconstruct(&[], &big(23)), Ok(big(0)));
}

#[test]
fn one_share_reconstructs_its_own_value() {
    let shares = vec![(5, big(9))];
    assert_eq!(shamir_reconstruct(&shares, &big(23)), Ok(big(9)));
    let shares = vec![(5, big(32))];
    assert_eq!(shamir_reconstruct(&shares, &big(23)), Ok(big(9)));
}

#[test]
fn fewer_shares_than_the_threshold_give_another_value() {
    // 7 + 3x + 2x^2 modulo 11: the line through (1, 1) and (2, 10) meets zero at 3, not 7
    let shares = vec![(1, big(1)), (2, big(10))];
    assert_eq!(shamir_reconstruct(&shares, &big(11)), Ok(big(3)));
}

#[test]
fn the_modulus_two_is_accepted() {
    // 1 + x modulo 2 at 1 is 0
    let shares = shares_from_coefficients(&vec![big(1), big(1)], 2, &big(2)).unwrap();
    assert_eq!(shares, vec![(1, big(0)), (2, big(1))]);
    assert_eq!(shamir_reconstruct(&shares[..1], &big(2)), Ok(big(0)));
}

#[test]
fn the_errors_compare_and_print() {
    assert_ne!(SplitError::TooFewShares, SplitError::ThresholdTooSmall);
    assert_ne!(
        ReconstructError::ZeroDenominator,
        ReconstructError::NotInvertible
    );
    assert_eq!(format!("{:?}", SplitError::ModulusTooSmall), "ModulusTooSmall");
    assert_eq!(
        format!("{:?}", ReconstructError::ModulusTooSmall),
        "ModulusTooSmall"
    );
}
